use eidos::categories::{format_categories, parse_all, parse_primary, CategoryFactory};

#[test]
fn resolves_default_category_names() {
    let f = CategoryFactory::defaults();
    assert_eq!(f.name_for_id(9), Some("Gameplay"));
    assert_eq!(f.name_for_id(17), Some("UI"));
    assert_eq!(f.name_for_id(99999), None);
    assert_eq!(f.name_for_id(39), Some("Tattoos"));
    assert_eq!(f.parent_id(39), Some(10));
}

#[test]
fn parse_primary_takes_first_positive_id() {
    assert_eq!(parse_primary("-1,"), None);
    assert_eq!(parse_primary(""), None);
    assert_eq!(parse_primary("9,"), Some(9));
    assert_eq!(parse_primary("27,43,9"), Some(27));
    assert_eq!(parse_primary("-1,9"), Some(9));
}

#[test]
fn descendant_and_top_level() {
    let f = CategoryFactory::defaults();
    assert!(f.is_descendant_of(27, 9));
    assert!(f.is_descendant_of(9, 9));
    assert!(!f.is_descendant_of(9, 27));
    let top = f.all_top_level();
    assert!(top.iter().any(|&(id, n)| id == 9 && n == "Gameplay"));
    assert!(top.iter().all(|&(id, _)| f.parent_id(id) == Some(0)));
}

#[test]
fn parse_dat_overrides_defaults() {
    let f = CategoryFactory::parse_dat("1|My Anims|0\n900|Custom|0\n");
    assert_eq!(f.name_for_id(1), Some("My Anims"));
    assert_eq!(f.name_for_id(900), Some("Custom"));
}

#[test]
fn parse_all_keeps_order_and_drops_the_placeholder() {
    assert_eq!(parse_all("-1,"), Vec::<i32>::new());
    assert_eq!(parse_all("27,43,9,"), vec![27, 43, 9]);
    assert_eq!(parse_all("9,9,27,"), vec![9, 27]);
    assert_eq!(parse_all(""), Vec::<i32>::new());
}

#[test]
fn format_categories_matches_what_mo2_writes() {
    assert_eq!(format_categories(None, &[]), "-1,");
    assert_eq!(format_categories(Some(9), &[]), "9,");
    assert_eq!(format_categories(Some(9), &[27, 43]), "9,27,43,");
    assert_eq!(format_categories(Some(9), &[9, 27]), "9,27,");
    assert_eq!(format_categories(Some(-1), &[27]), "27,");
}

#[test]
fn legacy_four_cell_dat_is_read_and_written_back_as_three() {
    let f = CategoryFactory::parse_dat("1|Animations|22,51|0\n900|Custom||0\n52|Poses||1\n");
    assert_eq!(f.for_nexus_id(51), Some(1));
    assert_eq!(f.for_nexus_id(999), None);
    assert_eq!(f.get(1).unwrap().nexus[0].name, "Unknown");
    assert_eq!(f.to_dat(), "1|Animations|0\n900|Custom|0\n52|Poses|1\n");
    assert_eq!(f.to_nexus_map(), "1|Unknown|22\n1|Unknown|51\n");
}

#[test]
fn three_cell_dat_round_trips_byte_for_byte() {
    let text = "1|Anims|0\n52|Poses|1\n";
    let f = CategoryFactory::parse_dat(text);
    assert!(f.get(1).unwrap().nexus.is_empty());
    assert_eq!(f.to_dat(), text);
    assert_eq!(f.to_nexus_map(), "");
}

#[test]
fn nexus_map_file_round_trips_and_repoints_instead_of_duplicating() {
    let mut f = CategoryFactory::parse_dat("1|Anims|0\n9|Gameplay|0\n");
    f.merge_nexus_map("1|Animation|51\n9|Gameplay|24\n");
    assert_eq!(f.for_nexus_id(51), Some(1));
    assert_eq!(f.for_nexus_id(24), Some(9));
    assert_eq!(f.to_nexus_map(), "1|Animation|51\n9|Gameplay|24\n");
    assert!(f.learn_nexus_id(9, 51, "Animation"));
    assert_eq!(f.for_nexus_id(51), Some(9));
    assert!(f.get(1).unwrap().nexus.is_empty());
    assert!(!f.learn_nexus_id(9, 51, "Animation"));
    assert!(!f.learn_nexus_id(4242, 77, "Nope"));
    assert_eq!(f.for_nexus_id(77), None);
    let mut g = CategoryFactory::parse_dat("1|Anims|0\n");
    g.merge_nexus_map("777|Ghost|51\n");
    assert_eq!(g.for_nexus_id(51), None);
    assert_eq!(g.to_nexus_map(), "");
}

#[test]
fn add_rename_and_reparent() {
    let mut f = CategoryFactory::parse_dat("1|Anims|0\n");
    let id = f.add("Mine", 1);
    assert_eq!(f.name_for_id(id), Some("Mine"));
    assert_eq!(f.parent_id(id), Some(1));
    assert!(f.rename(id, "  Renamed  "));
    assert_eq!(f.name_for_id(id), Some("Renamed"));
    assert!(!f.rename(4242, "nope"));
    f.rename(id, "a|b");
    assert_eq!(f.name_for_id(id), Some("a/b"));
    assert_eq!(CategoryFactory::parse_dat(&f.to_dat()).name_for_id(id), Some("a/b"));
}

#[test]
fn reparenting_refuses_to_build_a_cycle() {
    let mut f = CategoryFactory::parse_dat("1|Top|0\n2|Mid|1\n3|Low|2\n");
    assert!(!f.set_parent(1, 1));
    assert!(!f.set_parent(1, 3));
    assert!(f.set_parent(3, 1));
    assert_eq!(f.parent_id(3), Some(1));
}

#[test]
fn removing_a_category_lifts_its_children_instead_of_orphaning_them() {
    let mut f = CategoryFactory::parse_dat("1|Top|0\n2|Mid|1\n3|Low|2\n");
    assert!(f.remove(2));
    assert_eq!(f.name_for_id(2), None);
    assert_eq!(f.parent_id(3), Some(1));
    assert!(!f.remove(2));
    assert_eq!(f.name_for_id(3), Some("Low"));
}

#[test]
fn free_id_never_returns_a_taken_one_or_a_sentinel() {
    let mut f = CategoryFactory::parse_dat("1|A|0\n2|B|0\n");
    assert_eq!(f.free_id(), 3);
    let a = f.add("C", 0);
    let b = f.add("D", 0);
    assert_ne!(a, b);
    assert!(a > 0 && b > 0);
}

#[test]
fn a_deleted_id_is_never_handed_out_again() {
    let mut f = CategoryFactory::defaults();
    assert!(f.remove(47), "Miscellaneous");
    let fresh = f.add("Mounts", 0);
    assert_ne!(fresh, 47, "a new category must not inherit the deleted one's mods");
    assert_eq!(f.name_for_id(47), None, "and 47 stays unresolvable, as documented");
    let back = CategoryFactory::parse_dat(&f.to_dat());
    assert!(back.free_id() > fresh);
}

#[test]
fn a_category_cannot_be_created_as_its_own_parent() {
    let mut f = CategoryFactory::parse_dat("1|A|0\n");
    let id = f.add("Self", 2);
    assert_eq!(id, 2);
    assert_eq!(f.parent_id(id), Some(0), "silently re-rooted rather than orphaned");
    assert!(f.tree().iter().any(|&(i, _, _)| i == id), "and it is visible");
}

#[test]
fn tree_is_parents_before_children_and_survives_a_missing_parent() {
    let f = CategoryFactory::parse_dat("1|Top|0\n2|Mid|1\n3|Orphan|777\n");
    let t = f.tree();
    let pos = |id: i32| t.iter().position(|&(i, _, _)| i == id).unwrap();
    assert!(pos(1) < pos(2));
    assert_eq!(t[pos(2)].2, 1);
    assert_eq!(t[pos(3)].2, 0);
    assert_eq!(t.len(), 3);
}

#[test]
fn tree_terminates_on_a_hand_edited_cycle() {
    let f = CategoryFactory::parse_dat("1|A|2\n2|B|1\n");
    let t = f.tree();
    assert!(t.len() <= 2);
}

// ---- further cases

#[test]
fn the_high_water_mark_skips_past_every_taken_id() {
    let f = CategoryFactory::parse_dat("5|A|0\n2|B|0\n");
    assert_eq!(f.free_id(), 6);
    assert!(f.all().iter().all(|c| c.id < f.free_id()));
}

#[test]
fn tree_rows_carry_their_indentation() {
    let f = CategoryFactory::parse_dat("1|Top|0\n2|Mid|1\n4|Leaf|2\n3|Orphan|777\n");
    let t = f.tree();
    assert_eq!(
        t,
        vec![
            (3, "Orphan".to_string(), 0),
            (1, "Top".to_string(), 0),
            (2, "  Mid".to_string(), 1),
            (4, "    Leaf".to_string(), 2),
        ]
    );
}

#[test]
fn the_primary_category_heads_all_categories() {
    for raw in ["-1,9", "-1,", "27,43,9", "", " 5 , 5 ,0,-3,8", "x,0,12"] {
        assert_eq!(parse_primary(raw), parse_all(raw).first().copied(), "{raw}");
    }
    assert_eq!(parse_primary("-1,9"), Some(9));
    assert_eq!(parse_primary("-1,"), None);
    assert_eq!(parse_primary("27,43,9"), Some(27));
}

#[test]
fn a_catalogue_with_an_id_zero_row_round_trips_its_written_rows() {
    let f = CategoryFactory::parse_dat("0|Zero|0\n1|A|0\n2|B|1\n");
    assert_eq!(f.all().len(), 3);
    let text = f.to_dat();
    assert_eq!(text, "1|A|0\n2|B|1\n");
    let back = CategoryFactory::parse_dat(&text);
    assert_eq!(back.to_dat(), text);
    assert_eq!(back.all().iter().map(|c| c.id).collect::<Vec<_>>(), vec![1, 2]);
}
