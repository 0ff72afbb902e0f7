//! `/`-separated paths as text: joining a component onto a base the way a
//! Unix path buffer does.

use vstd::prelude::*;

use crate::text::{chars_of, push_char, push_str, split_on, split_vec, string_of};

verus! {

/// `base` joined with `name`: an absolute `name` replaces the base, an empty
/// base gives `name`, and a `/` is put between them unless the base already
/// ends with one.
pub open spec fn path_join(base: Seq<char>, name: Seq<char>) -> Seq<char> {
    if name.len() > 0 && name[0] == '/' {
        name
    } else if base.len() == 0 {
        name
    } else if base.last() == '/' {
        base + name
    } else {
        base + seq!['/'] + name
    }
}

/// Join `name` onto `base`.
pub fn join(base: &str, name: &str) -> (r: String)
    ensures
        r@ == path_join(base@, name@),
{
    let bv = crate::text::chars_of(base);
    let nv = crate::text::chars_of(name);
    if nv.len() > 0 && nv[0] == '/' {
        return name.to_owned();
    }
    if bv.len() == 0 {
        return name.to_owned();
    }
    let mut out = base.to_owned();
    if bv[bv.len() - 1] != '/' {
        push_char(&mut out, '/');
    }
    push_str(&mut out, name);
    out
}

/// A piece of a path that is a component: not empty and not `.`.
pub open spec fn is_component(c: Seq<char>) -> bool {
    c.len() > 0 && c != seq!['.']
}

/// The pieces that are components, in order.
pub open spec fn keep_components(ps: Seq<Seq<char>>) -> Seq<Seq<char>>
    decreases ps.len(),
{
    if ps.len() == 0 {
        Seq::empty()
    } else if is_component(ps.last()) {
        keep_components(ps.drop_last()).push(ps.last())
    } else {
        keep_components(ps.drop_last())
    }
}

/// The components of a path: its `/`-separated pieces without the empty
/// ones and the `.` ones.
pub open spec fn components(p: Seq<char>) -> Seq<Seq<char>> {
    keep_components(split_on(p, '/'))
}

/// `Path::file_name`: the last component, unless the path has none or ends
/// in `..`.
pub open spec fn file_name(p: Seq<char>) -> Option<Seq<char>> {
    let cs = components(p);
    if cs.len() == 0 || cs.last() == seq!['.', '.'] {
        None
    } else {
        Some(cs.last())
    }
}

/// The last component of a path, unless it has none or ends in `..`.
pub fn file_name_of(p: &str) -> (r: Option<String>)
    ensures
        match r {
            Some(n) => file_name(p@) == Some(n@),
            None => file_name(p@) is None,
        },
{
    let v = chars_of(p);
    let parts = split_vec(&v, '/');
    let ghost ps = parts@.map_values(|x: Vec<char>| x@);
    assert(ps =~= split_on(p@, '/'));
    let mut last: Option<usize> = None;
    let mut i: usize = 0;
    while i < parts.len()
        invariant
            i <= parts@.len(),
            ps == parts@.map_values(|x: Vec<char>| x@),
            match last {
                Some(k) => k < i && keep_components(ps.take(i as int)).len() > 0
                    && keep_components(ps.take(i as int)).last() == ps[k as int],
                None => keep_components(ps.take(i as int)).len() == 0,
            },
        decreases parts.len() - i,
    {
        let c = &parts[i];
        let keep = c.len() > 0 && !(c.len() == 1 && c[0] == '.');
        proof {
            assert(ps.take(i + 1).drop_last() =~= ps.take(i as int));
            assert(ps.take(i + 1).last() == c@);
            assert(keep == is_component(c@)) by {
                if c@.len() == 1 && c@[0] == '.' {
                    assert(c@ =~= seq!['.']);
                }
            }
        }
        if keep {
            last = Some(i);
        }
        i = i + 1;
    }
    assert(ps.take(i as int) =~= ps);
    match last {
        Some(k) => {
            let c = &parts[k];
            if c.len() == 2 && c[0] == '.' && c[1] == '.' {
                assert(c@ =~= seq!['.', '.']);
                None
            } else {
                assert(c@ != seq!['.', '.']);
                Some(string_of(c))
            }
        },
        None => None,
    }
}

} // verus!
