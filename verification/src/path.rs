//! File paths as text, with `/` between their components.

use crate::text::{chars_of, string_of};
use vstd::prelude::*;

verus! {

/// Whether a path starts at the root.
pub open spec fn absolute(path: Seq<char>) -> bool {
    path.len() > 0 && path[0] == '/'
}

/// `rest` below `base`; an absolute `rest` stands for itself.
pub open spec fn joined(base: Seq<char>, rest: Seq<char>) -> Seq<char> {
    if absolute(rest) {
        rest
    } else if base.len() == 0 || base.last() == '/' {
        base + rest
    } else {
        base.push('/') + rest
    }
}

/// A path without the slashes and the `.` components at its end.
pub open spec fn without_tail(path: Seq<char>) -> Seq<char>
    decreases path.len(),
{
    if path.len() > 0 && (path.last() == '/' || (path.last() == '.' && path.len() > 1
        && path[path.len() - 2] == '/')) {
        without_tail(path.drop_last())
    } else {
        path
    }
}

/// What stands behind the last `mark`, or all of it.
pub open spec fn behind(s: Seq<char>, mark: char) -> Seq<char>
    decreases s.len(),
{
    if s.len() == 0 || s.last() == mark {
        seq![]
    } else {
        behind(s.drop_last(), mark).push(s.last())
    }
}

/// The last component of a path, unless that is `.` or `..` or missing.
pub open spec fn file_name_of(path: Seq<char>) -> Option<Seq<char>> {
    let name = behind(without_tail(path), '/');
    if name.len() == 0 || name == seq!['.'] || name == seq!['.', '.'] {
        None
    } else {
        Some(name)
    }
}

/// A name without its extension. A dot in front starts no extension.
pub open spec fn stem_of(name: Seq<char>) -> Seq<char> {
    let extension = behind(name, '.');
    if extension.len() + 1 >= name.len() {
        name
    } else {
        name.take(name.len() - extension.len() - 1)
    }
}

/// The last component of a path without its extension.
pub open spec fn file_stem_of(path: Seq<char>) -> Option<Seq<char>> {
    match file_name_of(path) {
        Some(name) => Some(stem_of(name)),
        None => None,
    }
}

/// `rest` below `base`.
pub fn join(base: &str, rest: &str) -> (r: String)
    ensures
        r@ == joined(base@, rest@),
{
    let front = chars_of(base);
    let back = chars_of(rest);
    if back.len() > 0 && back[0] == '/' {
        return rest.to_owned();
    }
    let mut out: String = base.to_owned();
    if front.len() > 0 && front[front.len() - 1] != '/' {
        out.push('/');
    }
    out.append(rest);
    out
}

pub fn is_absolute(path: &str) -> (r: bool)
    ensures
        r == absolute(path@),
{
    let chars = chars_of(path);
    chars.len() > 0 && chars[0] == '/'
}

/// How many of the first `to` characters stand up to and with the last `mark`.
fn after_last(chars: &Vec<char>, to: usize, mark: char) -> (from: usize)
    requires
        to <= chars@.len(),
    ensures
        from <= to,
        chars@.subrange(from as int, to as int) == behind(chars@.take(to as int), mark),
{
    let ghost all = chars@.take(to as int);
    let mut from: usize = to;
    assert(all.take(to as int) == all);
    assert(behind(all, mark) =~= behind(all.take(from as int), mark) + chars@.subrange(
        from as int,
        to as int,
    ));
    while from > 0 && chars[from - 1] != mark
        invariant
            from <= to <= chars@.len(),
            all == chars@.take(to as int),
            behind(all, mark) == behind(all.take(from as int), mark) + chars@.subrange(
                from as int,
                to as int,
            ),
        decreases from,
    {
        proof {
            let shorter = all.take(from as int);
            assert(shorter.last() == chars@[from - 1]);
            assert(shorter.drop_last() == all.take(from - 1));
            assert(behind(shorter, mark) + chars@.subrange(from as int, to as int) =~= behind(
                all.take(from - 1),
                mark,
            ) + chars@.subrange(from - 1, to as int));
        }
        from -= 1;
    }
    proof {
        let shorter = all.take(from as int);
        assert(behind(shorter, mark) == Seq::<char>::empty());
        assert(Seq::<char>::empty() + chars@.subrange(from as int, to as int) =~= chars@.subrange(
            from as int,
            to as int,
        ));
    }
    from
}

/// The last component of a path.
pub fn file_name(path: &str) -> (r: Option<String>)
    ensures
        match r {
            Some(name) => file_name_of(path@) == Some(name@),
            None => file_name_of(path@) is None,
        },
{
    let chars = chars_of(path);
    let mut to: usize = chars.len();
    assert(chars@.take(to as int) == chars@);
    while to > 0 && (chars[to - 1] == '/' || (chars[to - 1] == '.' && to > 1 && chars[to - 2]
        == '/'))
        invariant
            to <= chars@.len(),
            without_tail(chars@) == without_tail(chars@.take(to as int)),
        decreases to,
    {
        assert(chars@.take(to as int).drop_last() == chars@.take(to - 1));
        to -= 1;
    }
    assert(without_tail(chars@) == chars@.take(to as int));
    let from: usize = after_last(&chars, to, '/');
    let ghost name = chars@.subrange(from as int, to as int);
    if from == to {
        return None;
    }
    if to - from == 1 && chars[from] == '.' {
        assert(name =~= seq!['.']);
        return None;
    }
    if to - from == 2 && chars[from] == '.' && chars[from + 1] == '.' {
        assert(name =~= seq!['.', '.']);
        return None;
    }
    proof {
        let (one, two) = (seq!['.'], seq!['.', '.']);
        if name == one {
            assert(one.len() == 1 && one[0] == '.' && name[0] == chars@[from as int]);
        }
        if name == two {
            assert(two.len() == 2 && two[0] == '.' && two[1] == '.');
            assert(name[0] == chars@[from as int] && name[1] == chars@[from + 1]);
        }
    }
    Some(string_of(&chars, from, to))
}

/// The last component of a path without its extension.
pub fn file_stem(path: &str) -> (r: Option<String>)
    ensures
        match r {
            Some(stem) => file_stem_of(path@) == Some(stem@),
            None => file_stem_of(path@) is None,
        },
{
    match file_name(path) {
        Some(name) => {
            let letters = chars_of(&name);
            let dot: usize = after_last(&letters, letters.len(), '.');
            assert(letters@.take(letters@.len() as int) == letters@);
            // Without a dot, or with the only one in front, the name is the
            // stem.
            if dot <= 1 {
                Some(name)
            } else {
                let stem = string_of(&letters, 0, dot - 1);
                assert(stem@ =~= name@.take(name@.len() - behind(name@, '.').len() - 1));
                Some(stem)
            }
        },
        None => None,
    }
}

} // verus!
