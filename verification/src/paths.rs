//! Joining path components, as a Unix path join does.

use vstd::prelude::*;

verus! {

/// The path separator.
pub open spec fn is_separator(c: char) -> bool {
    c == '/'
}

/// `part` joined onto `base`: an absolute `part` (one that starts with the separator)
/// replaces `base`; otherwise one separator goes between them, unless `base` is empty or
/// already ends in a separator.
pub open spec fn joined(base: Seq<char>, part: Seq<char>) -> Seq<char> {
    if part.len() > 0 && is_separator(part[0]) {
        part
    } else if base.len() == 0 || is_separator(base.last()) {
        base + part
    } else {
        base + seq!['/'] + part
    }
}

/// Joins `part` onto `base`.
pub fn join_path(base: &str, part: &str) -> (path: String)
    ensures
        path@ == joined(base@, part@),
        part@.len() > 0 && part@[0] == '/' ==> path@ == part@,
        !(part@.len() > 0 && part@[0] == '/') && base@.len() > 0 && base@[base@.len() - 1]
            != '/' ==> path@ == base@ + seq!['/'] + part@,
        !(part@.len() > 0 && part@[0] == '/') && (base@.len() == 0 || base@[base@.len() - 1]
            == '/') ==> path@ == base@ + part@,
{
    proof {
        law_join(base@, part@);
    }
    let part_len = part.unicode_len();
    if part_len > 0 && part.get_char(0) == '/' {
        return part.to_owned();
    }
    let base_len = base.unicode_len();
    let mut path = base.to_owned();
    if base_len > 0 && base.get_char(base_len - 1) != '/' {
        path.append("/");
        proof {
            reveal_strlit("/");
        }
    }
    path.append(part);
    path
}

/// What joining gives, for any base and part of any length. A part that begins with '/'
/// stands alone. Any other part follows the whole base, with exactly one '/' between them
/// where the base is non-empty and does not already end in '/', and nothing between them
/// otherwise: the base is kept as it is, the part is kept as it is, and the length is
/// theirs plus that one separator.
pub proof fn law_join(base: Seq<char>, part: Seq<char>)
    ensures
        part.len() > 0 && part[0] == '/' ==> joined(base, part) == part,
        !(part.len() > 0 && part[0] == '/') && base.len() > 0 && base[base.len() - 1] != '/'
            ==> joined(base, part) == base + seq!['/'] + part,
        !(part.len() > 0 && part[0] == '/') && (base.len() == 0 || base[base.len() - 1] == '/')
            ==> joined(base, part) == base + part,
        !(part.len() > 0 && part[0] == '/') ==> {
            &&& base.is_prefix_of(joined(base, part))
            &&& joined(base, part).subrange(
                joined(base, part).len() - part.len(),
                joined(base, part).len() as int,
            ) == part
            &&& joined(base, part).len() == base.len() + part.len() + (if base.len() > 0
                && base[base.len() - 1] != '/' {
                1int
            } else {
                0int
            })
        },
{
    let j = joined(base, part);
    if !(part.len() > 0 && part[0] == '/') {
        if base.len() > 0 && base[base.len() - 1] != '/' {
            assert(j == base + seq!['/'] + part);
            assert(base =~= j.subrange(0, base.len() as int));
            assert(j.subrange(j.len() - part.len(), j.len() as int) =~= part);
        } else {
            assert(j == base + part);
            assert(base =~= j.subrange(0, base.len() as int));
            assert(j.subrange(j.len() - part.len(), j.len() as int) =~= part);
        }
    }
}

} // verus!
