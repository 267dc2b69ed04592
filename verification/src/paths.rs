//! The text of a path: where its scheme ends, where its last separator stands,
//! and how much of it names its parent.  Paths are taken as bytes, so every
//! index is a byte index.

use vstd::prelude::*;

verus! {

/// The byte that separates the components of a path, `/`.
pub const SEPARATOR: u8 = 47;

/// The byte that ends a scheme, `:`.
pub const COLON: u8 = 58;

/// The first index from `from` on at which `s` holds the byte `b`; the length
/// of `s` if there is none.
pub open spec fn index_of(s: Seq<u8>, b: u8, from: int) -> int
    decreases s.len() - from,
{
    if from >= s.len() {
        s.len() as int
    } else if s[from] == b {
        from
    } else {
        index_of(s, b, from + 1)
    }
}

/// The index that [`index_of`] gives lies between `from` and the length of
/// `s`; it holds `b` unless it is that length, and no index between does.
pub proof fn lemma_index_of(s: Seq<u8>, b: u8, from: int)
    requires
        0 <= from <= s.len(),
    ensures
        from <= index_of(s, b, from) <= s.len(),
        index_of(s, b, from) < s.len() ==> s[index_of(s, b, from)] == b,
        forall|j: int| from <= j < index_of(s, b, from) ==> s[j] != b,
    decreases s.len() - from,
{
    if from < s.len() && s[from] != b {
        lemma_index_of(s, b, from + 1);
    }
}

/// The first index from `from` on at which `s` holds `b`, or the length of
/// `s`.
pub fn find_from(s: &[u8], b: u8, from: usize) -> (i: usize)
    ensures
        i == index_of(s@, b, from as int),
        from <= s@.len() ==> from <= i <= s@.len(),
{
    if from >= s.len() {
        return s.len();
    }
    let mut i: usize = from;
    while i < s.len() && s[i] != b
        invariant
            from <= i <= s@.len(),
            index_of(s@, b, from as int) == index_of(s@, b, i as int),
        decreases s@.len() - i,
    {
        i = i + 1;
    }
    i
}

/// Where a path string divides: the index of the colon that ends its scheme,
/// if it has one, and the index at which its path begins.
///
/// A colon ends a scheme if it comes before the first separator.  Behind the
/// scheme, or at the start without one, two separators open an authority if
/// something follows them; the path then begins at the next separator, or is
/// empty if there is none.
pub open spec fn split_of(s: Seq<u8>) -> (Option<usize>, usize) {
    let colon = index_of(s, COLON, 0);
    let slash = index_of(s, SEPARATOR, 0);
    let scheme = if colon < s.len() && colon < slash {
        Some(colon as usize)
    } else {
        None
    };
    let rest = if scheme is Some {
        colon + 1
    } else {
        0
    };
    if s.len() - rest > 2 && s[rest] == SEPARATOR && s[rest + 1] == SEPARATOR {
        (scheme, index_of(s, SEPARATOR, rest + 2) as usize)
    } else {
        (scheme, rest as usize)
    }
}

/// Divides a path string into scheme and path; see [`split_of`].
pub fn split_scheme(s: &[u8]) -> (r: (Option<usize>, usize))
    ensures
        r == split_of(s@),
        r.1 <= s@.len(),
        r.0 matches Some(colon) ==> colon < r.1 && s@[colon as int] == COLON,
{
    let colon = find_from(s, COLON, 0);
    let slash = find_from(s, SEPARATOR, 0);
    proof {
        lemma_index_of(s@, COLON, 0);
    }
    let (scheme, rest) = if colon < s.len() && colon < slash {
        (Some(colon), colon + 1)
    } else {
        (None, 0)
    };
    if s.len() - rest > 2 && s[rest] == SEPARATOR && s[rest + 1] == SEPARATOR {
        (scheme, find_from(s, SEPARATOR, rest + 2))
    } else {
        (scheme, rest)
    }
}

/// Index `i` holds the last separator of `path`.
pub open spec fn is_last_slash(path: Seq<u8>, i: int) -> bool {
    &&& 0 <= i < path.len()
    &&& path[i] == SEPARATOR
    &&& forall|j: int| i < j < path.len() ==> path[j] != SEPARATOR
}

/// `path` holds no separator.
pub open spec fn no_slash(path: Seq<u8>) -> bool {
    forall|j: int| 0 <= j < path.len() ==> path[j] != SEPARATOR
}

/// The index of the last separator of `path`, if it holds one.
pub fn last_slash(path: &[u8]) -> (r: Option<usize>)
    ensures
        r matches Some(i) ==> i < path@.len() && path@[i as int] == 47 && forall|j: int|
            i < j < path@.len() ==> path@[j] != 47,
        r is None ==> forall|j: int| 0 <= j < path@.len() ==> path@[j] != 47,
{
    let mut i: usize = path.len();
    while i > 0
        invariant
            i <= path@.len(),
            forall|j: int| i <= j < path@.len() ==> path@[j] != 47,
        decreases i,
    {
        i = i - 1;
        if path[i] == SEPARATOR {
            return Some(i);
        }
    }
    None
}

/// Where the path proper begins in `path`: behind a drive specifier, which
/// takes two bytes, or three with a separator before it, if the path has one.
pub fn start_after_drive(path: &[u8], has_drive: bool) -> (start: usize)
    ensures
        start == if !has_drive {
            0int
        } else if path@.len() > 0 && path@[0] == SEPARATOR {
            3int
        } else {
            2int
        },
{
    if !has_drive {
        0
    } else if path.len() > 0 && path[0] == SEPARATOR {
        3
    } else {
        2
    }
}

/// Whether the path proper, which begins at `start`, begins with a separator.
pub fn is_absolute_from(path: &[u8], start: usize) -> (b: bool)
    ensures
        b == (start < path@.len() && path@[start as int] == SEPARATOR),
{
    start < path.len() && path[start] == SEPARATOR
}

/// `path`, whose path proper begins at `start`, names a root: it ends at
/// `start`, holds no separator, or holds its only separator at `start` and
/// nothing behind it.
pub open spec fn is_root(path: Seq<u8>, start: usize) -> bool {
    ||| path.len() == start
    ||| no_slash(path)
    ||| is_last_slash(path, start as int) && path.len() == start + 1
}

/// How many bytes of `path` name its parent, if `i` holds its last separator:
/// all before that separator, or the separator too if it stands at `start`.
pub open spec fn parent_len(start: usize, i: int) -> int {
    if i == start {
        start + 1
    } else {
        i
    }
}

/// The length of the prefix of `path` that names its parent; `None` if the
/// path names a root.
pub fn parent_end(path: &[u8], start: usize) -> (r: Option<usize>)
    ensures
        r is None <==> is_root(path@, start),
        r matches Some(end) ==> end <= path@.len() && exists|i: int|
            #[trigger] is_last_slash(path@, i) && end == parent_len(start, i),
{
    if path.len() == start {
        return None;
    }
    match last_slash(path) {
        None => None,
        Some(i) => {
            if i == start && path.len() == start + 1 {
                None
            } else {
                assert(is_last_slash(path@, i as int));
                assert(!no_slash(path@));
                if i == start {
                    Some(start + 1)
                } else {
                    Some(i)
                }
            }
        },
    }
}

/// The bytes of the last component of `path`: what follows its last
/// separator; `None` if it holds no separator.
pub fn name_start(path: &[u8]) -> (r: Option<usize>)
    ensures
        r is None <==> no_slash(path@),
        r matches Some(at) ==> at >= 1 && is_last_slash(path@, at - 1),
{
    let n = path.len();
    match last_slash(path) {
        None => None,
        Some(i) => {
            assert(i < n);
            assert(!no_slash(path@));
            Some(i + 1)
        },
    }
}

} // verus!
