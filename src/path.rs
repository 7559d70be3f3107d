//! The path language: `$`, keys, `[*]` and `[n]`, parsed into segments.

use vstd::prelude::*;
use crate::text::{unsigned_text, parse_unsigned};

verus! {

/// One step of a path: an object key, a fan-out over every array element, or
/// an array index.
#[derive(Debug, Clone, PartialEq)]
pub enum PathSegment {
    Key(String),
    Wildcard,
    Index(usize),
}

/// What a path segment denotes.
pub enum Seg {
    Key(Seq<char>),
    Wildcard,
    Index(nat),
}

impl View for PathSegment {
    type V = Seg;

    open spec fn view(&self) -> Seg {
        match self {
            PathSegment::Key(k) => Seg::Key(k@),
            PathSegment::Wildcard => Seg::Wildcard,
            PathSegment::Index(i) => Seg::Index(*i as nat),
        }
    }
}

/// The denotation of a sequence of segments.
pub open spec fn segs_view(s: Seq<PathSegment>) -> Seq<Seg> {
    s.map_values(|x: PathSegment| x@)
}

/// The segment that a bracket body denotes: `*`, or an index that fits a
/// `usize`.
pub open spec fn bracket_seg(body: Seq<char>) -> Option<Seg> {
    if body == seq!['*'] {
        Some(Seg::Wildcard)
    } else {
        match unsigned_text(body) {
            Some(n) if n <= usize::MAX => Some(Seg::Index(n)),
            _ => None,
        }
    }
}

/// The position of the first `]` in `s` at or after `from`.
pub open spec fn find_close(s: Seq<char>, from: int) -> Option<int>
    decreases s.len() - from,
{
    if from < 0 || from >= s.len() {
        None
    } else if s[from] == ']' {
        Some(from)
    } else {
        find_close(s, from + 1)
    }
}

/// `acc` with the pending key `buf` appended, if `buf` is not empty.
pub open spec fn flush(acc: Seq<Seg>, buf: Seq<char>) -> Seq<Seg> {
    if buf.len() == 0 {
        acc
    } else {
        acc.push(Seg::Key(buf))
    }
}

/// Reads `s` from position `i` on, with the pending key `buf` and the
/// segments `acc` read so far. A `.` ends a key; a `[` ends a key and opens a
/// bracket that must be closed; every other character extends the key.
pub open spec fn scan(s: Seq<char>, i: int, buf: Seq<char>, acc: Seq<Seg>) -> Option<Seq<Seg>>
    decreases s.len() - i, 1int,
{
    if i < 0 || i >= s.len() {
        Some(flush(acc, buf))
    } else if s[i] == '.' {
        scan(s, i + 1, seq![], flush(acc, buf))
    } else if s[i] == '[' {
        scan_bracket(s, i, flush(acc, buf))
    } else {
        scan(s, i + 1, buf.push(s[i]), acc)
    }
}

pub open spec fn scan_bracket(s: Seq<char>, i: int, acc: Seq<Seg>) -> Option<Seq<Seg>>
    decreases s.len() - i, 0int,
{
    if i < 0 || i >= s.len() {
        None
    } else {
        match find_close(s, i + 1) {
            None => None,
            Some(j) => {
                if j <= i || j >= s.len() {
                    None
                } else {
                    match bracket_seg(s.subrange(i + 1, j)) {
                        None => None,
                        Some(seg) => scan(s, j + 1, seq![], acc.push(seg)),
                    }
                }
            },
        }
    }
}

/// What a path text denotes: `$` or `$.` is the root (no segments); any other
/// path is `$`, an optional `.`, and then the segments.
pub open spec fn parse_spec(p: Seq<char>) -> Option<Seq<Seg>> {
    if p.len() == 0 || p[0] != '$' {
        None
    } else if p.len() >= 2 && p[1] == '.' {
        scan(p.subrange(2, p.len() as int), 0, seq![], seq![])
    } else {
        scan(p.subrange(1, p.len() as int), 0, seq![], seq![])
    }
}

pub proof fn lemma_find_close(s: Seq<char>, from: int)
    requires
        0 <= from,
    ensures
        find_close(s, from) matches Some(j) ==> from <= j < s.len() && s[j] == ']' && forall|k: int|
            from <= k < j ==> s[k] != ']',
        find_close(s, from) is None ==> forall|k: int| from <= k < s.len() ==> s[k] != ']',
    decreases s.len() - from,
{
    if from < s.len() && s[from] != ']' {
        lemma_find_close(s, from + 1);
    }
}

/// Parses the text of an unsigned index, refusing one that does not fit.
fn parse_index(s: &str) -> (r: Option<usize>)
    ensures
        match unsigned_text(s@) {
            Some(n) if n <= usize::MAX => r == Some(n as usize),
            _ => r is None,
        },
{
    match parse_unsigned(s, usize::MAX as u64) {
        Some(n) => Some(n as usize),
        None => None,
    }
}

/// Parses a path such as `$.notes[*].candidates.data[0].id` into its
/// segments. `$` and `$.` denote the root. A path not starting with `$`, a
/// bracket left open, and a bracket body that is neither `*` nor an unsigned
/// index are refused with a message that quotes the path.
pub fn parse(path: &str) -> (r: Result<Vec<PathSegment>, String>)
    ensures
        match parse_spec(path@) {
            Some(segs) => r matches Ok(v) && segs_view(v@) == segs,
            None => r is Err,
        },
        r matches Err(e) ==> e@.len() >= path@.len() && e@.subrange(
            e@.len() - path@.len(),
            e@.len() as int,
        ) == path@,
{
    let n = path.unicode_len();
    if n == 0 || path.get_char(0) != '$' {
        return Err(path_error("path must start with '$': ", path));
    }
    let start: usize = if n >= 2 && path.get_char(1) == '.' {
        2
    } else {
        1
    };
    let rest = path.substring_char(start, n);
    let m = rest.unicode_len();
    let ghost s = rest@;
    let mut segments: Vec<PathSegment> = Vec::new();
    let mut key_start: usize = 0;
    let mut i: usize = 0;
    proof {
        assert(parse_spec(path@) == scan(s, 0, seq![], seq![]));
        assert(s.subrange(0, 0) == Seq::<char>::empty());
        assert(segs_view(segments@) == Seq::<Seg>::empty());
    }
    while i < m
        invariant
            m == s.len(),
            s == rest@,
            parse_spec(path@) == scan(s, 0, seq![], seq![]),
            key_start <= i <= m,
            scan(s, 0, seq![], seq![]) == scan(
                s,
                i as int,
                s.subrange(key_start as int, i as int),
                segs_view(segments@),
            ),
        decreases m - i,
    {
        let c = rest.get_char(i);
        if c == '.' {
            let ghost before = segs_view(segments@);
            let ghost buf = s.subrange(key_start as int, i as int);
            if key_start < i {
                let k = rest.substring_char(key_start, i);
                segments.push(PathSegment::Key(String::from_str(k)));
            }
            proof {
                assert(segs_view(segments@) == flush(before, buf));
                assert(s.subrange((i + 1) as int, (i + 1) as int) == Seq::<char>::empty());
            }
            i = i + 1;
            key_start = i;
        } else if c == '[' {
            let ghost before = segs_view(segments@);
            let ghost buf = s.subrange(key_start as int, i as int);
            if key_start < i {
                let k = rest.substring_char(key_start, i);
                segments.push(PathSegment::Key(String::from_str(k)));
            }
            let ghost flushed = segs_view(segments@);
            proof {
                assert(flushed == flush(before, buf));
                lemma_find_close(s, i + 1);
            }
            let mut j: usize = i + 1;
            while j < m && rest.get_char(j) != ']'
                invariant
                    i < j <= m,
                    m == s.len(),
                    s == rest@,
                    forall|k: int| i + 1 <= k < j ==> s[k] != ']',
                decreases m - j,
            {
                j = j + 1;
            }
            if j >= m {
                proof {
                    assert(find_close(s, i + 1) is None);
                    assert(scan(s, i as int, buf, before) == scan_bracket(s, i as int, flushed));
                }
                return Err(path_error("unclosed bracket in path: ", path));
            }
            proof {
                assert(find_close(s, i + 1) == Some(j as int));
            }
            let body = rest.substring_char(i + 1, j);
            let seg = if str_is_star(body) {
                PathSegment::Wildcard
            } else {
                match parse_index(body) {
                    Some(idx) => PathSegment::Index(idx),
                    None => {
                        proof {
                            assert(bracket_seg(s.subrange(i + 1, j as int)) is None);
                            assert(scan(s, i as int, buf, before) == scan_bracket(
                                s,
                                i as int,
                                flushed,
                            ));
                        }
                        return Err(path_error("invalid bracket expression in path: ", path));
                    },
                }
            };
            proof {
                assert(bracket_seg(s.subrange(i + 1, j as int)) == Some(seg@));
            }
            segments.push(seg);
            proof {
                assert(segs_view(segments@) == flushed.push(seg@));
                assert(s.subrange((j + 1) as int, (j + 1) as int) == Seq::<char>::empty());
            }
            i = j + 1;
            key_start = i;
        } else {
            proof {
                assert(s.subrange(key_start as int, i + 1) == s.subrange(
                    key_start as int,
                    i as int,
                ).push(c));
            }
            i = i + 1;
        }
    }
    let ghost before = segs_view(segments@);
    let ghost buf = s.subrange(key_start as int, i as int);
    if key_start < m {
        let k = rest.substring_char(key_start, m);
        segments.push(PathSegment::Key(String::from_str(k)));
    }
    proof {
        assert(segs_view(segments@) == flush(before, buf));
    }
    Ok(segments)
}

/// Whether `s` is exactly `*`.
fn str_is_star(s: &str) -> (r: bool)
    ensures
        r == (s@ == seq!['*']),
{
    if s.unicode_len() == 1 && s.get_char(0) == '*' {
        proof {
            assert(s@ == seq!['*']);
        }
        true
    } else {
        false
    }
}

/// An error message: `prefix` followed by the offending path.
fn path_error(prefix: &str, path: &str) -> (r: String)
    ensures
        r@ == prefix@ + path@,
        r@.len() >= path@.len() && r@.subrange(r@.len() - path@.len(), r@.len() as int) == path@,
{
    let mut msg = String::from_str(prefix);
    msg.append(path);
    proof {
        assert(msg@.subrange(msg@.len() - path@.len(), msg@.len() as int) =~= path@);
    }
    msg
}

} // verus!
