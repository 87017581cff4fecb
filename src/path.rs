//! Archive paths: Windows-1252 bytes, lowercase, backslash-separated, relative,
//! without `.` or `..` components and shorter than `MAX_PATH`.

use crate::windows_1252::{encode, encode_spec, lower_spec, to_lowercase};
use vstd::prelude::*;
use vstd::slice::slice_subrange;
use vstd::std_specs::iter::IteratorSpec;

verus! {

/// Windows' `MAX_PATH`: every archive path is shorter.
pub const MAX_PATH: usize = 260;

/// Whether `c` separates path components.
pub open spec fn is_sep(c: char) -> bool {
    c == '/' || c == '\\'
}

/// The archive byte of one character of a path: separators become `\`, other
/// characters their lowercase Windows-1252 byte; `None` where there is none, or
/// where it is NUL.
pub open spec fn canon_char(c: char) -> Option<u8> {
    if is_sep(c) {
        Some(0x5Cu8)
    } else {
        match encode_spec(c) {
            Some(b) => if b == 0 { None } else { Some(lower_spec(b)) },
            None => None,
        }
    }
}

/// Whether a component is `.` or `..`.
pub open spec fn is_dot_component(c: Seq<u8>) -> bool {
    c == seq![0x2Eu8] || c == seq![0x2Eu8, 0x2Eu8]
}

/// Appends a finished component to the joined path `out`; empty components vanish.
pub open spec fn join_component(out: Seq<u8>, cur: Seq<u8>) -> Seq<u8> {
    if cur.len() == 0 {
        out
    } else if out.len() == 0 {
        cur
    } else {
        out.push(0x5Cu8) + cur
    }
}

/// The state of normalization after the characters `p`: the joined components
/// finished so far and the component being read, or `None` once a character has
/// no archive byte or a `.`/`..` component has ended.
pub open spec fn norm_state(p: Seq<char>) -> Option<(Seq<u8>, Seq<u8>)>
    decreases p.len(),
{
    if p.len() == 0 {
        Some((Seq::empty(), Seq::empty()))
    } else {
        match norm_state(p.drop_last()) {
            None => None,
            Some((out, cur)) => match canon_char(p.last()) {
                None => None,
                Some(b) => if b == 0x5C {
                    if is_dot_component(cur) {
                        None
                    } else {
                        Some((join_component(out, cur), Seq::empty()))
                    }
                } else {
                    Some((out, cur.push(b)))
                },
            },
        }
    }
}

/// The archive path of `p`, or `None` where `p` is not a valid relative path.
pub open spec fn normalize_spec(p: Seq<char>) -> Option<Seq<u8>> {
    if p.len() > 0 && is_sep(p[0]) {
        None
    } else {
        match norm_state(p) {
            None => None,
            Some((out, cur)) => if is_dot_component(cur) {
                None
            } else if join_component(out, cur).len() >= MAX_PATH {
                None
            } else {
                Some(join_component(out, cur))
            },
        }
    }
}

/// The archive byte of one character, as `canon_char` states it.
pub fn canon_byte(c: char) -> (r: Option<u8>)
    ensures
        r == canon_char(c),
{
    if c == '/' || c == '\\' {
        return Some(0x5C);
    }
    match encode(c) {
        Some(b) => if b == 0 { None } else { Some(to_lowercase(b)) },
        None => None,
    }
}

fn is_dot(cur: &Vec<u8>) -> (r: bool)
    ensures
        r == is_dot_component(cur@),
{
    let r = (cur.len() == 1 && cur[0] == 0x2E) || (cur.len() == 2 && cur[0] == 0x2E && cur[1] == 0x2E);
    proof {
        if cur@.len() == 1 && cur@[0] == 0x2E {
            assert(cur@ =~= seq![0x2Eu8]);
        }
        if cur@.len() == 2 && cur@[0] == 0x2E && cur@[1] == 0x2E {
            assert(cur@ =~= seq![0x2Eu8, 0x2Eu8]);
        }
    }
    r
}

fn join(out: &mut Vec<u8>, cur: &Vec<u8>)
    ensures
        final(out)@ == join_component(old(out)@, cur@),
{
    if cur.len() == 0 {
        return;
    }
    if out.len() != 0 {
        out.push(0x5C);
    }
    let mut i: usize = 0;
    let ghost base = out@;
    while i < cur.len()
        invariant
            i <= cur@.len(),
            out@ == base + cur@.take(i as int),
        decreases cur@.len() - i,
    {
        out.push(cur[i]);
        proof {
            assert(cur@.take(i + 1) =~= cur@.take(i as int).push(cur@[i as int]));
        }
        i = i + 1;
    }
    assert(cur@.take(cur@.len() as int) =~= cur@);
}

/// Converts a path to its archive form: components split on `/` and `\`, empty
/// ones dropped, each character encoded as lowercase Windows-1252, joined with
/// `\`. `None` for a path that starts with a separator, holds a `.` or `..`
/// component, a character that Windows-1252 lacks or a NUL, or whose archive form
/// reaches `MAX_PATH` bytes.
pub fn normalize(path: &str) -> (r: Option<Vec<u8>>)
    ensures
        match r {
            Some(v) => normalize_spec(path@) == Some(v@),
            None => normalize_spec(path@) is None,
        },
{
    let mut it = path.chars();
    let ghost n = path@.len();
    let ghost mut k: int = 0;
    let mut out: Vec<u8> = Vec::new();
    let mut cur: Vec<u8> = Vec::new();
    let mut first = true;
    loop
        invariant
            it.remaining() == path@.skip(k),
            0 <= k <= n,
            n == path@.len(),
            first <==> k == 0,
            k > 0 ==> !is_sep(path@[0]),
            norm_state(path@.take(k)) == Some((out@, cur@)),
        decreases n - k,
    {
        match it.next() {
            Some(c) => {
                assert(c == path@[k]);
                if first && (c == '/' || c == '\\') {
                    return None;
                }
                first = false;
                let ghost prev = path@.take(k);
                proof {
                    assert(path@.take(k + 1).drop_last() =~= prev);
                }
                match canon_byte(c) {
                    None => {
                        proof {
                            lemma_norm_state_none(path@, k + 1);
                        }
                        return None;
                    },
                    Some(b) => {
                        if b == 0x5C {
                            if is_dot(&cur) {
                                proof {
                                    lemma_norm_state_none(path@, k + 1);
                                }
                                return None;
                            }
                            join(&mut out, &cur);
                            cur = Vec::new();
                        } else {
                            cur.push(b);
                        }
                    },
                }
                proof {
                    k = k + 1;
                }
            },
            None => {
                assert(path@.skip(k).len() == 0);
                assert(path@.take(k) =~= path@);
                if is_dot(&cur) {
                    return None;
                }
                join(&mut out, &cur);
                if out.len() >= MAX_PATH {
                    return None;
                }
                return Some(out);
            },
        }
    }
}

/// Once normalization fails on a prefix it fails on every longer one.
proof fn lemma_norm_state_none(p: Seq<char>, k: int)
    requires
        0 < k <= p.len(),
        norm_state(p.take(k)) is None,
    ensures
        norm_state(p) is None,
    decreases p.len() - k,
{
    if k < p.len() {
        assert(p.take(k + 1).drop_last() =~= p.take(k));
        lemma_norm_state_none(p, k + 1);
    } else {
        assert(p.take(k) =~= p);
    }
}

fn rfind(s: &[u8], b: u8) -> (r: Option<usize>)
    ensures
        match r {
            Some(i) => i < s@.len() && s@[i as int] == b
                && forall|j: int| i < j < s@.len() ==> s@[j] != b,
            None => forall|j: int| 0 <= j < s@.len() ==> s@[j] != b,
        },
{
    let mut i = s.len();
    while 0 < i
        invariant
            i <= s@.len(),
            forall|j: int| i <= j < s@.len() ==> s@[j] != b,
        decreases i,
    {
        if s[i - 1] == b {
            return Some(i - 1);
        }
        i = i - 1;
    }
    None
}

/// The parent of an archive path: what stands before its last `\`.
pub open spec fn parent_of(path: Seq<u8>) -> Seq<u8> {
    match rfind_spec(path, 0x5Cu8) {
        Some(i) => path.take(i),
        None => Seq::empty(),
    }
}

/// The file name of an archive path: what follows its last `\`.
pub open spec fn file_name_of(path: Seq<u8>) -> Seq<u8> {
    match rfind_spec(path, 0x5Cu8) {
        Some(i) => path.skip(i + 1),
        None => path,
    }
}

/// Splits an archive path at its last `\` into (parent, file name); a path
/// without one is all file name.
pub fn split(path: &[u8]) -> (r: (&[u8], &[u8]))
    ensures
        r.0@ == parent_of(path@),
        r.1@ == file_name_of(path@),
{
    match rfind(path, 0x5C) {
        Some(i) => {
            proof { lemma_rfind_spec(path@, 0x5Cu8, i as int); }
            let n = path.len();
            (slice_subrange(path, 0, i), slice_subrange(path, i + 1, n))
        },
        None => {
            proof { lemma_rfind_spec_none(path@, 0x5Cu8); }
            (slice_subrange(path, 0, 0), path)
        },
    }
}

/// Splits a file name at its last `.` into (stem, extension); the extension keeps
/// the dot, and a name without one has an empty extension.
pub fn split_extension(name: &[u8]) -> (r: (&[u8], &[u8]))
    ensures
        match rfind_spec(name@, 0x2Eu8) {
            Some(i) => r.0@ == name@.take(i) && r.1@ == name@.skip(i),
            None => r.0@ == name@ && r.1@.len() == 0,
        },
{
    match rfind(name, 0x2E) {
        Some(i) => {
            proof { lemma_rfind_spec(name@, 0x2Eu8, i as int); }
            (slice_subrange(name, 0, i), slice_subrange(name, i, name.len()))
        },
        None => {
            proof { lemma_rfind_spec_none(name@, 0x2Eu8); }
            (name, slice_subrange(name, 0, 0))
        },
    }
}

/// The position of the last `b` in `s`, searching from the end.
pub open spec fn rfind_spec(s: Seq<u8>, b: u8) -> Option<int>
    decreases s.len(),
{
    if s.len() == 0 {
        None
    } else if s.last() == b {
        Some(s.len() - 1)
    } else {
        rfind_spec(s.drop_last(), b)
    }
}

/// The last position of a byte lies inside the sequence.
pub proof fn lemma_rfind_spec_bounds(s: Seq<u8>, b: u8)
    ensures
        rfind_spec(s, b) is Some ==> 0 <= rfind_spec(s, b)->0 < s.len() && s[rfind_spec(s, b)->0] == b,
    decreases s.len(),
{
    if s.len() > 0 {
        lemma_rfind_spec_bounds(s.drop_last(), b);
    }
}

proof fn lemma_rfind_spec(s: Seq<u8>, b: u8, i: int)
    requires
        0 <= i < s.len(),
        s[i] == b,
        forall|j: int| i < j < s.len() ==> s[j] != b,
    ensures
        rfind_spec(s, b) == Some(i),
    decreases s.len(),
{
    if i < s.len() - 1 {
        lemma_rfind_spec(s.drop_last(), b, i);
    }
}

proof fn lemma_rfind_spec_none(s: Seq<u8>, b: u8)
    requires
        forall|j: int| 0 <= j < s.len() ==> s[j] != b,
    ensures
        rfind_spec(s, b) is None,
    decreases s.len(),
{
    if s.len() > 0 {
        lemma_rfind_spec_none(s.drop_last(), b);
    }
}

} // verus!
