//! Byte-string path helpers: substring search, equality, basename
//! extraction, path joining and extension stripping.
//!
//! Paths are byte strings. A component separator is the byte `/` (47).

use vstd::prelude::*;

verus! {

/// The separator byte `/`.
pub const SLASH: u8 = 47;

/// The dot byte `.`.
pub const DOT: u8 = 46;

/// `p` occurs in `s` starting at position `i`.
pub open spec fn match_at(s: Seq<u8>, p: Seq<u8>, i: int) -> bool {
    0 <= i && i + p.len() <= s.len() && s.subrange(i, i + p.len()) == p
}

/// `p` occurs somewhere in `s` as a contiguous run of bytes.
pub open spec fn contains_seq(s: Seq<u8>, p: Seq<u8>) -> bool {
    exists|i: int| match_at(s, p, i)
}

/// Does `p` occur in `s` starting exactly at `i`?
fn matches_at(s: &[u8], p: &[u8], i: usize) -> (r: bool)
    requires
        i + p@.len() <= s@.len(),
    ensures
        r == match_at(s@, p@, i as int),
{
    let s_len = s.len();
    let mut j: usize = 0;
    while j < p.len()
        invariant
            i + p@.len() <= s@.len(),
            s_len == s@.len(),
            j <= p@.len(),
            forall|k: int| 0 <= k < j ==> s@[i + k] == p@[k],
        decreases p@.len() - j,
    {
        if s[i + j] != p[j] {
            assert(s@.subrange(i as int, i + p@.len()) != p@) by {
                assert(s@.subrange(i as int, i + p@.len())[j as int] == s@[i + j]);
            }
            return false;
        }
        j += 1;
    }
    assert(s@.subrange(i as int, i + p@.len()) =~= p@);
    true
}

/// Substring search: does `p` occur contiguously anywhere in `s`?
pub fn contains_subseq(s: &[u8], p: &[u8]) -> (r: bool)
    ensures
        r == contains_seq(s@, p@),
{
    if p.len() > s.len() {
        assert(forall|i: int| !match_at(s@, p@, i));
        return false;
    }
    let last = s.len() - p.len();
    let mut i: usize = 0;
    loop
        invariant
            p@.len() <= s@.len(),
            last == s@.len() - p@.len(),
            i <= last,
            forall|j: int| 0 <= j < i ==> !match_at(s@, p@, j),
        decreases last - i,
    {
        if matches_at(s, p, i) {
            return true;
        }
        if i == last {
            assert(forall|j: int| match_at(s@, p@, j) ==> 0 <= j <= last);
            return false;
        }
        i += 1;
    }
}

/// Byte-for-byte equality of two byte strings.
pub fn bytes_eq(a: &[u8], b: &[u8]) -> (r: bool)
    ensures
        r == (a@ == b@),
{
    if a.len() != b.len() {
        assert(a@ != b@) by {
            assert(a@.len() != b@.len());
        }
        return false;
    }
    let mut i: usize = 0;
    while i < a.len()
        invariant
            a@.len() == b@.len(),
            i <= a@.len(),
            forall|k: int| 0 <= k < i ==> a@[k] == b@[k],
        decreases a@.len() - i,
    {
        if a[i] != b[i] {
            return false;
        }
        i += 1;
    }
    assert(a@ =~= b@);
    true
}

/// Append every byte of `s` to `out`.
pub fn push_all(out: &mut Vec<u8>, s: &[u8])
    ensures
        final(out)@ == old(out)@ + s@,
{
    let mut i: usize = 0;
    while i < s.len()
        invariant
            i <= s@.len(),
            out@ == old(out)@ + s@.take(i as int),
        decreases s@.len() - i,
    {
        out.push(s[i]);
        i += 1;
        assert(old(out)@ + s@.take(i as int) =~= (old(out)@ + s@.take(i - 1)).push(s@[i - 1]));
    }
    assert(s@.take(s@.len() as int) =~= s@);
}

/// A fresh copy of a byte string.
pub fn copy_bytes(s: &Vec<u8>) -> (r: Vec<u8>)
    ensures
        r@ == s@,
{
    let mut r: Vec<u8> = Vec::new();
    push_all(&mut r, s.as_slice());
    r
}

/// The run of bytes after the last separator of `p`; all of `p` when `p`
/// holds no separator; empty when `p` ends with a separator.
pub open spec fn after_last_slash(p: Seq<u8>) -> Seq<u8>
    decreases p.len(),
{
    if p.len() == 0 {
        Seq::empty()
    } else if p[p.len() - 1] == SLASH {
        Seq::empty()
    } else {
        after_last_slash(p.drop_last()).push(p[p.len() - 1])
    }
}

/// A byte string that can serve as a file name: non-empty, and not one of
/// the two relative components `.` and `..`.
pub open spec fn is_plain_name(n: Seq<u8>) -> bool {
    n.len() > 0 && n != seq![DOT] && n != seq![DOT, DOT]
}

/// The file name of `p`: the component after the last separator, or `None`
/// when that component is empty, `.` or `..`.
pub fn basename(p: &Vec<u8>) -> (r: Option<Vec<u8>>)
    ensures
        is_plain_name(after_last_slash(p@)) <==> r is Some,
        r matches Some(n) ==> n@ == after_last_slash(p@),
{
    let mut name: Vec<u8> = Vec::new();
    let mut i: usize = 0;
    while i < p.len()
        invariant
            i <= p@.len(),
            name@ == after_last_slash(p@.take(i as int)),
        decreases p@.len() - i,
    {
        let ghost prev = p@.take(i as int);
        if p[i] == SLASH {
            name = Vec::new();
        } else {
            name.push(p[i]);
        }
        i += 1;
        assert(p@.take(i as int).drop_last() =~= prev);
    }
    assert(p@.take(p@.len() as int) =~= p@);
    if name.len() == 0 {
        return None;
    }
    if name.len() == 1 && name[0] == DOT {
        assert(name@ =~= seq![DOT]);
        return None;
    }
    if name.len() == 2 && name[0] == DOT && name[1] == DOT {
        assert(name@ =~= seq![DOT, DOT]);
        return None;
    }
    assert(is_plain_name(name@)) by {
        assert(seq![DOT].len() == 1 && seq![DOT][0] == DOT);
        assert(seq![DOT, DOT].len() == 2 && seq![DOT, DOT][0] == DOT && seq![DOT, DOT][1]
            == DOT);
    }
    Some(name)
}

/// `dir` and `name` joined with a single separator.
pub fn join(dir: &Vec<u8>, name: &Vec<u8>) -> (r: Vec<u8>)
    ensures
        r@ == dir@ + seq![SLASH] + name@,
{
    let mut r: Vec<u8> = Vec::new();
    push_all(&mut r, dir.as_slice());
    r.push(SLASH);
    push_all(&mut r, name.as_slice());
    assert(r@ =~= dir@ + seq![SLASH] + name@);
    r
}

/// The stem of a file name: everything before the last dot, provided the
/// dot is not the first byte; otherwise the whole name.
pub open spec fn stem_of(n: Seq<u8>) -> Seq<u8>
    decreases n.len(),
{
    if n.len() <= 1 {
        n
    } else if n[n.len() - 1] == DOT {
        n.drop_last()
    } else {
        let shorter = stem_of(n.drop_last());
        if shorter == n.drop_last() {
            n
        } else {
            shorter
        }
    }
}

/// The part of `n` before its last dot (a leading dot does not count);
/// `n` itself when no such dot exists.
pub fn stem(n: &Vec<u8>) -> (r: Vec<u8>)
    ensures
        r@ == stem_of(n@),
{
    let mut i: usize = n.len();
    while i > 1
        invariant
            i <= n@.len(),
            forall|k: int| i <= k < n@.len() ==> n@[k] != DOT,
        decreases i,
    {
        if n[i - 1] == DOT {
            let mut r: Vec<u8> = Vec::new();
            let mut k: usize = 0;
            while k < i - 1
                invariant
                    1 <= i <= n@.len(),
                    n@[i - 1] == DOT,
                    forall|t: int| i <= t < n@.len() ==> n@[t] != DOT,
                    k <= i - 1,
                    r@ == n@.take(i - 1).take(k as int),
                decreases i - k,
            {
                r.push(n[k]);
                k += 1;
                assert(n@.take(i - 1).take(k as int) =~= n@.take(i - 1).take(k - 1).push(
                    n@[k - 1],
                ));
            }
            assert(n@.take(i - 1).take(i - 1) =~= n@.take(i - 1));
            proof {
                lemma_stem_cut(n@, i - 1);
            }
            return r;
        }
        i -= 1;
    }
    proof {
        lemma_stem_whole(n@);
    }
    let mut r: Vec<u8> = Vec::new();
    push_all(&mut r, n.as_slice());
    r
}

/// When position `d` (not the first byte) holds the last dot of `n`, the
/// stem of `n` is everything before `d`.
proof fn lemma_stem_cut(n: Seq<u8>, d: int)
    requires
        1 <= d < n.len(),
        n[d] == DOT,
        forall|t: int| d < t < n.len() ==> n[t] != DOT,
    ensures
        stem_of(n) == n.take(d),
    decreases n.len(),
{
    if d == n.len() - 1 {
        assert(n.drop_last() =~= n.take(d));
    } else {
        lemma_stem_cut(n.drop_last(), d);
        assert(n.drop_last().take(d) =~= n.take(d));
        lemma_stem_shorter(n.drop_last());
        assert(n.take(d).len() < n.drop_last().len());
    }
}

/// The stem is never longer than the name.
proof fn lemma_stem_shorter(n: Seq<u8>)
    ensures
        stem_of(n).len() <= n.len(),
    decreases n.len(),
{
    if n.len() > 1 && n[n.len() - 1] != DOT {
        lemma_stem_shorter(n.drop_last());
    }
}

/// A name with no dot past its first byte is its own stem.
proof fn lemma_stem_whole(n: Seq<u8>)
    requires
        forall|t: int| 1 <= t < n.len() ==> n[t] != DOT,
    ensures
        stem_of(n) == n,
    decreases n.len(),
{
    if n.len() > 1 {
        lemma_stem_whole(n.drop_last());
    }
}

} // verus!
