//! The contents of nested executable values, by value.

use vstd::prelude::*;

verus! {

/// The contents of byte vectors.
pub open spec fn vecs_view(s: Seq<Vec<u8>>) -> Seq<Seq<u8>> {
    Seq::new(s.len(), |i: int| s[i]@)
}

/// The contents of strings.
pub open spec fn strings_view(s: Seq<String>) -> Seq<Seq<char>> {
    Seq::new(s.len(), |i: int| s[i]@)
}

/// The contents of log entries: id, timestamp and payload.
pub open spec fn triples_view(s: Seq<(u64, u64, Vec<u8>)>) -> Seq<(u64, u64, Seq<u8>)> {
    Seq::new(s.len(), |i: int| (s[i].0, s[i].1, s[i].2@))
}

/// The contents of timestamped byte vectors.
pub open spec fn pairs_view(s: Seq<(u64, Vec<u8>)>) -> Seq<(u64, Seq<u8>)> {
    Seq::new(s.len(), |i: int| (s[i].0, s[i].1@))
}

/// A copy of byte vectors.
pub fn copy_vecs(s: &Vec<Vec<u8>>) -> (r: Vec<Vec<u8>>)
    ensures
        vecs_view(r@) == vecs_view(s@),
{
    let mut r: Vec<Vec<u8>> = Vec::new();
    let mut i: usize = 0;
    while i < s.len()
        invariant
            i <= s@.len(),
            r@.len() == i,
            forall|j: int| 0 <= j < i ==> (#[trigger] r@[j])@ == s@[j]@,
        decreases s@.len() - i,
    {
        r.push(copy_bytes(s[i].as_slice()));
        i = i + 1;
    }
    assert(vecs_view(r@) =~= vecs_view(s@));
    r
}

/// A copy of timestamped byte vectors.
pub fn copy_pairs(s: &Vec<(u64, Vec<u8>)>) -> (r: Vec<(u64, Vec<u8>)>)
    ensures
        pairs_view(r@) == pairs_view(s@),
{
    let mut r: Vec<(u64, Vec<u8>)> = Vec::new();
    let mut i: usize = 0;
    while i < s.len()
        invariant
            i <= s@.len(),
            r@.len() == i,
            forall|j: int|
                0 <= j < i ==> (#[trigger] r@[j]).0 == s@[j].0 && r@[j].1@ == s@[j].1@,
        decreases s@.len() - i,
    {
        r.push((s[i].0, copy_bytes(s[i].1.as_slice())));
        i = i + 1;
    }
    assert(pairs_view(r@) =~= pairs_view(s@));
    r
}

/// A copy of a byte slice.
pub fn copy_bytes(s: &[u8]) -> (r: Vec<u8>)
    ensures
        r@ == s@,
{
    vstd::slice::slice_to_vec(s)
}

/// A copy of a text.
pub fn copy_str(s: &str) -> (r: String)
    ensures
        r@ == s@,
{
    s.to_owned()
}

/// Appends the bytes of a slice.
pub fn push_bytes(buf: &mut Vec<u8>, s: &[u8])
    ensures
        final(buf)@ == old(buf)@ + s@,
{
    buf.extend_from_slice(s);
    assert(buf@ =~= old(buf)@ + s@);
}

/// Writes bytes over those at `pos`.
pub fn overwrite_bytes(buf: &mut Vec<u8>, pos: usize, s: &[u8])
    requires
        pos + s@.len() <= old(buf).len(),
    ensures
        final(buf)@ == old(buf)@.subrange(0, pos as int) + s@ + old(buf)@.subrange(
            pos + s@.len(),
            old(buf)@.len() as int,
        ),
{
    let mut i: usize = 0;
    while i < s.len()
        invariant
            i <= s.len(),
            pos + s@.len() <= buf.len(),
            buf@.len() == old(buf)@.len(),
            forall|j: int| 0 <= j < pos ==> buf@[j] == old(buf)@[j],
            forall|j: int| pos + i <= j < buf@.len() ==> buf@[j] == old(buf)@[j],
            forall|j: int| 0 <= j < i ==> buf@[pos + j] == s@[j],
        decreases s.len() - i,
    {
        buf[pos + i] = s[i];
        i = i + 1;
    }
    assert(buf@ =~= old(buf)@.subrange(0, pos as int) + s@ + old(buf)@.subrange(
        pos + s@.len(),
        old(buf)@.len() as int,
    ));
}

/// `n` bytes of zero.
pub open spec fn zeros(n: nat) -> Seq<u8> {
    Seq::new(n, |i: int| 0u8)
}

/// A vector of `n` bytes of zero.
pub fn zeroed_bytes(n: usize) -> (r: Vec<u8>)
    ensures
        r@ == zeros(n as nat),
{
    let r: Vec<u8> = vec![0u8; n];
    assert(r@ =~= zeros(n as nat));
    r
}

} // verus!
