//! Little-endian integers of a given width, as bytes.

use vstd::prelude::*;

verus! {

/// The `n` low bytes of `x`, least significant byte first.
pub open spec fn le_bytes(x: nat, n: nat) -> Seq<u8>
    decreases n,
{
    if n == 0 {
        Seq::empty()
    } else {
        seq![(x % 256) as u8] + le_bytes(x / 256, (n - 1) as nat)
    }
}

/// The number whose bytes are `s`, least significant byte first.
pub open spec fn le_value(s: Seq<u8>) -> nat
    decreases s.len(),
{
    if s.len() == 0 {
        0
    } else {
        s[0] as nat + 256 * le_value(s.drop_first())
    }
}

/// One more than the largest number that fits in `n` bytes.
pub open spec fn le_limit(n: nat) -> nat
    decreases n,
{
    if n == 0 {
        1
    } else {
        256 * le_limit((n - 1) as nat)
    }
}

/// The limits of the widths in use.
pub proof fn lemma_le_limits()
    ensures
        le_limit(1) == 0x100,
        le_limit(2) == 0x1_0000,
        le_limit(4) == 0x1_0000_0000,
        le_limit(8) == 0x1_0000_0000_0000_0000,
{
    reveal_with_fuel(le_limit, 9);
}

pub proof fn lemma_le_limit_monotone(a: nat, b: nat)
    requires
        a <= b,
    ensures
        1 <= le_limit(a) <= le_limit(b),
    decreases b,
{
    if a == b {
        if a > 0 {
            lemma_le_limit_monotone((a - 1) as nat, (b - 1) as nat);
        }
    } else {
        lemma_le_limit_monotone(a, (b - 1) as nat);
    }
}

/// `le_bytes` gives as many bytes as it is asked for.
pub broadcast proof fn lemma_le_bytes_len(x: nat, n: nat)
    ensures
        #[trigger] le_bytes(x, n).len() == n,
    decreases n,
{
    if n > 0 {
        lemma_le_bytes_len(x / 256, (n - 1) as nat);
    }
}

/// The value of `n` bytes fits in `n` bytes.
pub proof fn lemma_le_value_bound(s: Seq<u8>)
    ensures
        le_value(s) < le_limit(s.len()),
    decreases s.len(),
{
    if s.len() > 0 {
        lemma_le_value_bound(s.drop_first());
    }
}

/// Reading back the bytes of a number gives the number, where it fits.
pub proof fn lemma_le_round_trip(x: nat, n: nat)
    requires
        x < le_limit(n),
    ensures
        le_value(le_bytes(x, n)) == x,
    decreases n,
{
    if n > 0 {
        let rest = le_bytes(x / 256, (n - 1) as nat);
        assert(le_bytes(x, n).drop_first() =~= rest);
        lemma_le_round_trip(x / 256, (n - 1) as nat);
    }
}

/// Writing the value of some bytes gives the bytes.
pub proof fn lemma_le_bytes_of_value(s: Seq<u8>)
    ensures
        le_bytes(le_value(s), s.len()) == s,
    decreases s.len(),
{
    if s.len() > 0 {
        let v = le_value(s.drop_first());
        lemma_le_bytes_of_value(s.drop_first());
        assert((s[0] as nat + 256 * v) / 256 == v);
        assert((s[0] as nat + 256 * v) % 256 == s[0] as nat);
        assert(seq![s[0]] + s.drop_first() =~= s);
    }
}

/// Bytes of zero have the value zero.
pub proof fn lemma_le_value_zero(s: Seq<u8>)
    requires
        forall|i: int| 0 <= i < s.len() ==> s[i] == 0,
    ensures
        le_value(s) == 0,
    decreases s.len(),
{
    if s.len() > 0 {
        lemma_le_value_zero(s.drop_first());
    }
}

/// Appends the `n` low bytes of `v`.
pub fn push_le(buf: &mut Vec<u8>, v: u64, n: usize)
    ensures
        final(buf)@ == old(buf)@ + le_bytes(v as nat, n as nat),
{
    let mut rest: u64 = v;
    let mut left: usize = n;
    while left > 0
        invariant
            left <= n,
            buf@ + le_bytes(rest as nat, left as nat) == old(buf)@ + le_bytes(v as nat, n as nat),
        decreases left,
    {
        proof {
            let tail = le_bytes((rest / 256) as nat, (left - 1) as nat);
            assert(buf@ + (seq![(rest % 256) as u8] + tail) =~= buf@.push((rest % 256) as u8)
                + tail);
        }
        buf.push((rest % 256) as u8);
        rest = rest / 256;
        left = left - 1;
    }
    assert(buf@ + le_bytes(rest as nat, 0) =~= buf@);
}

/// Writes the `n` low bytes of `v` over the bytes at `pos`.
pub fn set_le(buf: &mut Vec<u8>, pos: usize, v: u64, n: usize)
    requires
        pos + n <= old(buf).len(),
    ensures
        final(buf)@ == old(buf)@.subrange(0, pos as int) + le_bytes(v as nat, n as nat)
            + old(buf)@.subrange(pos + n, old(buf)@.len() as int),
{
    let mut rest: u64 = v;
    let mut i: usize = 0;
    let ghost want = le_bytes(v as nat, n as nat);
    broadcast use lemma_le_bytes_len;
    while i < n
        invariant
            i <= n,
            pos + n <= buf.len(),
            buf@.len() == old(buf)@.len(),
            want.len() == n,
            want == le_bytes(v as nat, n as nat),
            forall|j: int| 0 <= j < pos ==> buf@[j] == old(buf)@[j],
            forall|j: int| pos + i <= j < buf@.len() ==> buf@[j] == old(buf)@[j],
            forall|j: int| 0 <= j < i ==> buf@[pos + j] == want[j],
            want.subrange(i as int, n as int) == le_bytes(rest as nat, (n - i) as nat),
        decreases n - i,
    {
        proof {
            let cur = le_bytes(rest as nat, (n - i) as nat);
            assert(cur[0] == want[i as int]);
            assert(cur.subrange(1, cur.len() as int) =~= le_bytes(
                (rest / 256) as nat,
                (n - i - 1) as nat,
            ));
            assert(want.subrange(i + 1, n as int) =~= cur.subrange(1, cur.len() as int));
        }
        buf[pos + i] = (rest % 256) as u8;
        rest = rest / 256;
        i = i + 1;
    }
    assert(buf@ =~= old(buf)@.subrange(0, pos as int) + want + old(buf)@.subrange(
        pos + n,
        old(buf)@.len() as int,
    ));
}

/// Reads the number in the `n` bytes at `pos`.
pub fn read_le(buf: &[u8], pos: usize, n: usize) -> (r: u64)
    requires
        n <= 8,
        pos + n <= buf.len(),
    ensures
        r == le_value(buf@.subrange(pos as int, pos + n)),
{
    let mut r: u64 = 0;
    let mut i: usize = n;
    assert(buf@.subrange(pos + n, pos + n) =~= Seq::empty());
    while i > 0
        invariant
            i <= n <= 8,
            pos + n <= buf.len(),
            r == le_value(buf@.subrange(pos + i, pos + n)),
        decreases i,
    {
        proof {
            let shorter = buf@.subrange(pos + i, pos + n);
            let longer = buf@.subrange(pos + i - 1, pos + n);
            assert(longer.drop_first() =~= shorter);
            lemma_le_value_bound(longer);
            lemma_le_limit_monotone(longer.len(), 8);
            lemma_le_limits();
            assert(longer[0] == buf@[pos + i - 1]);
        }
        i = i - 1;
        r = r * 256 + buf[pos + i] as u64;
    }
    r
}

/// A number that is written behind other bytes, in as many bytes as it needs, is the number that is read
/// there.
pub proof fn law_number_is_read_back(
    buf: &mut Vec<u8>,
    v: u64,
    n: usize,
    bytes: &[u8],
    pos: usize,
    r: u64,
)
    requires
        call_ensures(push_le, (buf, v, n), ()),
        call_ensures(read_le, (bytes, pos, n), r),
        bytes@ == final(buf)@,
        pos == old(buf)@.len(),
        n == 8 || n == 4 && v < 0x1_0000_0000 || n == 2 && v < 0x1_0000,
    ensures
        r == v,
        final(buf)@.len() == old(buf)@.len() + n,
        final(buf)@.take(pos as int) == old(buf)@,
{
    broadcast use lemma_le_bytes_len;

    lemma_le_limits();
    lemma_le_round_trip(v as nat, n as nat);
    assert(bytes@.subrange(pos as int, pos + n) =~= le_bytes(v as nat, n as nat));
    assert(final(buf)@.take(pos as int) =~= old(buf)@);
}

/// The bytes of a number stand with the least significant first, each the next eight bits.
pub proof fn law_least_significant_first(x: nat, n: nat)
    requires
        n > 0,
    ensures
        le_bytes(x, n).len() == n,
        le_bytes(x, n)[0] == x % 256,
        le_bytes(x, n).drop_first() == le_bytes(x / 256, (n - 1) as nat),
{
    broadcast use lemma_le_bytes_len;

    assert(le_bytes(x, n).drop_first() =~= le_bytes(x / 256, (n - 1) as nat));
}

/// A number is written with its lowest byte first, behind what was written before.
pub proof fn law_number_is_written(buf: &mut Vec<u8>, v: u64, n: usize)
    requires
        call_ensures(push_le, (buf, v, n), ()),
        n >= 2,
    ensures
        final(buf)@.len() == old(buf)@.len() + n,
        final(buf)@[old(buf)@.len() as int] == v % 256,
        final(buf)@[old(buf)@.len() as int + 1] == v / 256 % 256,
{
    broadcast use lemma_le_bytes_len;

    law_least_significant_first(v as nat, n as nat);
    law_least_significant_first(v as nat / 256, (n - 1) as nat);
    let bytes = le_bytes(v as nat, n as nat);
    assert(bytes.drop_first()[0] == bytes[1]);
}

} // verus!
