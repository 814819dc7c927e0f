//! Little-endian numbers.

use vstd::prelude::*;

verus! {

/// The `n` low bytes of `x`, least significant first.
pub open spec fn le(x: nat, n: nat) -> Seq<u8>
    decreases n,
{
    if n == 0 {
        Seq::empty()
    } else {
        seq![(x % 256) as u8] + le(x / 256, (n - 1) as nat)
    }
}

/// The number whose bytes, least significant first, are `s`.
pub open spec fn le_value(s: Seq<u8>) -> nat
    decreases s.len(),
{
    if s.len() == 0 {
        0
    } else {
        s[0] as nat + 256 * le_value(s.drop_first())
    }
}

/// How many numbers fit in `n` bytes.
pub open spec fn le_span(n: nat) -> nat
    decreases n,
{
    if n == 0 {
        1
    } else {
        256 * le_span((n - 1) as nat)
    }
}

/// `n` bytes hold numbers below `le_span(n)`.
pub proof fn lemma_le_value_bound(s: Seq<u8>)
    ensures
        le_value(s) < le_span(s.len()),
    decreases s.len(),
{
    if s.len() > 0 {
        lemma_le_value_bound(s.drop_first());
    }
}

/// Eight bytes span the unsigned 64-bit numbers, four the 32-bit ones.
pub proof fn lemma_le_spans()
    ensures
        le_span(4) == 0x1_0000_0000,
        le_span(8) == 0x1_0000_0000_0000_0000,
{
    reveal_with_fuel(le_span, 9);
}

/// A number that fits in `n` bytes reads back from them.
pub proof fn lemma_le_reads_back(x: nat, n: nat)
    requires
        x < le_span(n),
    ensures
        le(x, n).len() == n,
        le_value(le(x, n)) == x,
    decreases n,
{
    if n > 0 {
        lemma_le_reads_back(x / 256, (n - 1) as nat);
        assert(le(x, n).drop_first() =~= le(x / 256, (n - 1) as nat));
        assert(le(x, n)[0] == (x % 256) as u8);
    }
}

/// The length of `n` bytes is `n`.
pub proof fn lemma_le_len(x: nat, n: nat)
    ensures
        le(x, n).len() == n,
    decreases n,
{
    if n > 0 {
        lemma_le_len(x / 256, (n - 1) as nat);
    }
}

/// The `n` low bytes of `x`.
fn low_bytes(x: u64, n: u64) -> (r: Vec<u8>)
    requires
        n <= 8,
    ensures
        r@ == le(x as nat, n as nat),
{
    let mut out: Vec<u8> = Vec::new();
    let mut rest: u64 = x;
    let mut i: u64 = 0;
    assert(Seq::<u8>::empty() + le(x as nat, n as nat) =~= le(x as nat, n as nat));
    while i < n
        invariant
            i <= n,
            out@ + le(rest as nat, (n - i) as nat) == le(x as nat, n as nat),
        decreases n - i,
    {
        let ghost before = out@;
        let ghost tail = le((rest / 256) as nat, (n - i - 1) as nat);
        out.push((rest % 256) as u8);
        assert(out@ + tail =~= before + (seq![(rest % 256) as u8] + tail));
        rest = rest / 256;
        i = i + 1;
    }
    assert(out@ + Seq::<u8>::empty() =~= out@);
    out
}

/// The eight bytes of `x`.
pub fn u64_le(x: u64) -> (r: Vec<u8>)
    ensures
        r@ == le(x as nat, 8),
        r@.len() == 8,
        le_value(r@) == x,
{
    proof {
        lemma_le_spans();
        lemma_le_reads_back(x as nat, 8);
    }
    low_bytes(x, 8)
}

/// The four bytes of `x`.
pub fn u32_le(x: u32) -> (r: Vec<u8>)
    ensures
        r@ == le(x as nat, 4),
        r@.len() == 4,
        le_value(r@) == x,
{
    proof {
        lemma_le_spans();
        lemma_le_reads_back(x as nat, 4);
    }
    low_bytes(x as u64, 4)
}

/// The number in the `n` bytes of `v` from `from` on.
fn number_at(v: &Vec<u8>, from: usize, n: usize) -> (x: u64)
    requires
        n <= 8,
        from + n <= v.len(),
    ensures
        x == le_value(v@.subrange(from as int, from + n)),
    decreases n,
{
    let ghost s = v@.subrange(from as int, from + n);
    if n == 0 {
        0
    } else {
        let rest = number_at(v, from + 1, n - 1);
        proof {
            assert(s.drop_first() =~= v@.subrange(from + 1, from + n));
            lemma_le_value_bound(s);
            lemma_le_spans();
            lemma_span_grows(n as nat, 8);
        }
        v[from] as u64 + 256 * rest
    }
}

/// More bytes hold more numbers.
proof fn lemma_span_grows(m: nat, n: nat)
    requires
        m <= n,
    ensures
        le_span(m) <= le_span(n),
    decreases n,
{
    if m < n {
        lemma_span_grows(m, (n - 1) as nat);
    }
}

/// Reads eight bytes.
pub fn le_u64(v: &Vec<u8>) -> (x: u64)
    requires
        v.len() == 8,
    ensures
        x == le_value(v@),
{
    assert(v@.subrange(0, 8) =~= v@);
    number_at(v, 0, 8)
}

/// Reads the eight bytes from `from` on.
pub fn le_u64_at(v: &Vec<u8>, from: usize) -> (x: u64)
    requires
        from + 8 <= v.len(),
    ensures
        x == le_value(v@.subrange(from as int, from + 8)),
{
    number_at(v, from, 8)
}

/// Reads the four bytes from `from` on.
pub fn le_u32_at(v: &Vec<u8>, from: usize) -> (x: u32)
    requires
        from + 4 <= v.len(),
    ensures
        x == le_value(v@.subrange(from as int, from + 4)),
{
    proof {
        lemma_le_value_bound(v@.subrange(from as int, from + 4));
        lemma_le_spans();
    }
    number_at(v, from, 4) as u32
}

} // verus!
