//! Little-endian integers on the wire.

use vstd::prelude::*;

verus! {

/// `256` raised to `e`.
pub open spec fn pow256(e: nat) -> nat
    decreases e,
{
    if e == 0 {
        1
    } else {
        256 * pow256((e - 1) as nat)
    }
}

/// The unsigned integer that the bytes `s` encode, least significant first.
pub open spec fn le_value(s: Seq<u8>) -> nat
    decreases s.len(),
{
    if s.len() == 0 {
        0
    } else {
        s[0] as nat + 256 * le_value(s.drop_first())
    }
}

/// The `n` low bytes of `v`, least significant first.
pub open spec fn le_encode(v: nat, n: nat) -> Seq<u8>
    decreases n,
{
    if n == 0 {
        Seq::empty()
    } else {
        seq![(v % 256) as u8] + le_encode(v / 256, (n - 1) as nat)
    }
}

pub proof fn lemma_le_encode_len(v: nat, n: nat)
    ensures
        le_encode(v, n).len() == n,
    decreases n,
{
    if n > 0 {
        lemma_le_encode_len(v / 256, (n - 1) as nat);
    }
}

/// Decoding the encoding of a value that fits gives the value back.
pub proof fn lemma_le_round_trip(v: nat, n: nat)
    requires
        v < pow256(n),
    ensures
        le_value(le_encode(v, n)) == v,
        le_encode(v, n).len() == n,
    decreases n,
{
    lemma_le_encode_len(v, n);
    if n > 0 {
        let e = le_encode(v, n);
        let p = pow256((n - 1) as nat);
        assert(v / 256 < p) by (nonlinear_arith)
            requires
                v < 256 * p,
        ;
        lemma_le_round_trip(v / 256, (n - 1) as nat);
        assert(e.drop_first() =~= le_encode(v / 256, (n - 1) as nat));
        assert(v == v % 256 + 256 * (v / 256)) by (nonlinear_arith);
    }
}

/// A value read from `n` bytes is below `256^n`.
pub proof fn lemma_le_value_bound(s: Seq<u8>)
    ensures
        le_value(s) < pow256(s.len()),
    decreases s.len(),
{
    if s.len() > 0 {
        lemma_le_value_bound(s.drop_first());
        let r = le_value(s.drop_first());
        let p = pow256(s.drop_first().len());
        assert(s[0] as nat + 256 * r < 256 * p) by (nonlinear_arith)
            requires
                r < p,
                s[0] < 256,
        ;
    }
}

pub proof fn lemma_pow256_facts()
    ensures
        pow256(1) == 0x100,
        pow256(2) == 0x1_0000,
        pow256(4) == 0x1_0000_0000,
        pow256(8) == 0x1_0000_0000_0000_0000,
{
    reveal_with_fuel(pow256, 9);
}

/// Reads the `n`-byte little-endian integer at `start`.
pub fn read_le(data: &[u8], start: usize, n: usize) -> (r: u64)
    requires
        n <= 8,
        start + n <= data@.len(),
    ensures
        r as nat == le_value(data@.subrange(start as int, start + n)),
{
    let ghost s = data@.subrange(start as int, start + n);
    proof {
        lemma_pow256_facts();
        lemma_pow256_mono(n as nat, 8);
    }
    let dlen = data.len();
    let mut v: u64 = 0;
    let mut k: usize = n;
    assert(s.subrange(n as int, n as int) =~= Seq::<u8>::empty());
    while k > 0
        invariant
            k <= n <= 8,
            start + n <= data@.len(),
            dlen == data@.len(),
            s == data@.subrange(start as int, start + n),
            v as nat == le_value(s.subrange(k as int, n as int)),
            v < pow256((n - k) as nat),
            pow256(n as nat) <= 0x1_0000_0000_0000_0000,
        decreases k,
    {
        k = k - 1;
        let b = data[start + k];
        let ghost p = pow256((n - k - 1) as nat);
        assert(s.subrange(k as int, n as int).drop_first() =~= s.subrange(k + 1, n as int));
        assert(s[k as int] == b);
        assert(pow256((n - k) as nat) == 256 * p);
        proof {
            lemma_pow256_mono((n - k) as nat, n as nat);
        }
        assert((v as nat) * 256 + (b as nat) < 256 * p) by (nonlinear_arith)
            requires
                v < p,
                b < 256,
        ;
        v = v * 256 + b as u64;
    }
    assert(s.subrange(0, n as int) =~= s);
    v
}

pub proof fn lemma_pow256_mono(a: nat, b: nat)
    requires
        a <= b,
    ensures
        pow256(a) <= pow256(b),
    decreases b,
{
    if a < b {
        lemma_pow256_mono(a, (b - 1) as nat);
    }
}

/// Appends the `n`-byte little-endian encoding of `v` to `out`.
pub fn write_le(out: &mut Vec<u8>, v: u64, n: usize)
    requires
        n <= 8,
    ensures
        final(out)@ == old(out)@ + le_encode(v as nat, n as nat),
{
    let mut cur: u64 = v;
    let mut i: usize = 0;
    while i < n
        invariant
            i <= n,
            out@ + le_encode(cur as nat, (n - i) as nat) == old(out)@ + le_encode(v as nat, n as nat),
        decreases n - i,
    {
        let ghost before = out@;
        let b = (cur % 256) as u8;
        out.push(b);
        assert(le_encode(cur as nat, (n - i) as nat) =~= seq![b] + le_encode(
            (cur / 256) as nat,
            (n - i - 1) as nat,
        ));
        assert(out@ + le_encode((cur / 256) as nat, (n - i - 1) as nat) =~= before + le_encode(
            cur as nat,
            (n - i) as nat,
        ));
        cur = cur / 256;
        i = i + 1;
    }
    assert(le_encode(cur as nat, 0) =~= Seq::<u8>::empty());
    assert(out@ =~= out@ + le_encode(cur as nat, 0));
}

/// Overwrites the `n` bytes of `buf` at `at` with the little-endian encoding
/// of `v`.
pub fn store_le(buf: &mut Vec<u8>, at: usize, v: u64, n: usize)
    requires
        n <= 8,
        at + n <= old(buf)@.len(),
    ensures
        final(buf)@.len() == old(buf)@.len(),
        final(buf)@ == old(buf)@.subrange(0, at as int) + le_encode(v as nat, n as nat) + old(
            buf,
        )@.subrange(at + n, old(buf)@.len() as int),
{
    let ghost e = le_encode(v as nat, n as nat);
    let ghost len: int = old(buf)@.len() as int;
    proof {
        lemma_le_encode_len(v as nat, n as nat);
    }
    let blen = buf.len();
    let mut cur: u64 = v;
    let mut i: usize = 0;
    assert(e.subrange(0, n as int) =~= e);
    while i < n
        invariant
            i <= n <= 8,
            len == old(buf)@.len(),
            at + n <= len,
            blen == len,
            e.len() == n,
            buf@.len() == len,
            buf@ == old(buf)@.subrange(0, at as int) + e.subrange(0, i as int) + old(buf)@.subrange(
                at + i,
                len as int,
            ),
            le_encode(cur as nat, (n - i) as nat) == e.subrange(i as int, n as int),
        decreases n - i,
    {
        let b = (cur % 256) as u8;
        assert(le_encode(cur as nat, (n - i) as nat) =~= seq![b] + le_encode(
            (cur / 256) as nat,
            (n - i - 1) as nat,
        ));
        assert(e[i as int] == e.subrange(i as int, n as int)[0]);
        assert(e.subrange(i + 1, n as int) =~= e.subrange(i as int, n as int).drop_first());
        assert(e[i as int] == b);
        buf[at + i] = b;
        assert(buf@ =~= old(buf)@.subrange(0, at as int) + e.subrange(0, i + 1) + old(
            buf,
        )@.subrange(at + i + 1, len));
        cur = cur / 256;
        i = i + 1;
    }
}

} // verus!
