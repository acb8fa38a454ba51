//! Little-endian byte strings: the number a byte string stands for, the bytes
//! that stand for a number, and reading such a number out of a buffer.
use vstd::prelude::*;
use vstd::arithmetic::div_mod::lemma_mod_breakdown;

verus! {

/// The number that the little-endian byte string `s` stands for.
pub open spec fn le_value(s: Seq<u8>) -> nat
    decreases s.len(),
{
    if s.len() == 0 {
        0
    } else {
        s[0] as nat + 256 * le_value(s.drop_first())
    }
}

/// The `n` low bytes of `v`, least significant first.
pub open spec fn le_bytes(v: nat, n: nat) -> Seq<u8>
    decreases n,
{
    if n == 0 {
        Seq::empty()
    } else {
        seq![(v % 256) as u8] + le_bytes(v / 256, (n - 1) as nat)
    }
}

/// `256^n`.
pub open spec fn pow256(n: nat) -> nat
    decreases n,
{
    if n == 0 {
        1
    } else {
        256 * pow256((n - 1) as nat)
    }
}

/// `256^m <= 256^n` when `m <= n`.
pub proof fn lemma_pow256_monotonic(m: nat, n: nat)
    requires
        m <= n,
    ensures
        1 <= pow256(m) <= pow256(n),
    decreases n,
{
    if n > m {
        lemma_pow256_monotonic(m, (n - 1) as nat);
    } else if n > 0 {
        lemma_pow256_monotonic(0, (n - 1) as nat);
    }
}

/// A byte string of length `n` stands for a number below `256^n`.
pub proof fn lemma_le_value_bound(s: Seq<u8>)
    ensures
        le_value(s) < pow256(s.len()),
    decreases s.len(),
{
    if s.len() > 0 {
        lemma_le_value_bound(s.drop_first());
            }
}

/// `le_bytes(v, n)` has `n` bytes.
pub proof fn lemma_le_bytes_len(v: nat, n: nat)
    ensures
        le_bytes(v, n).len() == n,
    decreases n,
{
    if n > 0 {
        lemma_le_bytes_len(v / 256, (n - 1) as nat);
    }
}

/// Reading back the `n` low bytes of `v` gives `v` modulo `256^n`.
pub proof fn lemma_le_roundtrip(v: nat, n: nat)
    ensures
        le_value(le_bytes(v, n)) == v % pow256(n),
    decreases n,
{
    lemma_le_bytes_len(v, n);
    if n == 0 {
        assert(le_bytes(v, n) =~= Seq::<u8>::empty());
    } else {
        let rest = le_bytes(v / 256, (n - 1) as nat);
        lemma_le_roundtrip(v / 256, (n - 1) as nat);
        assert(le_bytes(v, n).drop_first() =~= rest);
        lemma_pow256_monotonic(0, (n - 1) as nat);
        lemma_mod_breakdown(v as int, 256, pow256((n - 1) as nat) as int);
    }
}

/// The `n + 1` low bytes of `v` are its `n` low bytes followed by byte `n`.
pub proof fn lemma_le_bytes_push(v: nat, n: nat)
    ensures
        le_bytes(v, n + 1) == le_bytes(v, n).push(((v / pow256(n)) % 256) as u8),
    decreases n,
{
    if n == 0 {
        assert(le_bytes(v / 256, 0) =~= Seq::<u8>::empty());
        assert(le_bytes(v, 1) =~= le_bytes(v, 0).push(((v / pow256(0)) % 256) as u8));
    } else {
        lemma_le_bytes_push(v / 256, (n - 1) as nat);
        lemma_pow256_monotonic(0, (n - 1) as nat);
        vstd::arithmetic::div_mod::lemma_div_denominator(v as int, 256, pow256((n - 1) as nat) as int);
        assert(le_bytes(v, n + 1) =~= le_bytes(v, n).push(((v / pow256(n)) % 256) as u8));
    }
}

/// One, two, four or eight bytes read little-endian: the first is the
/// least significant.
pub proof fn lemma_le_value_bytes(x: Seq<u8>)
    requires
        1 <= x.len() <= 8,
    ensures
        x.len() == 1 ==> le_value(x) == x[0] as int,
        x.len() == 2 ==> le_value(x) == x[0] + 256 * x[1],
        x.len() == 4 ==> le_value(x) == x[0] + 256 * (x[1] + 256 * (x[2] + 256 * x[3] as int)),
        x.len() == 8 ==> le_value(x) == x[0] + 256 * (x[1] + 256 * (x[2] + 256 * (x[3] + 256 * (x[4]
            + 256 * (x[5] + 256 * (x[6] + 256 * x[7] as int)))))),
    decreases x.len(),
{
    reveal_with_fuel(le_value, 9);
    let mut k: int = 0;
    assert(x.drop_first()[0] == x[1] || x.len() < 2);
    if x.len() >= 2 {
        let y = x.drop_first();
        assert(forall|i: int| 0 <= i < y.len() ==> y[i] == x[i + 1]);
        let z = y.drop_first();
        assert(forall|i: int| 0 <= i < z.len() ==> z[i] == x[i + 2]);
        if x.len() >= 4 {
            let w = z.drop_first();
            assert(forall|i: int| 0 <= i < w.len() ==> w[i] == x[i + 3]);
            let v = w.drop_first();
            assert(forall|i: int| 0 <= i < v.len() ==> v[i] == x[i + 4]);
            if x.len() == 8 {
                let u = v.drop_first();
                let t = u.drop_first();
                let q = t.drop_first();
                let e = q.drop_first();
                assert(u[0] == x[5] && t[0] == x[6] && q[0] == x[7] && e.len() == 0);
                assert(le_value(e) == 0);
            } else if x.len() == 4 {
                assert(v.len() == 0);
            }
        } else if x.len() == 2 {
            assert(z.len() == 0);
        }
    } else {
        assert(x.drop_first().len() == 0);
    }
}

/// The numbers `256^n` for the widths that instructions use.
pub proof fn lemma_pow256_values()
    ensures
        pow256(0) == 1,
        pow256(1) == 0x100,
        pow256(2) == 0x1_0000,
        pow256(4) == 0x1_0000_0000,
        pow256(7) == 0x100_0000_0000_0000,
        pow256(8) == 0x1_0000_0000_0000_0000,
{
    reveal_with_fuel(pow256, 9);
}

/// Reads the `n`-byte little-endian number at `off` in `buf`.
pub fn load_le(buf: &[u8], off: usize, n: usize) -> (r: u64)
    requires
        off + n <= buf@.len(),
        n <= 8,
    ensures
        r as nat == le_value(buf@.subrange(off as int, off + n)),
{
    let mut v: u64 = 0;
    let mut i: usize = n;
    proof {
        assert(buf@.subrange(off + n, off + n) =~= Seq::<u8>::empty());
    }
    while i > 0
        invariant
            i <= n <= 8,
            off + n <= buf.len(),
            v as nat == le_value(buf@.subrange(off + i, off + n)),
        decreases i,
    {
        i = i - 1;
        let ghost rest = buf@.subrange(off + i + 1, off + n);
        let ghost cur = buf@.subrange(off + i, off + n);
        proof {
            assert(cur.drop_first() =~= rest);
            lemma_le_value_bound(rest);
            lemma_pow256_values();
            lemma_pow256_monotonic(rest.len(), 7);
            assert(v < 0x100_0000_0000_0000);
        }
        let b = buf[off + i];
        v = v * 256 + b as u64;
    }
    v
}

} // verus!
