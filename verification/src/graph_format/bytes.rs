//! Little-endian integers in byte strings, and what it means for a byte
//! string to hold an encoding at a given position.
use vstd::prelude::*;

verus! {

/// `256` to the power `n`.
pub open spec fn pow256(n: nat) -> nat
    decreases n,
{
    if n == 0 {
        1
    } else {
        256 * pow256((n - 1) as nat)
    }
}

/// The `n` low bytes of `v`, least significant first.
pub open spec fn le_bytes(v: nat, n: nat) -> Seq<u8>
    decreases n,
{
    if n == 0 {
        Seq::empty()
    } else {
        seq![(v % 256) as u8] + le_bytes(v / 256, (n - 1) as nat)
    }
}

/// The number whose bytes, least significant first, are `s`.
pub open spec fn le_value(s: Seq<u8>) -> nat
    decreases s.len(),
{
    if s.len() == 0 {
        0
    } else {
        s[0] as nat + 256 * le_value(s.drop_first())
    }
}

/// `b` holds `s` from position `p` on.
pub open spec fn holds_at(b: Seq<u8>, p: int, s: Seq<u8>) -> bool {
    &&& 0 <= p
    &&& p + s.len() <= b.len()
    &&& b.subrange(p, p + s.len()) == s
}

pub proof fn lemma_pow256_pos(n: nat)
    ensures
        pow256(n) >= 1,
    decreases n,
{
    if n > 0 {
        lemma_pow256_pos((n - 1) as nat);
    }
}

pub proof fn lemma_pow256_values()
    ensures
        pow256(2) == 0x1_0000,
        pow256(4) == 0x1_0000_0000,
        pow256(8) == 0x1_0000_0000_0000_0000,
{
    reveal_with_fuel(pow256, 9);
}

/// The bytes of a number give the number back.
pub proof fn lemma_le_bytes(v: nat, n: nat)
    requires
        v < pow256(n),
    ensures
        le_bytes(v, n).len() == n,
        le_value(le_bytes(v, n)) == v,
    decreases n,
{
    if n > 0 {
        lemma_le_bytes(v / 256, (n - 1) as nat);
        let s = le_bytes(v, n);
        assert(s.drop_first() =~= le_bytes(v / 256, (n - 1) as nat));
    }
}

/// The number of some bytes gives the bytes back.
pub proof fn lemma_le_value(s: Seq<u8>)
    ensures
        le_value(s) < pow256(s.len()),
        le_bytes(le_value(s), s.len()) == s,
    decreases s.len(),
{
    if s.len() > 0 {
        lemma_le_value(s.drop_first());
        let v = le_value(s);
        assert(v % 256 == s[0] as nat);
        assert(v / 256 == le_value(s.drop_first()));
        assert(le_bytes(v, s.len()) =~= s);
    }
}

/// Two numbers held at the same place are equal.
pub proof fn lemma_le_unique(b: Seq<u8>, p: int, v: nat, w: nat, n: nat)
    requires
        v < pow256(n),
        w < pow256(n),
        holds_at(b, p, le_bytes(v, n)),
        holds_at(b, p, le_bytes(w, n)),
    ensures
        v == w,
{
    lemma_le_bytes(v, n);
    lemma_le_bytes(w, n);
}

/// A concatenation is held where its two parts are held one after the other.
pub proof fn lemma_holds_concat(b: Seq<u8>, p: int, x: Seq<u8>, y: Seq<u8>)
    ensures
        holds_at(b, p, x + y) <==> (holds_at(b, p, x) && holds_at(b, p + x.len(), y)),
{
    if holds_at(b, p, x + y) {
        assert(b.subrange(p, p + x.len()) =~= (x + y).subrange(0, x.len() as int));
        assert((x + y).subrange(0, x.len() as int) =~= x);
        assert(b.subrange(p + x.len(), p + x.len() + y.len()) =~= (x + y).subrange(x.len() as int, (x + y).len() as int));
        assert((x + y).subrange(x.len() as int, (x + y).len() as int) =~= y);
    }
    if holds_at(b, p, x) && holds_at(b, p + x.len(), y) {
        assert(b.subrange(p, p + (x + y).len()) =~= x + y) by {
            assert forall|i: int| 0 <= i < (x + y).len() implies b.subrange(p, p + (x + y).len())[i] == (x + y)[i] by {
                if i < x.len() {
                    assert(b.subrange(p, p + x.len())[i] == x[i]);
                } else {
                    assert(b.subrange(p + x.len(), p + x.len() + y.len())[i - x.len()] == y[i - x.len()]);
                }
            }
        }
    }
}

/// Reads the `n`-byte little-endian number at position `p`.
pub fn read_le(b: &[u8], p: usize, n: usize) -> (r: u64)
    requires
        n <= 8,
        p + n <= b@.len(),
    ensures
        r == le_value(b@.subrange(p as int, p + n)),
        r < pow256(n as nat),
        holds_at(b@, p as int, le_bytes(r as nat, n as nat)),
{
    proof {
        lemma_pow256_values();
    }
    let len = b.len();
    let mut acc: u64 = 0;
    let mut j: usize = n;
    proof {
        assert(b@.subrange(p + j, p + n) =~= Seq::<u8>::empty());
    }
    while j > 0
        invariant
            j <= n <= 8,
            p + n <= b@.len(),
            len == b@.len(),
            pow256(8) == 0x1_0000_0000_0000_0000,
            acc == le_value(b@.subrange(p + j, p + n)),
            acc < pow256((n - j) as nat),
            pow256((n - j) as nat) <= pow256(8),
        decreases j,
    {
        proof {
            lemma_pow256_mono((n - j + 1) as nat, 8);
        }
        let x = b[p + (j - 1)];
        assert(acc * 256 + x < pow256((n - j + 1) as nat)) by {
            assert(pow256((n - j + 1) as nat) == 256 * pow256((n - j) as nat));
        }
        acc = acc * 256 + x as u64;
        proof {
            let t = b@.subrange(p + j - 1, p + n);
            assert(t.drop_first() =~= b@.subrange(p + j, p + n));
        }
        j -= 1;
    }
    proof {
        lemma_le_value(b@.subrange(p as int, p + n));
    }
    acc
}

pub proof fn lemma_pow256_mono(m: nat, n: nat)
    requires
        m <= n,
    ensures
        pow256(m) <= pow256(n),
    decreases n,
{
    if m < n {
        lemma_pow256_mono(m, (n - 1) as nat);
        lemma_pow256_pos((n - 1) as nat);
    }
}

/// Appends `count` bytes of `src`, from position `from` on.
pub fn push_bytes(out: &mut Vec<u8>, src: &[u8], from: usize, count: usize)
    requires
        from + count <= src@.len(),
    ensures
        final(out)@ == old(out)@ + src@.subrange(from as int, from + count),
{
    let len = src.len();
    let mut i: usize = 0;
    while i < count
        invariant
            i <= count,
            len == src@.len(),
            from + count <= src@.len(),
            out@ == old(out)@ + src@.subrange(from as int, from + i),
        decreases count - i,
    {
        out.push(src[from + i]);
        i += 1;
        proof {
            assert(out@ =~= old(out)@ + src@.subrange(from as int, from + i));
        }
    }
}

/// Appends the `n` low bytes of `v`, least significant first.
pub fn push_le(out: &mut Vec<u8>, v: u64, n: usize)
    ensures
        final(out)@ == old(out)@ + le_bytes(v as nat, n as nat),
{
    let mut x: u64 = v;
    let mut i: usize = 0;
    proof {
        assert(old(out)@ + le_bytes(v as nat, n as nat) =~= out@ + le_bytes(x as nat, (n - i) as nat));
    }
    while i < n
        invariant
            i <= n,
            out@ + le_bytes(x as nat, (n - i) as nat) == old(out)@ + le_bytes(v as nat, n as nat),
        decreases n - i,
    {
        let ghost rest = le_bytes(x as nat, (n - i) as nat);
        let ghost prev = out@;
        out.push((x % 256) as u8);
        proof {
            let tail = le_bytes((x / 256) as nat, (n - i - 1) as nat);
            assert(rest == seq![(x % 256) as u8] + tail);
            assert(out@ + tail =~= prev + rest);
        }
        x = x / 256;
        i += 1;
    }
    proof {
        assert(out@ + le_bytes(x as nat, 0) =~= out@);
    }
}

} // verus!
