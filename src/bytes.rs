//! Unsigned integers stored in little- or big-endian byte order.
use vstd::prelude::*;

verus! {

/// The order in which the bytes of a multi-byte field are stored.
#[derive(Clone, Copy, Debug, PartialEq, Eq, Structural)]
pub enum ByteOrder {
    /// "II": least significant byte first.
    LittleEndian,
    /// "MM": most significant byte first.
    BigEndian,
}

pub open spec fn pow256(n: nat) -> nat
    decreases n,
{
    if n == 0 {
        1
    } else {
        256 * pow256((n - 1) as nat)
    }
}

/// The value of bytes read least significant first.
pub open spec fn le_value(s: Seq<u8>) -> nat
    decreases s.len(),
{
    if s.len() == 0 {
        0
    } else {
        s[0] as nat + 256 * le_value(s.drop_first())
    }
}

/// The value of bytes read most significant first.
pub open spec fn be_value(s: Seq<u8>) -> nat
    decreases s.len(),
{
    if s.len() == 0 {
        0
    } else {
        s.last() as nat + 256 * be_value(s.drop_last())
    }
}

pub open spec fn value_of(s: Seq<u8>, order: ByteOrder) -> nat {
    match order {
        ByteOrder::LittleEndian => le_value(s),
        ByteOrder::BigEndian => be_value(s),
    }
}

/// The `n` low bytes of `v`, least significant first.
pub open spec fn le_bytes(v: nat, n: nat) -> Seq<u8>
    decreases n,
{
    if n == 0 {
        Seq::empty()
    } else {
        seq![(v % 256) as u8] + le_bytes(v / 256, (n - 1) as nat)
    }
}

/// The `n` low bytes of `v`, most significant first.
pub open spec fn be_bytes(v: nat, n: nat) -> Seq<u8>
    decreases n,
{
    if n == 0 {
        Seq::empty()
    } else {
        be_bytes(v / 256, (n - 1) as nat).push((v % 256) as u8)
    }
}

pub open spec fn bytes_of(v: nat, n: nat, order: ByteOrder) -> Seq<u8> {
    match order {
        ByteOrder::LittleEndian => le_bytes(v, n),
        ByteOrder::BigEndian => be_bytes(v, n),
    }
}

/// The unsigned integer of `n` bytes stored at `pos`.
pub open spec fn uint_at(data: Seq<u8>, pos: int, n: nat, order: ByteOrder) -> nat {
    value_of(data.subrange(pos, pos + n), order)
}

/// `data` with the bytes from `pos` on replaced by `t`.
pub open spec fn splice(data: Seq<u8>, pos: int, t: Seq<u8>) -> Seq<u8> {
    data.subrange(0, pos) + t + data.subrange(pos + t.len(), data.len() as int)
}

/// `t` stands at `pos` in `data`.
pub open spec fn holds_at(data: Seq<u8>, pos: int, t: Seq<u8>) -> bool {
    0 <= pos && pos + t.len() <= data.len() && data.subrange(pos, pos + t.len()) == t
}

pub proof fn lemma_pow256_values()
    ensures
        pow256(0) == 1,
        pow256(1) == 256,
        pow256(2) == 0x1_0000,
        pow256(4) == 0x1_0000_0000,
        pow256(7) == 0x100_0000_0000_0000,
        pow256(8) == 0x1_0000_0000_0000_0000,
{
    reveal_with_fuel(pow256, 9);
}

pub proof fn lemma_pow256_monotone(a: nat, b: nat)
    requires
        a <= b,
    ensures
        pow256(a) <= pow256(b),
    decreases b,
{
    if a < b {
        lemma_pow256_monotone(a, (b - 1) as nat);
    }
}

pub proof fn lemma_bytes_len(v: nat, n: nat, order: ByteOrder)
    ensures
        bytes_of(v, n, order).len() == n,
    decreases n,
{
    if n > 0 {
        lemma_bytes_len(v / 256, (n - 1) as nat, order);
    }
}

pub proof fn lemma_value_bound(s: Seq<u8>, order: ByteOrder)
    ensures
        value_of(s, order) < pow256(s.len()),
    decreases s.len(),
{
    if s.len() > 0 {
        match order {
            ByteOrder::LittleEndian => {
                lemma_value_bound(s.drop_first(), order);
                assert(le_value(s.drop_first()) + 1 <= pow256((s.len() - 1) as nat));
                assert(le_value(s) < pow256(s.len())) by (nonlinear_arith)
                    requires
                        le_value(s) == s[0] as nat + 256 * le_value(s.drop_first()),
                        le_value(s.drop_first()) + 1 <= pow256((s.len() - 1) as nat),
                        pow256(s.len()) == 256 * pow256((s.len() - 1) as nat),
                        s[0] < 256,
                ;
            },
            ByteOrder::BigEndian => {
                lemma_value_bound(s.drop_last(), order);
                assert(be_value(s) < pow256(s.len())) by (nonlinear_arith)
                    requires
                        be_value(s) == s.last() as nat + 256 * be_value(s.drop_last()),
                        be_value(s.drop_last()) + 1 <= pow256((s.len() - 1) as nat),
                        pow256(s.len()) == 256 * pow256((s.len() - 1) as nat),
                        s.last() < 256,
                ;
            },
        }
    }
}

/// Reading back the bytes of a value that fits gives the value.
pub proof fn lemma_value_of_bytes(v: nat, n: nat, order: ByteOrder)
    requires
        v < pow256(n),
    ensures
        value_of(bytes_of(v, n, order), order) == v,
    decreases n,
{
    if n == 0 {
    } else {
        assert(v / 256 < pow256((n - 1) as nat)) by (nonlinear_arith)
            requires
                v < 256 * pow256((n - 1) as nat),
        ;
        lemma_value_of_bytes(v / 256, (n - 1) as nat, order);
        match order {
            ByteOrder::LittleEndian => {
                let s = le_bytes(v, n);
                assert(s.drop_first() =~= le_bytes(v / 256, (n - 1) as nat));
            },
            ByteOrder::BigEndian => {
                let s = be_bytes(v, n);
                assert(s.drop_last() =~= be_bytes(v / 256, (n - 1) as nat));
            },
        }
    }
}

pub proof fn lemma_splice(data: Seq<u8>, pos: int, t: Seq<u8>)
    requires
        0 <= pos,
        pos + t.len() <= data.len(),
    ensures
        splice(data, pos, t).len() == data.len(),
        holds_at(splice(data, pos, t), pos, t),
        forall|i: int|
            0 <= i < data.len() && !(pos <= i < pos + t.len()) ==> #[trigger] splice(
                data,
                pos,
                t,
            )[i] == data[i],
{
    assert(splice(data, pos, t).subrange(pos, pos + t.len()) =~= t);
}

/// What stands outside a patched range stays where it was.
pub proof fn lemma_holds_after_splice(data: Seq<u8>, pos: int, t: Seq<u8>, q: int, u: Seq<u8>)
    requires
        holds_at(data, pos, t),
        0 <= q,
        q + u.len() <= data.len(),
        q + u.len() <= pos || pos + t.len() <= q,
    ensures
        holds_at(splice(data, q, u), pos, t),
{
    lemma_splice(data, q, u);
    let d2 = splice(data, q, u);
    assert forall|i: int| 0 <= i < t.len() implies d2.subrange(pos, pos + t.len())[i] == t[i] by {
        assert(data.subrange(pos, pos + t.len())[i] == t[i]);
        assert(d2[pos + i] == data[pos + i]);
    }
    assert(d2.subrange(pos, pos + t.len()) =~= t);
}

/// What stands in a file stays where it was when bytes are appended.
pub proof fn lemma_holds_after_append(data: Seq<u8>, pos: int, t: Seq<u8>, more: Seq<u8>)
    requires
        holds_at(data, pos, t),
    ensures
        holds_at(data + more, pos, t),
{
    assert((data + more).subrange(pos, pos + t.len()) =~= data.subrange(pos, pos + t.len()));
}

/// Reads the unsigned integer of `n` bytes at `pos`.
pub fn read_uint(data: &Vec<u8>, pos: usize, n: usize, order: ByteOrder) -> (r: u64)
    requires
        n <= 8,
        pos + n <= data.len(),
    ensures
        r as nat == uint_at(data@, pos as int, n as nat, order),
{
    let ghost s = data@.subrange(pos as int, pos + n);
    proof {
        lemma_pow256_values();
    }
    match order {
        ByteOrder::LittleEndian => {
            let mut acc: u64 = 0;
            let mut i: usize = n;
            while i > 0
                invariant
                    n <= 8,
                    pos + n <= data.len(),
                    s == data@.subrange(pos as int, pos + n),
                    pow256(7) == 0x100_0000_0000_0000,
                    i <= n,
                    acc as nat == le_value(s.subrange(i as int, n as int)),
                    acc < pow256((n - i) as nat),
                decreases i,
            {
                let b = data[pos + i - 1];
                proof {
                    lemma_pow256_monotone((n - i) as nat, 7);
                    let t = s.subrange(i - 1, n as int);
                    assert(t.drop_first() =~= s.subrange(i as int, n as int));
                    assert(t[0] == b);
                    assert(acc * 256 + b < pow256((n - i + 1) as nat)) by (nonlinear_arith)
                        requires
                            acc < pow256((n - i) as nat),
                            b < 256,
                            pow256((n - i + 1) as nat) == 256 * pow256((n - i) as nat),
                    ;
                }
                acc = acc * 256 + b as u64;
                i = i - 1;
            }
            assert(s.subrange(0, n as int) =~= s);
            acc
        },
        ByteOrder::BigEndian => {
            let mut acc: u64 = 0;
            let mut i: usize = 0;
            while i < n
                invariant
                    n <= 8,
                    pos + n <= data.len(),
                    s == data@.subrange(pos as int, pos + n),
                    pow256(7) == 0x100_0000_0000_0000,
                    i <= n,
                    acc as nat == be_value(s.subrange(0, i as int)),
                    acc < pow256(i as nat),
                decreases n - i,
            {
                let b = data[pos + i];
                proof {
                    lemma_pow256_monotone(i as nat, 7);
                    let t = s.subrange(0, i + 1);
                    assert(t.drop_last() =~= s.subrange(0, i as int));
                    assert(t.last() == b);
                    assert(acc * 256 + b < pow256((i + 1) as nat)) by (nonlinear_arith)
                        requires
                            acc < pow256(i as nat),
                            b < 256,
                            pow256((i + 1) as nat) == 256 * pow256(i as nat),
                    ;
                }
                acc = acc * 256 + b as u64;
                i = i + 1;
            }
            assert(s.subrange(0, n as int) =~= s);
            acc
        },
    }
}

/// Reads a 16-bit field.
pub fn read_u16(data: &Vec<u8>, pos: usize, order: ByteOrder) -> (r: u16)
    requires
        pos + 2 <= data.len(),
    ensures
        r as nat == uint_at(data@, pos as int, 2, order),
{
    let v = read_uint(data, pos, 2, order);
    proof {
        lemma_pow256_values();
        lemma_value_bound(data@.subrange(pos as int, pos + 2), order);
    }
    v as u16
}

/// Reads a 32-bit field.
pub fn read_u32(data: &Vec<u8>, pos: usize, order: ByteOrder) -> (r: u32)
    requires
        pos + 4 <= data.len(),
    ensures
        r as nat == uint_at(data@, pos as int, 4, order),
{
    let v = read_uint(data, pos, 4, order);
    proof {
        lemma_pow256_values();
        lemma_value_bound(data@.subrange(pos as int, pos + 4), order);
    }
    v as u32
}

/// Appends the `n` bytes of `v` in the given order.
pub fn push_uint(out: &mut Vec<u8>, v: u64, n: usize, order: ByteOrder)
    requires
        n <= 8,
    ensures
        final(out)@ == old(out)@ + bytes_of(v as nat, n as nat, order),
{
    match order {
        ByteOrder::LittleEndian => {
            let mut x: u64 = v;
            let mut i: usize = 0;
            while i < n
                invariant
                    i <= n,
                    out@ + le_bytes(x as nat, (n - i) as nat) == old(out)@ + le_bytes(v as nat, n as nat),
                decreases n - i,
            {
                let ghost before = out@;
                out.push((x % 256) as u8);
                proof {
                    let rest = le_bytes((x / 256) as nat, (n - i - 1) as nat);
                    assert(le_bytes(x as nat, (n - i) as nat) == seq![(x % 256) as u8] + rest);
                    assert(out@ + rest =~= before + (seq![(x % 256) as u8] + rest));
                }
                x = x / 256;
                i = i + 1;
            }
            assert(out@ + le_bytes(x as nat, 0) =~= out@);
        },
        ByteOrder::BigEndian => {
            let start = out.len();
            let mut k: usize = 0;
            while k < n
                invariant
                    k <= n,
                    start == old(out)@.len(),
                    out@ =~= old(out)@ + Seq::new(k as nat, |j: int| 0u8),
                decreases n - k,
            {
                out.push(0u8);
                k = k + 1;
            }
            let total: usize = out.len();
            let mut x: u64 = v;
            let mut j: usize = n;
            let ghost tail: Seq<u8> = Seq::empty();
            while j > 0
                invariant
                    j <= n,
                    start == old(out)@.len(),
                    total == start + n,
                    out@ =~= old(out)@ + Seq::new(j as nat, |q: int| 0u8) + tail,
                    be_bytes(v as nat, n as nat) == be_bytes(x as nat, j as nat) + tail,
                decreases j,
            {
                let ghost before = out@;
                out.set(start + j - 1, (x % 256) as u8);
                proof {
                    let prefix = be_bytes((x / 256) as nat, (j - 1) as nat);
                    assert(be_bytes(x as nat, j as nat) == prefix.push((x % 256) as u8));
                    assert(prefix.push((x % 256) as u8) + tail =~= prefix + (seq![(x % 256) as u8] + tail));
                    tail = seq![(x % 256) as u8] + tail;
                    assert(out@ =~= old(out)@ + Seq::new((j - 1) as nat, |q: int| 0u8) + tail);
                }
                x = x / 256;
                j = j - 1;
            }
            assert(be_bytes(x as nat, 0) + tail =~= tail);
        },
    }
}

/// Overwrites the bytes from `pos` on with those of `src`.
pub fn set_bytes(out: &mut Vec<u8>, pos: usize, src: &Vec<u8>)
    requires
        pos + src.len() <= old(out).len(),
    ensures
        final(out)@ == splice(old(out)@, pos as int, src@),
{
    let n = src.len();
    let mut i: usize = 0;
    while i < n
        invariant
            n == src.len(),
            i <= n,
            pos + n <= old(out).len(),
            out@ =~= old(out)@.subrange(0, pos as int) + src@.subrange(0, i as int) + old(out)@.subrange(
                pos + i,
                old(out)@.len() as int,
            ),
        decreases n - i,
    {
        out.set(pos + i, src[i]);
        i = i + 1;
    }
    assert(src@.subrange(0, n as int) =~= src@);
}

/// Overwrites the `n` bytes at `pos` with those of `v` in the given order.
pub fn set_uint(out: &mut Vec<u8>, pos: usize, v: u64, n: usize, order: ByteOrder)
    requires
        n <= 8,
        pos + n <= old(out).len(),
    ensures
        final(out)@ == splice(old(out)@, pos as int, bytes_of(v as nat, n as nat, order)),
{
    let mut tmp: Vec<u8> = Vec::new();
    push_uint(&mut tmp, v, n, order);
    proof {
        lemma_bytes_len(v as nat, n as nat, order);
        assert(tmp@ =~= bytes_of(v as nat, n as nat, order));
    }
    let mut i: usize = 0;
    while i < n
        invariant
            i <= n,
            n <= 8,
            pos + n <= old(out).len(),
            tmp@.len() == n,
            out@ =~= old(out)@.subrange(0, pos as int) + tmp@.subrange(0, i as int) + old(out)@.subrange(
                pos + i,
                old(out)@.len() as int,
            ),
        decreases n - i,
    {
        out.set(pos + i, tmp[i]);
        i = i + 1;
    }
    assert(tmp@.subrange(0, n as int) =~= tmp@);
}

} // verus!
