use vstd::prelude::*;

verus! {

/// The order in which multi-byte values lie in memory; one setting for all fields.
#[derive(Clone, Copy, Debug, PartialEq, Eq, Structural)]
pub enum ByteOrder {
    Little,
    Big,
}

pub open spec fn pow256(n: nat) -> nat
    decreases n,
{
    if n == 0 {
        1
    } else {
        256 * pow256((n - 1) as nat)
    }
}

/// `s` read back to front.
pub open spec fn rev(s: Seq<u8>) -> Seq<u8> {
    Seq::new(s.len(), |i: int| s[s.len() - 1 - i])
}

/// The unsigned number whose least significant byte comes first in `s`.
pub open spec fn uint_le(s: Seq<u8>) -> nat
    decreases s.len(),
{
    if s.len() == 0 {
        0
    } else {
        s[0] as nat + 256 * uint_le(s.drop_first())
    }
}

/// The unsigned number that `s` holds in byte order `o`.
pub open spec fn uint_of(s: Seq<u8>, o: ByteOrder) -> nat {
    match o {
        ByteOrder::Little => uint_le(s),
        ByteOrder::Big => uint_le(rev(s)),
    }
}

/// The `n` low bytes of `v`, least significant first.
pub open spec fn le_bytes(v: nat, n: nat) -> Seq<u8>
    decreases n,
{
    if n == 0 {
        Seq::empty()
    } else {
        seq![(v % 256) as u8] + le_bytes(v / 256, (n - 1) as nat)
    }
}

/// The `n` low bytes of `v` in byte order `o`.
pub open spec fn bytes_of(v: nat, n: nat, o: ByteOrder) -> Seq<u8> {
    match o {
        ByteOrder::Little => le_bytes(v, n),
        ByteOrder::Big => rev(le_bytes(v, n)),
    }
}

pub proof fn lemma_uint_le_bound(s: Seq<u8>)
    ensures
        uint_le(s) < pow256(s.len()),
    decreases s.len(),
{
    if s.len() > 0 {
        lemma_uint_le_bound(s.drop_first());
        let a = s[0] as nat;
        let b = uint_le(s.drop_first());
        let p = pow256(s.drop_first().len());
        assert(a + 256 * b < 256 * p) by (nonlinear_arith)
            requires a < 256, b < p;
    }
}

pub proof fn lemma_le_bytes(v: nat, n: nat)
    requires
        v < pow256(n),
    ensures
        le_bytes(v, n).len() == n,
        uint_le(le_bytes(v, n)) == v,
    decreases n,
{
    if n > 0 {
        let p = pow256((n - 1) as nat);
        assert(v / 256 < p) by (nonlinear_arith)
            requires v < 256 * p;
        lemma_le_bytes(v / 256, (n - 1) as nat);
        let s = le_bytes(v, n);
        assert(s.drop_first() =~= le_bytes(v / 256, (n - 1) as nat));
        assert(v == v % 256 + 256 * (v / 256)) by (nonlinear_arith);
    }
}

pub proof fn lemma_rev_rev(s: Seq<u8>)
    ensures
        rev(rev(s)) == s,
{
    assert(rev(rev(s)) =~= s);
}

/// Reading back the bytes written for `v` gives `v` again, in either byte order.
pub proof fn lemma_bytes_round_trip(v: nat, n: nat, o: ByteOrder)
    requires
        v < pow256(n),
    ensures
        bytes_of(v, n, o).len() == n,
        uint_of(bytes_of(v, n, o), o) == v,
{
    lemma_le_bytes(v, n);
    lemma_rev_rev(le_bytes(v, n));
}

pub proof fn lemma_pow256_8()
    ensures
        pow256(8) == 0x1_0000_0000_0000_0000,
        pow256(4) == 0x1_0000_0000,
        pow256(2) == 0x1_0000,
        pow256(1) == 0x100,
{
    reveal_with_fuel(pow256, 9);
}

/// `s` in the opposite order.
pub fn reversed(s: &Vec<u8>) -> (r: Vec<u8>)
    ensures
        r@ == rev(s@),
{
    let mut r: Vec<u8> = Vec::new();
    let mut i: usize = s.len();
    while i > 0
        invariant
            i <= s@.len(),
            r@.len() == s@.len() - i,
            forall|j: int| 0 <= j < r@.len() ==> r@[j] == s@[s@.len() - 1 - j],
        decreases i,
    {
        i = i - 1;
        r.push(s[i]);
    }
    assert(r@ =~= rev(s@));
    r
}

/// The unsigned number that up to eight bytes hold, least significant first.
pub fn read_uint_le(s: &Vec<u8>) -> (r: u64)
    requires
        s@.len() <= 8,
    ensures
        r as nat == uint_le(s@),
{
    let mut v: u64 = 0;
    let mut i: usize = s.len();
    proof {
        lemma_pow256_8();
        assert(s@.subrange(i as int, s@.len() as int) =~= Seq::<u8>::empty());
    }
    while i > 0
        invariant
            i <= s@.len() <= 8,
            v as nat == uint_le(s@.subrange(i as int, s@.len() as int)),
            pow256(8) == 0x1_0000_0000_0000_0000,
        decreases i,
    {
        let ghost tail = s@.subrange(i as int, s@.len() as int);
        proof {
            lemma_uint_le_bound(tail);
            lemma_pow_mono(tail.len(), 7);
            let vv = v as nat;
            let p = pow256(tail.len());
            assert(vv * 256 + 255 < pow256(8)) by (nonlinear_arith)
                requires vv < p, p <= pow256(7), pow256(8) == 256 * pow256(7);
        }
        i = i - 1;
        v = v * 256 + s[i] as u64;
        assert(s@.subrange(i as int, s@.len() as int).drop_first() =~= tail);
    }
    assert(s@.subrange(0, s@.len() as int) =~= s@);
    v
}

proof fn lemma_pow_mono(a: nat, b: nat)
    requires
        a <= b,
    ensures
        pow256(a) <= pow256(b),
    decreases b,
{
    if a < b {
        lemma_pow_mono(a, (b - 1) as nat);
    }
}

/// The unsigned number that up to eight bytes hold in byte order `o`.
pub fn read_uint(s: &Vec<u8>, o: ByteOrder) -> (r: u64)
    requires
        s@.len() <= 8,
    ensures
        r as nat == uint_of(s@, o),
{
    match o {
        ByteOrder::Little => read_uint_le(s),
        ByteOrder::Big => read_uint_le(&reversed(s)),
    }
}

/// The `n` low bytes of `v` in byte order `o`.
pub fn write_uint(v: u64, n: usize, o: ByteOrder) -> (r: Vec<u8>)
    requires
        n <= 8,
    ensures
        r@ == bytes_of(v as nat, n as nat, o),
        r@.len() == n,
{
    let mut out: Vec<u8> = Vec::new();
    let mut rest: u64 = v;
    let mut i: usize = 0;
    while i < n
        invariant
            i <= n,
            out@.len() == i,
            out@ + le_bytes(rest as nat, (n - i) as nat) == le_bytes(v as nat, n as nat),
        decreases n - i,
    {
        let ghost k = (n - i) as nat;
        assert(le_bytes(rest as nat, k) == seq![(rest as nat % 256) as u8] + le_bytes(rest as nat / 256, (k - 1) as nat));
        out.push((rest % 256) as u8);
        rest = rest / 256;
        i = i + 1;
        assert(out@ + le_bytes(rest as nat, (n - i) as nat) =~= le_bytes(v as nat, n as nat));
    }
    assert(out@ + le_bytes(rest as nat, 0) =~= out@);
    match o {
        ByteOrder::Little => out,
        ByteOrder::Big => reversed(&out),
    }
}

} // verus!
