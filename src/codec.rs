use vstd::prelude::*;
use crate::bytes::{
    bytes_of, lemma_bytes_round_trip, lemma_pow256_8, pow256, read_uint, uint_of, write_uint, ByteOrder,
};
use crate::field::{FieldKind, POINTER_WIDTH};
use crate::text::{chars_of, string_of};

verus! {

/// Why a text does not fit a field.
#[derive(Clone, Copy, Debug, PartialEq, Eq, Structural)]
pub enum EncodeError {
    InvalidHex,
    OutOfRange,
    InvalidNumber,
}

/// What a field shows. Floating-point fields hand out their bit pattern; the
/// caller renders it.
#[derive(Debug)]
pub enum DisplayValue {
    Text(String),
    Float32Bits(u32),
    Float64Bits(u64),
}

pub open spec fn is_digit(c: char) -> bool {
    48 <= c as u32 <= 57
}

pub open spec fn is_hex_char(c: char) -> bool {
    is_digit(c) || (65 <= c as u32 <= 70) || (97 <= c as u32 <= 102)
}

/// The value of a hex digit, either case.
pub open spec fn hex_val(c: char) -> nat {
    let u = c as u32;
    if u <= 57 {
        (u - 48) as nat
    } else if u <= 70 {
        (u - 55) as nat
    } else {
        (u - 87) as nat
    }
}

/// The upper-case hex digit for `d < 16`.
pub open spec fn hex_char(d: nat) -> char {
    if d < 10 {
        (48 + d) as u8 as char
    } else {
        (55 + d) as u8 as char
    }
}

/// `c` with a lower-case ASCII letter made upper-case.
pub open spec fn upper(c: char) -> char {
    if 97 <= c as u32 <= 122 {
        (c as u32 - 32) as u8 as char
    } else {
        c
    }
}

pub open spec fn upper_text(t: Seq<char>) -> Seq<char> {
    t.map_values(|c: char| upper(c))
}

/// Two upper-case hex digits per byte, in the order the bytes lie.
pub open spec fn hex_text(s: Seq<u8>) -> Seq<char>
    decreases s.len(),
{
    if s.len() == 0 {
        Seq::empty()
    } else {
        hex_text(s.drop_last()) + seq![hex_char(s.last() as nat / 16), hex_char(s.last() as nat % 16)]
    }
}

/// The bytes that pairs of hex digits spell.
pub open spec fn hex_bytes(t: Seq<char>) -> Seq<u8>
    decreases t.len(),
{
    if t.len() < 2 {
        Seq::empty()
    } else {
        hex_bytes(t.take(t.len() - 2)).push((hex_val(t[t.len() - 2]) * 16 + hex_val(t[t.len() - 1])) as u8)
    }
}

pub open spec fn all_hex(t: Seq<char>) -> bool {
    forall|i: int| 0 <= i < t.len() ==> is_hex_char(#[trigger] t[i])
}

pub open spec fn all_digits(t: Seq<char>) -> bool {
    forall|i: int| 0 <= i < t.len() ==> is_digit(#[trigger] t[i])
}

/// The decimal digits of `n`, most significant first, without leading zeros.
pub open spec fn dec_digits(n: nat) -> Seq<char>
    decreases n,
{
    if n < 10 {
        seq![(48 + n) as u8 as char]
    } else {
        dec_digits(n / 10).push((48 + n % 10) as u8 as char)
    }
}

/// Base-10 text of `v`, with a leading `-` when negative.
pub open spec fn dec_text(v: int) -> Seq<char> {
    if v < 0 {
        seq!['-'] + dec_digits((-v) as nat)
    } else {
        dec_digits(v as nat)
    }
}

/// The number that a run of decimal digits spells.
pub open spec fn dec_value(t: Seq<char>) -> nat
    decreases t.len(),
{
    if t.len() == 0 {
        0
    } else {
        dec_value(t.drop_last()) * 10 + (t.last() as u32 - 48) as nat
    }
}

/// Whether `t` opens with a sign, `-` or `+`.
pub open spec fn has_sign(t: Seq<char>) -> bool {
    t.len() > 0 && (t[0] == '-' || t[0] == '+')
}

/// The integer that `t` spells: digits, optionally after a `-` or a `+`.
pub open spec fn parse_int(t: Seq<char>) -> Option<int> {
    if has_sign(t) {
        let d = t.drop_first();
        if d.len() > 0 && all_digits(d) {
            Some(if t[0] == '-' { -dec_value(d) } else { dec_value(d) as int })
        } else {
            None
        }
    } else if t.len() > 0 && all_digits(t) {
        Some(dec_value(t) as int)
    } else {
        None
    }
}

pub open spec fn int_min(w: nat, signed: bool) -> int {
    if signed {
        -(pow256(w) / 2)
    } else {
        0
    }
}

pub open spec fn int_max(w: nat, signed: bool) -> int {
    if signed {
        pow256(w) / 2 - 1
    } else {
        pow256(w) - 1
    }
}

/// The two's-complement reading of the unsigned `raw` at width `w`.
pub open spec fn int_value(raw: nat, w: nat, signed: bool) -> int {
    if signed && raw >= pow256(w) / 2 {
        raw - pow256(w)
    } else {
        raw as int
    }
}

/// The unsigned pattern that stores `v` at width `w`.
pub open spec fn stored(v: int, w: nat) -> nat {
    if v < 0 {
        (v + pow256(w)) as nat
    } else {
        v as nat
    }
}

/// An address: `0x` and sixteen upper-case hex digits.
pub open spec fn pointer_text(v: nat) -> Seq<char> {
    seq!['0', 'x'] + hex_text(bytes_of(v, POINTER_WIDTH as nat, ByteOrder::Big))
}

/// The bytes of a hex field as shown, most significant first: as they lie
/// for big-endian order, reversed for little-endian. Applied twice it gives
/// the bytes back.
pub open spec fn display_order(b: Seq<u8>, o: ByteOrder) -> Seq<u8> {
    match o {
        ByteOrder::Big => b,
        ByteOrder::Little => crate::bytes::rev(b),
    }
}

/// What a field of a kind other than floating point shows for bytes `b`.
pub open spec fn text_spec(k: FieldKind, o: ByteOrder, b: Seq<u8>) -> Seq<char> {
    match k {
        FieldKind::Hex(_) => hex_text(display_order(b, o)),
        FieldKind::Int(w, signed) => dec_text(int_value(uint_of(b, o), w as nat, signed)),
        _ => pointer_text(uint_of(b, o)),
    }
}

/// The bytes that text `t` gives a field of width `w` holding integers.
pub open spec fn encode_int_spec(w: nat, signed: bool, o: ByteOrder, t: Seq<char>) -> Result<Seq<u8>, EncodeError> {
    match parse_int(t) {
        None => Err(EncodeError::InvalidNumber),
        Some(v) => if int_min(w, signed) <= v <= int_max(w, signed) {
            Ok(bytes_of(stored(v, w), w, o))
        } else {
            Err(EncodeError::OutOfRange)
        },
    }
}

/// The bytes that text `t` gives a field of kind `k` other than floating point.
pub open spec fn encode_spec(k: FieldKind, o: ByteOrder, t: Seq<char>) -> Result<Seq<u8>, EncodeError> {
    match k {
        FieldKind::Hex(w) => if t.len() == 2 * w && all_hex(t) {
            Ok(display_order(hex_bytes(t), o))
        } else {
            Err(EncodeError::InvalidHex)
        },
        FieldKind::Int(w, signed) => encode_int_spec(w as nat, signed, o, t),
        _ => encode_int_spec(POINTER_WIDTH as nat, false, o, t),
    }
}

/// How an accepted text reads back: hex in upper case, numbers in plain base
/// 10, addresses as `0x` and sixteen hex digits.
pub open spec fn canonical_render(k: FieldKind, t: Seq<char>) -> Seq<char> {
    match k {
        FieldKind::Hex(_) => upper_text(t),
        FieldKind::Int(_, _) => dec_text(parse_int(t).unwrap()),
        _ => pointer_text(parse_int(t).unwrap() as nat),
    }
}

pub(crate) fn hex_digit(d: u8) -> (r: char)
    requires
        d < 16,
    ensures
        r == hex_char(d as nat),
{
    if d < 10 {
        (48 + d) as char
    } else {
        (55 + d) as char
    }
}

pub(crate) fn hex_value(c: char) -> (r: u8)
    requires
        is_hex_char(c),
    ensures
        r as nat == hex_val(c),
        r < 16,
{
    let u = c as u32;
    if u <= 57 {
        (u - 48) as u8
    } else if u <= 70 {
        (u - 55) as u8
    } else {
        (u - 87) as u8
    }
}

fn push_hex(b: &Vec<u8>, out: &mut Vec<char>)
    ensures
        final(out)@ == old(out)@ + hex_text(b@),
{
    let ghost start = out@;
    let mut i: usize = 0;
    assert(b@.take(0) =~= Seq::<u8>::empty());
    assert(start + hex_text(b@.take(0)) =~= start);
    while i < b.len()
        invariant
            i <= b@.len(),
            out@ == start + hex_text(b@.take(i as int)),
        decreases b@.len() - i,
    {
        assert(b@.take(i + 1).drop_last() =~= b@.take(i as int));
        out.push(hex_digit(b[i] / 16));
        out.push(hex_digit(b[i] % 16));
        i = i + 1;
        assert(out@ =~= start + hex_text(b@.take(i as int)));
    }
    assert(b@.take(i as int) =~= b@);
}

/// Upper-case hex text of `b`, two digits per byte in the order they lie.
pub fn decode_hex(b: &Vec<u8>) -> (r: String)
    ensures
        r@ == hex_text(b@),
{
    let mut out: Vec<char> = Vec::new();
    push_hex(b, &mut out);
    assert(out@ =~= hex_text(b@));
    string_of(&out)
}

/// The `w` bytes that `t` spells in hex, either case, in the order written;
/// `InvalidHex` unless `t` is exactly `2 * w` hex digits.
pub fn encode_hex(w: usize, t: &str) -> (r: Result<Vec<u8>, EncodeError>)
    ensures
        t@.len() == 2 * w && all_hex(t@) ==> (r matches Ok(b) && b@ == hex_bytes(t@)),
        !(t@.len() == 2 * w && all_hex(t@)) ==> r == Err::<Vec<u8>, EncodeError>(EncodeError::InvalidHex),
{
    let c = chars_of(t);
    if c.len() % 2 != 0 || c.len() / 2 != w {
        return Err(EncodeError::InvalidHex);
    }
    let mut i: usize = 0;
    while i < c.len()
        invariant
            i <= c@.len(),
            c@ == t@,
            c@.len() == 2 * w,
            forall|j: int| 0 <= j < i ==> is_hex_char(#[trigger] c@[j]),
        decreases c@.len() - i,
    {
        let u = c[i] as u32;
        if !((48 <= u && u <= 57) || (65 <= u && u <= 70) || (97 <= u && u <= 102)) {
            assert(!is_hex_char(t@[i as int]));
            return Err(EncodeError::InvalidHex);
        }
        i = i + 1;
    }
    let mut out: Vec<u8> = Vec::new();
    let mut k: usize = 0;
    assert(c@.take(0) =~= Seq::<char>::empty());
    while k < w
        invariant
            k <= w,
            c@.len() == 2 * w,
            c@ == t@,
            all_hex(c@),
            out@ == hex_bytes(c@.take(2 * k)),
        decreases w - k,
    {
        let hi = hex_value(c[2 * k]);
        let lo = hex_value(c[2 * k + 1]);
        assert(c@.take(2 * k + 2).take(2 * k) =~= c@.take(2 * k));
        out.push(hi * 16 + lo);
        k = k + 1;
    }
    assert(c@.take(2 * w) =~= c@);
    Ok(out)
}

proof fn lemma_hex_char(c: char)
    requires
        is_hex_char(c),
    ensures
        hex_val(c) < 16,
        hex_char(hex_val(c)) == upper(c),
{
}

/// Spelling out the bytes that hex text spells gives the text back in upper case.
pub proof fn lemma_hex_round_trip(t: Seq<char>)
    requires
        t.len() % 2 == 0,
        all_hex(t),
    ensures
        hex_text(hex_bytes(t)) == upper_text(t),
    decreases t.len(),
{
    if t.len() == 0 {
        assert(upper_text(t) =~= Seq::<char>::empty());
    } else {
        let n = t.len() as int;
        let p = t.take(n - 2);
        assert(all_hex(p));
        lemma_hex_round_trip(p);
        let a = t[n - 2];
        let c = t[n - 1];
        lemma_hex_char(a);
        lemma_hex_char(c);
        let b = (hex_val(a) * 16 + hex_val(c)) as u8;
        assert(hex_bytes(t).drop_last() =~= hex_bytes(p));
        assert(b as nat / 16 == hex_val(a));
        assert(b as nat % 16 == hex_val(c));
        assert(upper_text(t) =~= upper_text(p) + seq![upper(a), upper(c)]);
    }
}

fn push_digits(n: u64, out: &mut Vec<char>)
    ensures
        final(out)@ == old(out)@ + dec_digits(n as nat),
    decreases n,
{
    if n >= 10 {
        push_digits(n / 10, out);
    }
    out.push(((n % 10) as u8 + 48) as char);
    assert(n < 10 ==> n % 10 == n);
}

/// 2^(8 w) for the widths that integers take, as a `u128`.
fn pow256_exec(w: usize) -> (r: u128)
    requires
        w == 1 || w == 2 || w == 4 || w == 8,
    ensures
        r as nat == pow256(w as nat),
{
    proof {
        lemma_pow256_8();
    }
    if w == 1 {
        0x100
    } else if w == 2 {
        0x1_0000
    } else if w == 4 {
        0x1_0000_0000
    } else {
        0x1_0000_0000_0000_0000
    }
}

/// Base-10 text of the integer that `b` holds, read at its width in byte
/// order `o`, as two's complement when `signed`.
pub fn decode_int(signed: bool, o: ByteOrder, b: &Vec<u8>) -> (r: String)
    requires
        b@.len() == 1 || b@.len() == 2 || b@.len() == 4 || b@.len() == 8,
    ensures
        r@ == dec_text(int_value(uint_of(b@, o), b@.len(), signed)),
{
    let w = b.len();
    let p = pow256_exec(w);
    let raw = read_uint(b, o);
    proof {
        lemma_uint_bound(b@, o);
    }
    let mut out: Vec<char> = Vec::new();
    if signed && raw as u128 >= p / 2 {
        out.push('-');
        let mag = (p - raw as u128) as u64;
        push_digits(mag, &mut out);
    } else {
        push_digits(raw, &mut out);
        assert(out@ =~= dec_digits(raw as nat));
    }
    string_of(&out)
}

proof fn lemma_uint_bound(b: Seq<u8>, o: ByteOrder)
    ensures
        uint_of(b, o) < pow256(b.len()),
{
    crate::bytes::lemma_uint_le_bound(b);
    crate::bytes::lemma_uint_le_bound(crate::bytes::rev(b));
}

proof fn lemma_dec_value_prefix(d: Seq<char>, k: int)
    requires
        0 <= k <= d.len(),
        all_digits(d),
    ensures
        dec_value(d.take(k)) <= dec_value(d),
    decreases d.len(),
{
    if k < d.len() {
        let e = d.drop_last();
        assert(e.take(k) =~= d.take(k));
        assert(all_digits(e));
        lemma_dec_value_prefix(e, k);
    } else {
        assert(d.take(k) =~= d);
    }
}

/// The bytes that base-10 text `t` gives an integer field of width `w`.
pub fn encode_int(w: usize, signed: bool, o: ByteOrder, t: &str) -> (r: Result<Vec<u8>, EncodeError>)
    requires
        w == 1 || w == 2 || w == 4 || w == 8,
    ensures
        match encode_int_spec(w as nat, signed, o, t@) {
            Ok(b) => r matches Ok(v) && v@ == b,
            Err(e) => r == Err::<Vec<u8>, EncodeError>(e),
        },
{
    let c = chars_of(t);
    let signed_text = c.len() > 0 && (c[0] == '-' || c[0] == '+');
    let neg = c.len() > 0 && c[0] == '-';
    let start: usize = if signed_text { 1 } else { 0 };
    let ghost d = if signed_text { t@.drop_first() } else { t@ };
    assert(d =~= c@.subrange(start as int, c@.len() as int));
    if start >= c.len() {
        return Err(EncodeError::InvalidNumber);
    }
    let mut i: usize = start;
    while i < c.len()
        invariant
            start <= i <= c@.len(),
            c@ == t@,
            neg == (t@.len() > 0 && t@[0] == '-'),
            signed_text == has_sign(t@),
            start == (if signed_text { 1usize } else { 0usize }),
            d == (if signed_text { t@.drop_first() } else { t@ }),
            d =~= c@.subrange(start as int, c@.len() as int),
            forall|j: int| start <= j < i ==> is_digit(#[trigger] c@[j]),
        decreases c@.len() - i,
    {
        let u = c[i] as u32;
        if !(48 <= u && u <= 57) {
            assert(!is_digit(d[i - start]));
            return Err(EncodeError::InvalidNumber);
        }
        i = i + 1;
    }
    assert(all_digits(d));
    let ghost v: int = if neg { -dec_value(d) } else { dec_value(d) as int };
    assert(parse_int(t@) == Some(v));
    let mut acc: u64 = 0;
    let mut k: usize = start;
    assert(d.take(0) =~= Seq::<char>::empty());
    while k < c.len()
        invariant
            start <= k <= c@.len(),
            c@ == t@,
            w == 1 || w == 2 || w == 4 || w == 8,
            neg == (t@.len() > 0 && t@[0] == '-'),
            signed_text == has_sign(t@),
            start == (if signed_text { 1usize } else { 0usize }),
            d == (if signed_text { t@.drop_first() } else { t@ }),
            parse_int(t@) == Some(v),
            d =~= c@.subrange(start as int, c@.len() as int),
            all_digits(d),
            acc as nat == dec_value(d.take(k - start)),
        decreases c@.len() - k,
    {
        assert(d.take(k - start + 1).drop_last() =~= d.take(k - start));
        assert(is_digit(d[k - start]));
        assert(c@[k as int] == d[k - start]);
        let digit = (c[k] as u32 - 48) as u64;
        match acc.checked_mul(10) {
            Some(m) => match m.checked_add(digit) {
                Some(n) => {
                    acc = n;
                },
                None => {
                    proof {
                        lemma_dec_value_prefix(d, k - start + 1);
                        lemma_pow256_8();
                        lemma_pow_le_64(w as nat);
                    }
                    return Err(EncodeError::OutOfRange);
                },
            },
            None => {
                proof {
                    lemma_dec_value_prefix(d, k - start + 1);
                    lemma_pow256_8();
                    lemma_pow_le_64(w as nat);
                }
                return Err(EncodeError::OutOfRange);
            },
        }
        k = k + 1;
    }
    assert(d.take(d.len() as int) =~= d);
    assert(k - start == d.len());
    assert(acc as nat == dec_value(d));
    let p = pow256_exec(w);
    proof {
        lemma_pow_le_64(w as nat);
        lemma_pow256_8();
    }
    let in_range = if signed {
        if neg {
            acc as u128 <= p / 2
        } else {
            (acc as u128) < p / 2
        }
    } else {
        acc == 0 || (!neg && (acc as u128) < p)
    };
    if !in_range {
        return Err(EncodeError::OutOfRange);
    }
    let u: u64 = if neg && acc > 0 { (p - acc as u128) as u64 } else { acc };
    assert(u as nat == stored(v, w as nat));
    Ok(write_uint(u, w, o))
}

proof fn lemma_pow_le_64(w: nat)
    requires
        w == 1 || w == 2 || w == 4 || w == 8,
    ensures
        pow256(w) <= 0x1_0000_0000_0000_0000,
{
    lemma_pow256_8();
}

/// Reading back the bytes stored for an in-range integer gives that integer.
pub proof fn lemma_int_round_trip(v: int, w: nat, signed: bool, o: ByteOrder)
    requires
        w >= 1,
        int_min(w, signed) <= v <= int_max(w, signed),
    ensures
        int_value(uint_of(bytes_of(stored(v, w), w, o), o), w, signed) == v,
{
    assert(pow256(w) == 256 * pow256((w - 1) as nat));
    lemma_bytes_round_trip(stored(v, w), w, o);
}

/// `r` is what a field of kind `k` shows for bytes `b`: text for every kind
/// but floating point, whose bit pattern is handed out as it lies.
pub open spec fn shows(k: FieldKind, o: ByteOrder, b: Seq<u8>, r: DisplayValue) -> bool {
    match k {
        FieldKind::Float(w) => if w == 4 {
            r == DisplayValue::Float32Bits(uint_of(b, o) as u32)
        } else {
            r == DisplayValue::Float64Bits(uint_of(b, o) as u64)
        },
        _ => r matches DisplayValue::Text(s) && s@ == text_spec(k, o, b),
    }
}

/// What a field of kind `kind` shows for its bytes `b`.
pub fn decode(kind: FieldKind, order: ByteOrder, b: &Vec<u8>) -> (r: DisplayValue)
    requires
        kind.valid(),
        b@.len() == kind.width_spec(),
    ensures
        shows(kind, order, b@, r),
{
    match kind {
        FieldKind::Hex(_) => match order {
            ByteOrder::Big => DisplayValue::Text(decode_hex(b)),
            ByteOrder::Little => DisplayValue::Text(decode_hex(&crate::bytes::reversed(b))),
        },
        FieldKind::Int(_, signed) => DisplayValue::Text(decode_int(signed, order, b)),
        FieldKind::Float(w) => {
            let bits = read_uint(b, order);
            if w == 4 {
                proof {
                    lemma_uint_bound(b@, order);
                    lemma_pow256_8();
                }
                DisplayValue::Float32Bits(bits as u32)
            } else {
                DisplayValue::Float64Bits(bits)
            }
        },
        FieldKind::ClassPointer(_) => {
            let v = read_uint(b, order);
            let be = write_uint(v, POINTER_WIDTH, ByteOrder::Big);
            let mut out: Vec<char> = Vec::new();
            out.push('0');
            out.push('x');
            push_hex(&be, &mut out);
            assert(out@ =~= pointer_text(uint_of(b@, order)));
            DisplayValue::Text(string_of(&out))
        },
    }
}

/// The bytes that text `t` gives a field of kind `kind`. Floating-point
/// fields take their bit pattern through `encode_float_bits` instead.
pub fn encode(kind: FieldKind, order: ByteOrder, t: &str) -> (r: Result<Vec<u8>, EncodeError>)
    requires
        kind.valid(),
        !(kind is Float),
    ensures
        match encode_spec(kind, order, t@) {
            Ok(b) => r matches Ok(v) && v@ == b,
            Err(e) => r == Err::<Vec<u8>, EncodeError>(e),
        },
{
    match kind {
        FieldKind::Hex(w) => match encode_hex(w, t) {
            Ok(v) => match order {
                ByteOrder::Big => Ok(v),
                ByteOrder::Little => Ok(crate::bytes::reversed(&v)),
            },
            Err(e) => Err(e),
        },
        FieldKind::Int(w, signed) => encode_int(w, signed, order, t),
        _ => encode_int(POINTER_WIDTH, false, order, t),
    }
}

/// The bytes of a floating-point field of width `w` holding bit pattern `bits`.
pub fn encode_float_bits(w: usize, bits: u64, order: ByteOrder) -> (r: Vec<u8>)
    requires
        w == 4 || w == 8,
        w == 4 ==> bits <= u32::MAX,
    ensures
        r@ == bytes_of(bits as nat, w as nat, order),
        r@.len() == w,
{
    write_uint(bits, w, order)
}

/// Every text that a field accepts reads back as its canonical rendering:
/// hex in upper case, integers in plain base 10, addresses in hex.
pub proof fn lemma_codec_round_trip(k: FieldKind, o: ByteOrder, t: Seq<char>)
    requires
        k.valid(),
        !(k is Float),
        encode_spec(k, o, t) is Ok,
    ensures
        encode_spec(k, o, t)->Ok_0.len() == k.width_spec(),
        text_spec(k, o, encode_spec(k, o, t)->Ok_0) == canonical_render(k, t),
{
    match k {
        FieldKind::Hex(w) => {
            lemma_hex_round_trip(t);
            lemma_hex_bytes_len(t);
            crate::bytes::lemma_rev_rev(hex_bytes(t));
        },
        FieldKind::Int(w, signed) => {
            let v = parse_int(t).unwrap();
            lemma_int_round_trip(v, w as nat, signed, o);
            lemma_bytes_round_trip(stored(v, w as nat), w as nat, o);
        },
        _ => {
            let v = parse_int(t).unwrap();
            lemma_pow256_8();
            lemma_bytes_round_trip(stored(v, 8), 8, o);
        },
    }
}

proof fn lemma_hex_bytes_len(t: Seq<char>)
    requires
        t.len() % 2 == 0,
    ensures
        hex_bytes(t).len() == t.len() / 2,
    decreases t.len(),
{
    if t.len() >= 2 {
        lemma_hex_bytes_len(t.take(t.len() - 2));
    }
}

} // verus!
