use vstd::prelude::*;
use crate::class::{widths, Class};
use crate::codec::{all_hex, hex_char, hex_digit, hex_val, hex_value, is_hex_char};
use crate::field::{is_int_width, ClassId, Field, FieldId, FieldKind};
use crate::registry::{has_class, ClassRegistry};
use crate::text::{char_from_code, chars_of, string_of};

verus! {

/// Why a project text cannot be loaded.
#[derive(Clone, Copy, Debug, PartialEq, Eq, Structural)]
pub enum ProjectFormatError {
    UnsupportedVersion,
    Malformed,
}

pub open spec fn pow16(n: nat) -> nat
    decreases n,
{
    if n == 0 {
        1
    } else {
        16 * pow16((n - 1) as nat)
    }
}

/// The `n` low hex digits of `v`, most significant first.
pub open spec fn hex_digits(v: nat, n: nat) -> Seq<char>
    decreases n,
{
    if n == 0 {
        Seq::empty()
    } else {
        hex_digits(v / 16, (n - 1) as nat).push(hex_char(v % 16))
    }
}

/// The number that hex digits spell, most significant first.
pub open spec fn hex_num(s: Seq<char>) -> nat
    decreases s.len(),
{
    if s.len() == 0 {
        0
    } else {
        hex_num(s.drop_last()) * 16 + hex_val(s.last())
    }
}

/// One word of a project: sixteen hex digits and a line break.
pub open spec fn word_text(w: u64) -> Seq<char> {
    hex_digits(w as nat, 16).push('\n')
}

pub open spec fn words_text(ws: Seq<u64>) -> Seq<char>
    decreases ws.len(),
{
    if ws.len() == 0 {
        Seq::empty()
    } else {
        word_text(ws[0]) + words_text(ws.drop_first())
    }
}

/// The words that a text made of word lines holds.
pub open spec fn parse_words(t: Seq<char>) -> Option<Seq<u64>>
    decreases t.len(),
{
    if t.len() == 0 {
        Some(Seq::empty())
    } else if t.len() < 17 {
        None
    } else {
        let c = t.take(16);
        if all_hex(c) && t[16] == '\n' {
            match parse_words(t.skip(17)) {
                Some(r) => Some(seq![hex_num(c) as u64] + r),
                None => None,
            }
        } else {
            None
        }
    }
}

pub open spec fn prepend(a: Seq<u64>, r: Option<Seq<u64>>) -> Option<Seq<u64>> {
    match r {
        Some(b) => Some(a + b),
        None => None,
    }
}

proof fn lemma_pow16_16()
    ensures
        pow16(16) == 0x1_0000_0000_0000_0000,
        pow16(15) == 0x1000_0000_0000_0000,
{
    reveal_with_fuel(pow16, 17);
}

proof fn lemma_pow16_mono(a: nat, b: nat)
    requires
        a <= b,
    ensures
        pow16(a) <= pow16(b),
    decreases b,
{
    if a < b {
        lemma_pow16_mono(a, (b - 1) as nat);
    }
}

proof fn lemma_hex_num_bound(s: Seq<char>)
    requires
        all_hex(s),
    ensures
        hex_num(s) < pow16(s.len()),
    decreases s.len(),
{
    if s.len() > 0 {
        let d = s.drop_last();
        assert(all_hex(d));
        lemma_hex_num_bound(d);
        assert(is_hex_char(s.last()));
        let a = hex_num(d);
        let b = hex_val(s.last());
        let p = pow16(d.len());
        assert(a * 16 + b < 16 * p) by (nonlinear_arith)
            requires a < p, b < 16;
    }
}

proof fn lemma_hex_digits(v: nat, n: nat)
    requires
        v < pow16(n),
    ensures
        hex_digits(v, n).len() == n,
        all_hex(hex_digits(v, n)),
        hex_num(hex_digits(v, n)) == v,
    decreases n,
{
    if n > 0 {
        let p = pow16((n - 1) as nat);
        assert(v / 16 < p) by (nonlinear_arith)
            requires v < 16 * p;
        lemma_hex_digits(v / 16, (n - 1) as nat);
        let h = hex_digits(v, n);
        assert(h.drop_last() =~= hex_digits(v / 16, (n - 1) as nat));
        assert(hex_val(hex_char(v % 16)) == v % 16);
        assert(v == (v / 16) * 16 + v % 16);
    }
}

/// A text of word lines reads back as the words it was written from.
pub proof fn lemma_words_round_trip(ws: Seq<u64>)
    ensures
        parse_words(words_text(ws)) == Some(ws),
    decreases ws.len(),
{
    if ws.len() == 0 {
    } else {
        lemma_pow16_16();
        lemma_hex_digits(ws[0] as nat, 16);
        let t = words_text(ws);
        let rest = words_text(ws.drop_first());
        lemma_words_round_trip(ws.drop_first());
        assert(t.take(16) =~= hex_digits(ws[0] as nat, 16));
        assert(t.skip(17) =~= rest);
        assert(seq![ws[0]] + ws.drop_first() =~= ws);
    }
}

fn push_hex_digits(v: u64, n: usize, out: &mut Vec<char>)
    ensures
        final(out)@ == old(out)@ + hex_digits(v as nat, n as nat),
    decreases n,
{
    if n > 0 {
        push_hex_digits(v / 16, n - 1, out);
        out.push(hex_digit((v % 16) as u8));
    } else {
        assert(old(out)@ + hex_digits(v as nat, 0) =~= old(out)@);
    }
}

fn push_word(w: u64, out: &mut Vec<char>)
    ensures
        final(out)@ == old(out)@ + word_text(w),
{
    push_hex_digits(w, 16, out);
    out.push('\n');
}

/// The words of a text of word lines.
pub fn read_words(t: &Vec<char>) -> (r: Option<Vec<u64>>)
    ensures
        match parse_words(t@) {
            Some(ws) => r matches Some(v) && v@ == ws,
            None => r is None,
        },
{
    let mut ws: Vec<u64> = Vec::new();
    let mut i: usize = 0;
    let n = t.len();
    assert(t@.skip(0) =~= t@);
    assert(ws@ + Seq::<u64>::empty() =~= ws@);
    while i < t.len()
        invariant
            i <= t@.len(),
            n == t@.len(),
            parse_words(t@) == prepend(ws@, parse_words(t@.skip(i as int))),
        decreases t@.len() - i,
    {
        let ghost rest = t@.skip(i as int);
        if t.len() - i < 17 {
            return None;
        }
        let mut acc: u64 = 0;
        let mut k: usize = 0;
        assert(rest.take(16).take(0) =~= Seq::<char>::empty());
        while k < 16
            invariant
                k <= 16,
                i + 17 <= t@.len(),
                n == t@.len(),
                rest == t@.skip(i as int),
                parse_words(t@) == prepend(ws@, parse_words(rest)),
                forall|j: int| 0 <= j < k ==> is_hex_char(#[trigger] rest.take(16)[j]),
                acc as nat == hex_num(rest.take(16).take(k as int)),
            decreases 16 - k,
        {
            let c = t[i + k];
            assert(c == rest.take(16)[k as int]);
            let u = c as u32;
            if !((48 <= u && u <= 57) || (65 <= u && u <= 70) || (97 <= u && u <= 102)) {
                assert(!is_hex_char(rest.take(16)[k as int]));
                assert(!all_hex(rest.take(16)));
                assert(parse_words(rest) is None);
                return None;
            }
            let ghost pre = rest.take(16).take(k as int);
            proof {
                assert(all_hex(pre));
                lemma_hex_num_bound(pre);
                lemma_pow16_mono(k as nat, 15);
                lemma_pow16_16();
                assert(acc * 16 + 15 < 0x1_0000_0000_0000_0000) by (nonlinear_arith)
                    requires acc < pow16(15), pow16(15) == 0x1000_0000_0000_0000;
                assert(rest.take(16).take(k + 1).drop_last() =~= pre);
            }
            acc = acc * 16 + hex_value(c) as u64;
            k = k + 1;
        }
        assert(rest.take(16).take(16) =~= rest.take(16));
        if t[i + 16] != '\n' {
            assert(parse_words(rest) is None);
            return None;
        }
        assert(rest.skip(17) =~= t@.skip(i + 17));
        assert(ws@.push(acc) + Seq::<u64>::empty() =~= ws@ + seq![acc]);
        proof {
            match parse_words(t@.skip(i + 17)) {
                Some(b) => {
                    assert(ws@.push(acc) + b =~= ws@ + (seq![acc] + b));
                },
                None => {},
            }
        }
        ws.push(acc);
        i = i + 17;
    }
    assert(t@.skip(i as int) =~= Seq::<char>::empty());
    assert(ws@ + Seq::<u64>::empty() =~= ws@);
    Some(ws)
}

/// The word lines for `ws`.
pub fn write_words(ws: &Vec<u64>) -> (r: Vec<char>)
    ensures
        r@ == words_text(ws@),
{
    let mut out: Vec<char> = Vec::new();
    let mut k: usize = 0;
    assert(ws@.skip(0) =~= ws@);
    assert(out@ + words_text(ws@) =~= words_text(ws@));
    while k < ws.len()
        invariant
            k <= ws@.len(),
            out@ + words_text(ws@.skip(k as int)) == words_text(ws@),
        decreases ws@.len() - k,
    {
        proof {
            let s = ws@.skip(k as int);
            assert(s.drop_first() =~= ws@.skip(k + 1));
            assert(words_text(s) == word_text(s[0]) + words_text(s.drop_first()));
        }
        let ghost before = out@;
        push_word(ws[k], &mut out);
        assert(before + (word_text(ws@[k as int]) + words_text(ws@.skip(k + 1))) =~= out@ + words_text(ws@.skip(k + 1)));
        k = k + 1;
    }
    assert(ws@.skip(k as int) =~= Seq::<u64>::empty());
    assert(out@ + Seq::<char>::empty() =~= out@);
    out
}

/// The version tag that opens every project this library writes.
pub const PROJECT_VERSION: u64 = 1;

/// What a project keeps of a field: identity, kind and name.
pub type FieldShape = (FieldId, FieldKind, Seq<char>);

/// What a project keeps of a class: identity, name and fields in order.
pub type ClassShape = (ClassId, Seq<char>, Seq<FieldShape>);

pub open spec fn field_shape(f: Field) -> FieldShape {
    (f.id, f.kind, f.name@)
}

pub open spec fn class_shape(c: Class) -> ClassShape {
    (c.id, c.name@, c.fields@.map_values(|f: Field| field_shape(f)))
}

pub open spec fn shapes_of(cs: Seq<Class>) -> Seq<ClassShape> {
    cs.map_values(|c: Class| class_shape(c))
}

pub open spec fn code(c: char) -> u64 {
    c as u32 as u64
}

pub open spec fn is_code(u: u64) -> bool {
    u <= 0xD7FF || (0xE000 <= u && u <= 0x10FFFF)
}

pub open spec fn char_of(u: u64) -> char {
    choose|c: char| #[trigger] code(c) == u
}

pub open spec fn kind_tag(k: FieldKind) -> u64 {
    match k {
        FieldKind::Hex(_) => 0,
        FieldKind::Int(_, signed) => if signed { 2 } else { 1 },
        FieldKind::Float(_) => 3,
        FieldKind::ClassPointer(_) => 4,
    }
}

pub open spec fn kind_param(k: FieldKind) -> u64 {
    match k {
        FieldKind::Hex(w) => w as u64,
        FieldKind::Int(w, _) => w as u64,
        FieldKind::Float(w) => w as u64,
        FieldKind::ClassPointer(t) => t,
    }
}

pub open spec fn ser_name(n: Seq<char>) -> Seq<u64> {
    seq![n.len() as u64] + n.map_values(|c: char| code(c))
}

pub open spec fn ser_field(f: FieldShape) -> Seq<u64> {
    seq![f.0, kind_tag(f.1), kind_param(f.1)] + ser_name(f.2)
}

pub open spec fn ser_fields(fs: Seq<FieldShape>) -> Seq<u64>
    decreases fs.len(),
{
    if fs.len() == 0 {
        Seq::empty()
    } else {
        ser_field(fs[0]) + ser_fields(fs.drop_first())
    }
}

pub open spec fn ser_class(c: ClassShape) -> Seq<u64> {
    seq![c.0] + ser_name(c.1) + seq![c.2.len() as u64] + ser_fields(c.2)
}

pub open spec fn ser_classes(cs: Seq<ClassShape>) -> Seq<u64>
    decreases cs.len(),
{
    if cs.len() == 0 {
        Seq::empty()
    } else {
        ser_class(cs[0]) + ser_classes(cs.drop_first())
    }
}

/// The words of a project: version, class count, then each class.
pub open spec fn ser_project(cs: Seq<ClassShape>) -> Seq<u64> {
    seq![PROJECT_VERSION, cs.len() as u64] + ser_classes(cs)
}

/// The text that a project of classes `cs` is stored as.
pub open spec fn store_text(cs: Seq<ClassShape>) -> Seq<char> {
    words_text(ser_project(cs))
}

pub open spec fn dec_name(ws: Seq<u64>) -> Option<(Seq<char>, Seq<u64>)> {
    if ws.len() >= 1 && ws[0] < ws.len() && (forall|i: int| 1 <= i <= ws[0] ==> is_code(#[trigger] ws[i])) {
        Some((Seq::new(ws[0] as nat, |i: int| char_of(ws[i + 1])), ws.skip(ws[0] + 1)))
    } else {
        None
    }
}

pub open spec fn dec_kind(tag: u64, p: u64) -> Option<FieldKind> {
    if tag == 0 && is_int_width(p as usize) && p <= 8 {
        Some(FieldKind::Hex(p as usize))
    } else if (tag == 1 || tag == 2) && is_int_width(p as usize) && p <= 8 {
        Some(FieldKind::Int(p as usize, tag == 2))
    } else if tag == 3 && (p == 4 || p == 8) {
        Some(FieldKind::Float(p as usize))
    } else if tag == 4 {
        Some(FieldKind::ClassPointer(p))
    } else {
        None
    }
}

pub open spec fn dec_field(ws: Seq<u64>) -> Option<(FieldShape, Seq<u64>)> {
    if ws.len() >= 3 {
        match dec_kind(ws[1], ws[2]) {
            Some(k) => match dec_name(ws.skip(3)) {
                Some((n, r)) => Some(((ws[0], k, n), r)),
                None => None,
            },
            None => None,
        }
    } else {
        None
    }
}

pub open spec fn dec_fields(ws: Seq<u64>, n: nat) -> Option<(Seq<FieldShape>, Seq<u64>)>
    decreases n,
{
    if n == 0 {
        Some((Seq::empty(), ws))
    } else {
        match dec_field(ws) {
            Some((f, r)) => match dec_fields(r, (n - 1) as nat) {
                Some((fs, r2)) => Some((seq![f] + fs, r2)),
                None => None,
            },
            None => None,
        }
    }
}

pub open spec fn dec_class(ws: Seq<u64>) -> Option<(ClassShape, Seq<u64>)> {
    if ws.len() >= 1 {
        match dec_name(ws.drop_first()) {
            Some((nm, r)) => if r.len() >= 1 {
                match dec_fields(r.drop_first(), r[0] as nat) {
                    Some((fs, r2)) => Some(((ws[0], nm, fs), r2)),
                    None => None,
                }
            } else {
                None
            },
            None => None,
        }
    } else {
        None
    }
}

pub open spec fn dec_classes(ws: Seq<u64>, n: nat) -> Option<(Seq<ClassShape>, Seq<u64>)>
    decreases n,
{
    if n == 0 {
        Some((Seq::empty(), ws))
    } else {
        match dec_class(ws) {
            Some((c, r)) => match dec_classes(r, (n - 1) as nat) {
                Some((cs, r2)) => Some((seq![c] + cs, r2)),
                None => None,
            },
            None => None,
        }
    }
}

pub open spec fn shape_widths(fs: Seq<FieldShape>) -> nat
    decreases fs.len(),
{
    if fs.len() == 0 {
        0
    } else {
        shape_widths(fs.drop_last()) + fs.last().1.width_spec()
    }
}

/// Classes that a registry can hold: distinct identities below the largest,
/// valid kinds, sizes that fit in `usize`.
pub open spec fn shapes_ok(cs: Seq<ClassShape>) -> bool {
    &&& forall|i: int, j: int| 0 <= i < cs.len() && 0 <= j < cs.len() && i != j ==> cs[i].0 != cs[j].0
    &&& forall|i: int| 0 <= i < cs.len() ==> (#[trigger] cs[i]).0 < u64::MAX
    &&& forall|i: int| 0 <= i < cs.len() ==> shape_widths((#[trigger] cs[i]).2) <= usize::MAX
    &&& forall|i: int, j: int| 0 <= i < cs.len() && 0 <= j < cs[i].2.len() ==> (#[trigger] cs[i].2[j]).1.valid()
}

/// Every count that a project writes fits in a word.
pub open spec fn shapes_fit(cs: Seq<ClassShape>) -> bool {
    &&& cs.len() <= u64::MAX
    &&& forall|i: int| 0 <= i < cs.len() ==> (#[trigger] cs[i]).1.len() <= u64::MAX && cs[i].2.len() <= u64::MAX
    &&& forall|i: int, j: int| 0 <= i < cs.len() && 0 <= j < cs[i].2.len() ==> (#[trigger] cs[i].2[j]).2.len() <= u64::MAX
}

/// What loading text `t` gives: the classes it holds, or why it holds none.
pub open spec fn parse_project(t: Seq<char>) -> Result<Seq<ClassShape>, ProjectFormatError> {
    match parse_words(t) {
        None => Err(ProjectFormatError::Malformed),
        Some(ws) => if ws.len() == 0 {
            Err(ProjectFormatError::Malformed)
        } else if ws[0] != PROJECT_VERSION {
            Err(ProjectFormatError::UnsupportedVersion)
        } else if ws.len() < 2 {
            Err(ProjectFormatError::Malformed)
        } else {
            match dec_classes(ws.skip(2), ws[1] as nat) {
                Some((cs, r)) => if r.len() == 0 && shapes_ok(cs) {
                    Ok(cs)
                } else {
                    Err(ProjectFormatError::Malformed)
                },
                None => Err(ProjectFormatError::Malformed),
            }
        },
    }
}

proof fn lemma_code(c: char)
    ensures
        is_code(code(c)),
        char_of(code(c)) == c,
{
    assert(code(c) == code(c));
}

proof fn lemma_name_round_trip(n: Seq<char>, rest: Seq<u64>)
    requires
        n.len() <= u64::MAX,
    ensures
        dec_name(ser_name(n) + rest) == Some((n, rest)),
{
    let ws = ser_name(n) + rest;
    let m = n.map_values(|c: char| code(c));
    assert(ws[0] == n.len());
    assert forall|i: int| 1 <= i <= ws[0] implies is_code(#[trigger] ws[i]) by {
        assert(ws[i] == m[i - 1]);
        lemma_code(n[i - 1]);
    }
    assert forall|i: int| 0 <= i < n.len() implies char_of(ws[i + 1]) == n[i] by {
        assert(ws[i + 1] == m[i]);
        lemma_code(n[i]);
    }
    assert(Seq::new(ws[0] as nat, |i: int| char_of(ws[i + 1])) =~= n);
    assert(ws.skip(ws[0] + 1) =~= rest);
}

proof fn lemma_kind_round_trip(k: FieldKind)
    requires
        k.valid(),
    ensures
        dec_kind(kind_tag(k), kind_param(k)) == Some(k),
{
}

proof fn lemma_fields_round_trip(fs: Seq<FieldShape>, rest: Seq<u64>)
    requires
        forall|j: int| 0 <= j < fs.len() ==> (#[trigger] fs[j]).1.valid() && fs[j].2.len() <= u64::MAX,
    ensures
        dec_fields(ser_fields(fs) + rest, fs.len()) == Some((fs, rest)),
    decreases fs.len(),
{
    if fs.len() > 0 {
        let f = fs[0];
        let tail = fs.drop_first();
        assert(forall|j: int| 0 <= j < tail.len() ==> tail[j] == fs[j + 1]);
        lemma_fields_round_trip(tail, rest);
        let after = ser_fields(tail) + rest;
        let ws = ser_fields(fs) + rest;
        assert(ws =~= seq![f.0, kind_tag(f.1), kind_param(f.1)] + (ser_name(f.2) + after));
        lemma_kind_round_trip(f.1);
        lemma_name_round_trip(f.2, after);
        assert(ws.skip(3) =~= ser_name(f.2) + after);
        assert(seq![f] + tail =~= fs);
    }
}

#[verifier::rlimit(60)]
proof fn lemma_classes_round_trip(cs: Seq<ClassShape>, rest: Seq<u64>)
    requires
        shapes_fit(cs),
        forall|i: int, j: int| 0 <= i < cs.len() && 0 <= j < cs[i].2.len() ==> (#[trigger] cs[i].2[j]).1.valid(),
    ensures
        dec_classes(ser_classes(cs) + rest, cs.len()) == Some((cs, rest)),
    decreases cs.len(),
{
    if cs.len() > 0 {
        let c = cs[0];
        let tail = cs.drop_first();
        assert(forall|i: int| 0 <= i < tail.len() ==> tail[i] == cs[i + 1]);
        assert(shapes_fit(tail)) by {
            assert(forall|i: int| 0 <= i < tail.len() ==> #[trigger] tail[i] == cs[i + 1]);
        }
        assert(forall|i: int, j: int| 0 <= i < tail.len() && 0 <= j < tail[i].2.len() ==> (#[trigger] tail[i].2[j]).1.valid()) by {
            assert forall|i: int, j: int| 0 <= i < tail.len() && 0 <= j < tail[i].2.len() implies (#[trigger] tail[i].2[j]).1.valid() by {
                assert(tail[i] == cs[i + 1]);
                assert(cs[i + 1].2[j].1.valid());
            }
        }
        lemma_classes_round_trip(tail, rest);
        let after = ser_classes(tail) + rest;
        let ws = ser_classes(cs) + rest;
        assert(cs[0] == c);
        assert(c.1.len() <= u64::MAX && c.2.len() <= u64::MAX);
        assert forall|j: int| 0 <= j < c.2.len() implies (#[trigger] c.2[j]).1.valid() && c.2[j].2.len() <= u64::MAX by {
            assert(cs[0].2[j].1.valid());
            assert(cs[0].2[j].2.len() <= u64::MAX);
        }
        lemma_fields_round_trip(c.2, after);
        let r1 = seq![c.2.len() as u64] + (ser_fields(c.2) + after);
        lemma_name_round_trip(c.1, r1);
        assert(ws =~= seq![c.0] + (ser_name(c.1) + r1));
        assert(ws.drop_first() =~= ser_name(c.1) + r1);
        assert(r1.drop_first() =~= ser_fields(c.2) + after);
        assert(seq![c] + tail =~= cs);
    }
}

/// Loading the text that a set of classes is stored as gives those classes
/// back: the same identities, names, fields in the same order, the same kinds.
/// Pointer fields are stored by target identity, so cycles need nothing more.
pub proof fn lemma_store_load(cs: Seq<ClassShape>)
    requires
        shapes_ok(cs),
        shapes_fit(cs),
    ensures
        parse_project(store_text(cs)) == Ok::<Seq<ClassShape>, ProjectFormatError>(cs),
{
    let ws = ser_project(cs);
    lemma_words_round_trip(ws);
    lemma_classes_round_trip(cs, Seq::empty());
    assert(ser_classes(cs) + Seq::<u64>::empty() =~= ser_classes(cs));
    assert(ws.skip(2) =~= ser_classes(cs));
}

proof fn lemma_ser_fields_push(fs: Seq<FieldShape>, f: FieldShape)
    ensures
        ser_fields(fs.push(f)) == ser_fields(fs) + ser_field(f),
    decreases fs.len(),
{
    assert(fs.push(f)[0] == if fs.len() == 0 { f } else { fs[0] });
    if fs.len() == 0 {
        assert(fs.push(f).drop_first() =~= Seq::<FieldShape>::empty());
        assert(ser_fields(Seq::<FieldShape>::empty()) == Seq::<u64>::empty());
        assert(ser_field(f) + Seq::<u64>::empty() =~= ser_field(f));
        assert(Seq::<u64>::empty() + ser_field(f) =~= ser_field(f));
    } else {
        lemma_ser_fields_push(fs.drop_first(), f);
        assert(fs.push(f).drop_first() =~= fs.drop_first().push(f));
        assert(ser_fields(fs.push(f)) =~= ser_fields(fs) + ser_field(f));
    }
}

proof fn lemma_ser_classes_push(cs: Seq<ClassShape>, c: ClassShape)
    ensures
        ser_classes(cs.push(c)) == ser_classes(cs) + ser_class(c),
    decreases cs.len(),
{
    assert(cs.push(c)[0] == if cs.len() == 0 { c } else { cs[0] });
    if cs.len() == 0 {
        assert(cs.push(c).drop_first() =~= Seq::<ClassShape>::empty());
        assert(ser_classes(Seq::<ClassShape>::empty()) == Seq::<u64>::empty());
        assert(ser_class(c) + Seq::<u64>::empty() =~= ser_class(c));
        assert(Seq::<u64>::empty() + ser_class(c) =~= ser_class(c));
    } else {
        lemma_ser_classes_push(cs.drop_first(), c);
        assert(cs.push(c).drop_first() =~= cs.drop_first().push(c));
        assert(ser_classes(cs.push(c)) =~= ser_classes(cs) + ser_class(c));
    }
}

fn push_name(name: &String, ws: &mut Vec<u64>)
    ensures
        final(ws)@ == old(ws)@ + ser_name(name@),
        name@.len() <= u64::MAX,
{
    let c = chars_of(name.as_str());
    let ghost start = old(ws)@;
    ws.push(c.len() as u64);
    let mut i: usize = 0;
    while i < c.len()
        invariant
            i <= c@.len(),
            c@ == name@,
            ws@ == start + seq![c@.len() as u64] + c@.take(i as int).map_values(|ch: char| code(ch)),
        decreases c@.len() - i,
    {
        ws.push(c[i] as u32 as u64);
        i = i + 1;
        assert(c@.take(i as int).map_values(|ch: char| code(ch)) =~= c@.take(i - 1).map_values(|ch: char| code(ch)).push(code(c@[i - 1])));
        assert(ws@ =~= start + seq![c@.len() as u64] + c@.take(i as int).map_values(|ch: char| code(ch)));
    }
    assert(c@.take(i as int) =~= c@);
    assert(ws@ =~= old(ws)@ + ser_name(name@));
}

fn kind_words(k: FieldKind) -> (r: (u64, u64))
    ensures
        r == (kind_tag(k), kind_param(k)),
{
    match k {
        FieldKind::Hex(w) => (0, w as u64),
        FieldKind::Int(w, signed) => (if signed { 2 } else { 1 }, w as u64),
        FieldKind::Float(w) => (3, w as u64),
        FieldKind::ClassPointer(t) => (4, t),
    }
}

fn push_class(c: &Class, ws: &mut Vec<u64>)
    ensures
        final(ws)@ == old(ws)@ + ser_class(class_shape(*c)),
        shapes_fit(seq![class_shape(*c)]),
{
    let ghost shape = class_shape(*c);
    let ghost start = old(ws)@;
    ws.push(c.id);
    push_name(&c.name, ws);
    ws.push(c.fields.len() as u64);
    let ghost mid = ws@;
    let mut i: usize = 0;
    assert(shape.2.take(0) =~= Seq::<FieldShape>::empty());
    assert(mid + ser_fields(shape.2.take(0)) =~= mid);
    while i < c.fields.len()
        invariant
            i <= c.fields@.len(),
            shape == class_shape(*c),
            ws@ == mid + ser_fields(shape.2.take(i as int)),
            forall|j: int| 0 <= j < i ==> (#[trigger] shape.2[j]).2.len() <= u64::MAX,
        decreases c.fields@.len() - i,
    {
        let f = &c.fields[i];
        let (tag, param) = kind_words(f.kind);
        let ghost before = ws@;
        ws.push(f.id);
        ws.push(tag);
        ws.push(param);
        push_name(&f.name, ws);
        proof {
            assert(shape.2[i as int] == field_shape(*f));
            assert(shape.2.take(i + 1) =~= shape.2.take(i as int).push(shape.2[i as int]));
            lemma_ser_fields_push(shape.2.take(i as int), shape.2[i as int]);
            assert(ws@ =~= before + ser_field(field_shape(*f)));
        }
        i = i + 1;
    }
    assert(shape.2.take(i as int) =~= shape.2);
    assert(ws@ =~= old(ws)@ + ser_class(shape));
}

/// The text of a project holding the classes of `reg`.
pub fn store(reg: &ClassRegistry) -> (r: String)
    requires
        reg.wf(),
    ensures
        r@ == store_text(shapes_of(reg.classes@)),
        shapes_fit(shapes_of(reg.classes@)),
{
    let ghost cs = shapes_of(reg.classes@);
    let mut ws: Vec<u64> = Vec::new();
    ws.push(PROJECT_VERSION);
    ws.push(reg.classes.len() as u64);
    let ghost head = ws@;
    let mut i: usize = 0;
    assert(cs.take(0) =~= Seq::<ClassShape>::empty());
    assert(head + ser_classes(cs.take(0)) =~= head);
    while i < reg.classes.len()
        invariant
            i <= reg.classes@.len(),
            cs == shapes_of(reg.classes@),
            head == seq![PROJECT_VERSION, reg.classes@.len() as u64],
            ws@ == head + ser_classes(cs.take(i as int)),
            forall|j: int| 0 <= j < i ==> (#[trigger] cs[j]).1.len() <= u64::MAX && cs[j].2.len() <= u64::MAX,
            forall|j: int, k: int| 0 <= j < i && 0 <= k < cs[j].2.len() ==> (#[trigger] cs[j].2[k]).2.len() <= u64::MAX,
        decreases reg.classes@.len() - i,
    {
        let ghost before = ws@;
        push_class(&reg.classes[i], &mut ws);
        proof {
            assert(cs[i as int] == class_shape(reg.classes@[i as int]));
            assert(cs.take(i + 1) =~= cs.take(i as int).push(cs[i as int]));
            lemma_ser_classes_push(cs.take(i as int), cs[i as int]);
            assert(ws@ =~= head + ser_classes(cs.take(i + 1)));
            let one = seq![cs[i as int]];
            assert(one[0] == cs[i as int]);
            assert forall|k: int| 0 <= k < cs[i as int].2.len() implies (#[trigger] cs[i as int].2[k]).2.len() <= u64::MAX by {
                assert(one[0].2[k] == cs[i as int].2[k]);
            }
        }
        i = i + 1;
    }
    assert(cs.take(i as int) =~= cs);
    let text = write_words(&ws);
    string_of(&text)
}

/// `a` placed before what a decoder returned, if it returned anything.
pub open spec fn prepend_dec<A>(a: Seq<A>, r: Option<(Seq<A>, Seq<u64>)>) -> Option<(Seq<A>, Seq<u64>)> {
    match r {
        Some((b, rest)) => Some((a + b, rest)),
        None => None,
    }
}

fn read_name(ws: &Vec<u64>, pos: usize) -> (r: Option<(String, usize)>)
    requires
        pos <= ws@.len(),
    ensures
        match dec_name(ws@.skip(pos as int)) {
            Some((n, rest)) => r matches Some((s, p)) && s@ == n && pos <= p <= ws@.len() && ws@.skip(p as int) == rest,
            None => r is None,
        },
{
    let ghost w = ws@.skip(pos as int);
    if pos >= ws.len() {
        return None;
    }
    let n = ws[pos];
    if n >= (ws.len() - pos) as u64 {
        return None;
    }
    let len = n as usize;
    let wl = ws.len();
    let mut out: Vec<char> = Vec::new();
    let mut k: usize = 0;
    while k < len
        invariant
            k <= len,
            len == w[0],
            wl == ws@.len(),
            pos + 1 + len <= ws@.len(),
            w == ws@.skip(pos as int),
            forall|j: int| 1 <= j <= k ==> is_code(#[trigger] w[j]),
            out@ == Seq::new(k as nat, |j: int| char_of(w[j + 1])),
        decreases len - k,
    {
        let u = ws[pos + 1 + k];
        assert(u == w[k + 1]);
        if u > 0x10FFFF {
            return None;
        }
        match char_from_code(u as u32) {
            Some(c) => {
                proof {
                    lemma_code(c);
                }
                out.push(c);
            },
            None => {
                return None;
            },
        }
        k = k + 1;
        assert(out@ =~= Seq::new(k as nat, |j: int| char_of(w[j + 1])));
    }
    assert(ws@.skip(pos + 1 + len) =~= w.skip(w[0] + 1));
    Some((string_of(&out), pos + 1 + len))
}

fn kind_from(tag: u64, p: u64) -> (r: Option<FieldKind>)
    ensures
        r == dec_kind(tag, p),
        r matches Some(k) ==> k.valid(),
{
    let int_width = p == 1 || p == 2 || p == 4 || p == 8;
    if tag == 0 && int_width {
        Some(FieldKind::Hex(p as usize))
    } else if (tag == 1 || tag == 2) && int_width {
        Some(FieldKind::Int(p as usize, tag == 2))
    } else if tag == 3 && (p == 4 || p == 8) {
        Some(FieldKind::Float(p as usize))
    } else if tag == 4 {
        Some(FieldKind::ClassPointer(p))
    } else {
        None
    }
}

fn read_field(ws: &Vec<u64>, pos: usize) -> (r: Option<(Field, usize)>)
    requires
        pos <= ws@.len(),
    ensures
        match dec_field(ws@.skip(pos as int)) {
            Some((f, rest)) => r matches Some((fld, p)) && field_shape(fld) == f && fld.kind.valid()
                && pos <= p <= ws@.len() && ws@.skip(p as int) == rest,
            None => r is None,
        },
{
    let ghost w = ws@.skip(pos as int);
    if ws.len() - pos < 3 {
        return None;
    }
    let id = ws[pos];
    let kind = match kind_from(ws[pos + 1], ws[pos + 2]) {
        Some(k) => k,
        None => {
            return None;
        },
    };
    assert(ws@.skip(pos + 3) =~= w.skip(3));
    match read_name(ws, pos + 3) {
        Some((name, p)) => Some((Field { id, name, kind }, p)),
        None => None,
    }
}

fn read_fields(ws: &Vec<u64>, pos: usize, n: u64) -> (r: Option<(Vec<Field>, usize)>)
    requires
        pos <= ws@.len(),
    ensures
        match dec_fields(ws@.skip(pos as int), n as nat) {
            Some((fs, rest)) => r matches Some((v, p)) && v@.map_values(|f: Field| field_shape(f)) == fs
                && (forall|j: int| 0 <= j < v@.len() ==> (#[trigger] v@[j]).kind.valid())
                && pos <= p <= ws@.len() && ws@.skip(p as int) == rest,
            None => r is None,
        },
{
    let mut v: Vec<Field> = Vec::new();
    let mut at: usize = pos;
    let mut k: u64 = 0;
    assert(v@.map_values(|f: Field| field_shape(f)) =~= Seq::<FieldShape>::empty());
    proof {
        match dec_fields(ws@.skip(pos as int), n as nat) {
            Some((b, rest)) => {
                assert(Seq::<FieldShape>::empty() + b =~= b);
            },
            None => {},
        }
    }
    while k < n
        invariant
            k <= n,
            pos <= at <= ws@.len(),
            dec_fields(ws@.skip(pos as int), n as nat) == prepend_dec(
                v@.map_values(|f: Field| field_shape(f)),
                dec_fields(ws@.skip(at as int), (n - k) as nat),
            ),
            forall|j: int| 0 <= j < v@.len() ==> (#[trigger] v@[j]).kind.valid(),
        decreases n - k,
    {
        match read_field(ws, at) {
            Some((f, p)) => {
                let ghost before = v@.map_values(|f: Field| field_shape(f));
                proof {
                    match dec_fields(ws@.skip(p as int), (n - k - 1) as nat) {
                        Some((b, rest)) => {
                            assert(before.push(field_shape(f)) + b =~= before + (seq![field_shape(f)] + b));
                        },
                        None => {},
                    }
                }
                v.push(f);
                assert(v@.map_values(|f: Field| field_shape(f)) =~= before.push(field_shape(f)));
                at = p;
            },
            None => {
                return None;
            },
        }
        k = k + 1;
    }
    proof {
        assert(v@.map_values(|f: Field| field_shape(f)) + Seq::<FieldShape>::empty() =~= v@.map_values(|f: Field| field_shape(f)));
    }
    Some((v, at))
}

fn read_class(ws: &Vec<u64>, pos: usize) -> (r: Option<(Class, usize)>)
    requires
        pos <= ws@.len(),
    ensures
        match dec_class(ws@.skip(pos as int)) {
            Some((c, rest)) => r matches Some((cls, p)) && class_shape(cls) == c
                && (forall|j: int| 0 <= j < cls.fields@.len() ==> (#[trigger] cls.fields@[j]).kind.valid())
                && pos <= p <= ws@.len() && ws@.skip(p as int) == rest,
            None => r is None,
        },
{
    let ghost w = ws@.skip(pos as int);
    if pos >= ws.len() {
        return None;
    }
    let id = ws[pos];
    assert(ws@.skip(pos + 1) =~= w.drop_first());
    let (name, p) = match read_name(ws, pos + 1) {
        Some(x) => x,
        None => {
            return None;
        },
    };
    if p >= ws.len() {
        return None;
    }
    let n = ws[p];
    assert(ws@.skip(p + 1) =~= ws@.skip(p as int).drop_first());
    match read_fields(ws, p + 1, n) {
        Some((fields, q)) => Some((Class { id, name, fields }, q)),
        None => None,
    }
}

fn read_classes(ws: &Vec<u64>, pos: usize, n: u64) -> (r: Option<(Vec<Class>, usize)>)
    requires
        pos <= ws@.len(),
    ensures
        match dec_classes(ws@.skip(pos as int), n as nat) {
            Some((cs, rest)) => r matches Some((v, p)) && shapes_of(v@) == cs
                && (forall|i: int, j: int| 0 <= i < v@.len() && 0 <= j < v@[i].fields@.len() ==> (#[trigger] v@[i].fields@[j]).kind.valid())
                && pos <= p <= ws@.len() && ws@.skip(p as int) == rest,
            None => r is None,
        },
{
    let mut v: Vec<Class> = Vec::new();
    let mut at: usize = pos;
    let mut k: u64 = 0;
    assert(shapes_of(v@) =~= Seq::<ClassShape>::empty());
    proof {
        match dec_classes(ws@.skip(pos as int), n as nat) {
            Some((b, rest)) => {
                assert(Seq::<ClassShape>::empty() + b =~= b);
            },
            None => {},
        }
    }
    while k < n
        invariant
            k <= n,
            pos <= at <= ws@.len(),
            dec_classes(ws@.skip(pos as int), n as nat) == prepend_dec(shapes_of(v@), dec_classes(ws@.skip(at as int), (n - k) as nat)),
            forall|i: int, j: int| 0 <= i < v@.len() && 0 <= j < v@[i].fields@.len() ==> (#[trigger] v@[i].fields@[j]).kind.valid(),
        decreases n - k,
    {
        match read_class(ws, at) {
            Some((c, p)) => {
                let ghost before = shapes_of(v@);
                proof {
                    match dec_classes(ws@.skip(p as int), (n - k - 1) as nat) {
                        Some((b, rest)) => {
                            assert(before.push(class_shape(c)) + b =~= before + (seq![class_shape(c)] + b));
                        },
                        None => {},
                    }
                }
                v.push(c);
                assert(shapes_of(v@) =~= before.push(class_shape(c)));
                at = p;
            },
            None => {
                return None;
            },
        }
        k = k + 1;
    }
    assert(shapes_of(v@) + Seq::<ClassShape>::empty() =~= shapes_of(v@));
    Some((v, at))
}

proof fn lemma_shape_widths(fs: Seq<Field>)
    ensures
        shape_widths(fs.map_values(|f: Field| field_shape(f))) == widths(fs),
    decreases fs.len(),
{
    if fs.len() > 0 {
        lemma_shape_widths(fs.drop_last());
        assert(fs.map_values(|f: Field| field_shape(f)).drop_last() =~= fs.drop_last().map_values(|f: Field| field_shape(f)));
    }
}

/// The classes of a well-formed registry are ones a project can hold.
pub proof fn lemma_registry_shapes_ok(reg: ClassRegistry)
    requires
        reg.wf(),
    ensures
        shapes_ok(shapes_of(reg.classes@)),
{
    let cs = shapes_of(reg.classes@);
    assert forall|i: int| 0 <= i < cs.len() implies shape_widths((#[trigger] cs[i]).2) <= usize::MAX by {
        lemma_shape_widths(reg.classes@[i].fields@);
        assert(reg.classes@[i].wf());
    }
    assert forall|i: int, j: int| 0 <= i < cs.len() && 0 <= j < cs[i].2.len() implies (#[trigger] cs[i].2[j]).1.valid() by {
        assert(reg.classes@[i].wf());
        assert(cs[i].2[j] == field_shape(reg.classes@[i].fields@[j]));
    }
    assert forall|i: int| 0 <= i < cs.len() implies (#[trigger] cs[i]).0 < u64::MAX by {
        assert(reg.classes@[i].id < reg.next_class_id);
    }
}

fn size_fits(c: &Class) -> (r: bool)
    requires
        forall|j: int| 0 <= j < c.fields@.len() ==> (#[trigger] c.fields@[j]).kind.valid(),
    ensures
        r == (widths(c.fields@) <= usize::MAX),
{
    let mut acc: u128 = 0;
    let mut i: usize = 0;
    while i < c.fields.len()
        invariant
            i <= c.fields@.len(),
            acc as nat == widths(c.fields@.take(i as int)),
            acc <= 8 * i,
            forall|j: int| 0 <= j < c.fields@.len() ==> (#[trigger] c.fields@[j]).kind.valid(),
        decreases c.fields@.len() - i,
    {
        assert(c.fields@.take(i + 1).drop_last() =~= c.fields@.take(i as int));
        assert(c.fields@[i as int].kind.valid());
        let w = c.fields[i].kind.width();
        acc = acc + w as u128;
        i = i + 1;
    }
    assert(c.fields@.take(i as int) =~= c.fields@);
    acc <= usize::MAX as u128
}

/// The registry that project text `t` holds. Fails with `UnsupportedVersion`
/// when the text opens with another version, and with `Malformed` when it is
/// no project this library could have written.
pub fn load(t: &str) -> (r: Result<ClassRegistry, ProjectFormatError>)
    ensures
        match parse_project(t@) {
            Ok(cs) => r matches Ok(reg) && reg.wf() && shapes_of(reg.classes@) == cs,
            Err(e) => r matches Err(e2) && e2 == e,
        },
{
    let c = chars_of(t);
    let ws = match read_words(&c) {
        Some(w) => w,
        None => {
            return Err(ProjectFormatError::Malformed);
        },
    };
    if ws.len() == 0 {
        return Err(ProjectFormatError::Malformed);
    }
    if ws[0] != PROJECT_VERSION {
        return Err(ProjectFormatError::UnsupportedVersion);
    }
    if ws.len() < 2 {
        return Err(ProjectFormatError::Malformed);
    }
    let (classes, p) = match read_classes(&ws, 2, ws[1]) {
        Some(x) => x,
        None => {
            return Err(ProjectFormatError::Malformed);
        },
    };
    if p != ws.len() {
        return Err(ProjectFormatError::Malformed);
    }
    let ghost cs = shapes_of(classes@);
    let mut reg = ClassRegistry::new();
    let mut i: usize = 0;
    assert(shapes_of(reg.classes@) =~= cs.take(0));
    assert(ws@.skip(p as int).len() == 0);
    assert(parse_project(t@) == if shapes_ok(cs) {
        Ok::<Seq<ClassShape>, ProjectFormatError>(cs)
    } else {
        Err(ProjectFormatError::Malformed)
    });
    while i < classes.len()
        invariant
            parse_project(t@) == if shapes_ok(cs) {
                Ok::<Seq<ClassShape>, ProjectFormatError>(cs)
            } else {
                Err(ProjectFormatError::Malformed)
            },
            i <= classes@.len(),
            cs == shapes_of(classes@),
            reg.wf(),
            shapes_of(reg.classes@) == cs.take(i as int),
            forall|a: int, j: int| 0 <= a < classes@.len() && 0 <= j < classes@[a].fields@.len() ==> (#[trigger] classes@[a].fields@[j]).kind.valid(),
        decreases classes@.len() - i,
    {
        let c = classes[i].duplicate();
        assert(class_shape(c) == cs[i as int]);
        assert(forall|j: int| 0 <= j < c.fields@.len() ==> (#[trigger] c.fields@[j]).kind.valid()) by {
            assert(forall|j: int| 0 <= j < c.fields@.len() ==> c.fields@[j] == classes@[i as int].fields@[j]);
        }
        if !size_fits(&c) {
            proof {
                lemma_shape_widths(c.fields@);
                assert(!shapes_ok(cs));
            }
            return Err(ProjectFormatError::Malformed);
        }
        let ghost before = reg.classes@;
        assert(shapes_of(before).len() == before.len());
        assert(before.len() == i);
        if !reg.insert_class(c) {
            proof {
                assert(cs[i as int].0 == c.id);
                if c.id != u64::MAX {
                    assert(has_class(before, c.id));
                    let j = choose|j: int| 0 <= j < before.len() && before[j].id == c.id;
                    assert(shapes_of(before)[j] == class_shape(before[j]));
                    assert(shapes_of(before)[j] == cs.take(i as int)[j]);
                    assert(cs.take(i as int)[j] == cs[j]);
                    assert(cs[j].0 == cs[i as int].0);
                    assert(j != i);
                }
                assert(!shapes_ok(cs));
            }
            return Err(ProjectFormatError::Malformed);
        }
        assert(shapes_of(reg.classes@) =~= cs.take(i + 1));
        i = i + 1;
    }
    assert(cs.take(i as int) =~= cs);
    proof {
        lemma_registry_shapes_ok(reg);
    }
    Ok(reg)
}

/// Storing a well-formed registry and loading the text back gives a registry
/// with the same classes: identities, names, field order, field identities and
/// kinds. This holds for classes that point at each other in cycles, and for
/// pointer fields whose target is gone.
pub proof fn lemma_registry_round_trip(reg: ClassRegistry)
    requires
        reg.wf(),
        shapes_fit(shapes_of(reg.classes@)),
    ensures
        parse_project(store_text(shapes_of(reg.classes@))) == Ok::<Seq<ClassShape>, ProjectFormatError>(
            shapes_of(reg.classes@),
        ),
{
    lemma_registry_shapes_ok(reg);
    lemma_store_load(shapes_of(reg.classes@));
}

} // verus!
