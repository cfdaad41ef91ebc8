use vstd::prelude::*;
use crate::bytes::ByteOrder;
use crate::class::{offset_spec, Class};
use crate::codec::{decode, encode, encode_spec, shows, DisplayValue, EncodeError};
use crate::field::FieldKind;
use crate::memory::MemoryAccess;
use crate::resolver::add_wrap;

verus! {

/// Why a field could not be edited.
#[derive(Clone, Copy, Debug, PartialEq, Eq, Structural)]
pub enum EditError {
    Encode(EncodeError),
    Unwritable,
}

/// The address of field `i` of `class` overlaid at `base`.
pub open spec fn field_address(class: &Class, base: u64, i: int) -> u64 {
    add_wrap(base, offset_spec(class.fields@, i) as u64)
}

/// What field `i` of `class`, overlaid at `base`, shows: `None` when its bytes
/// cannot be read.
pub fn read_field<M: MemoryAccess>(mem: &M, order: ByteOrder, base: u64, class: &Class, i: usize) -> (r: Option<DisplayValue>)
    requires
        class.wf(),
        i < class.fields@.len(),
    ensures
        r is None <==> !mem.readable(field_address(class, base, i as int), class.fields@[i as int].kind.width_spec()),
        r matches Some(v) ==> shows(
            class.fields@[i as int].kind,
            order,
            mem.bytes_at(field_address(class, base, i as int), class.fields@[i as int].kind.width_spec()),
            v,
        ),
{
    let off = class.offset(i);
    let addr = ((base as u128 + off as u128) % 0x1_0000_0000_0000_0000u128) as u64;
    let kind = class.fields[i].kind;
    assert(class.fields@[i as int].kind.valid());
    match mem.read(addr, kind.width()) {
        Some(b) => Some(decode(kind, order, &b)),
        None => None,
    }
}

/// Writes the bytes that `text` gives field `i` of `class`, overlaid at
/// `base`. Text that the field does not accept leaves memory untouched.
/// Floating-point fields are written through `encode_float_bits` instead.
pub fn write_field<M: MemoryAccess>(
    mem: &mut M,
    order: ByteOrder,
    base: u64,
    class: &Class,
    i: usize,
    text: &str,
) -> (r: Result<(), EditError>)
    requires
        class.wf(),
        i < class.fields@.len(),
        !(class.fields@[i as int].kind is Float),
    ensures
        match encode_spec(class.fields@[i as int].kind, order, text@) {
            Err(e) => r == Err::<(), EditError>(EditError::Encode(e)) && *final(mem) == *old(mem),
            Ok(b) => match r {
                Ok(_) => final(mem).readable(field_address(class, base, i as int), b.len())
                    && final(mem).bytes_at(field_address(class, base, i as int), b.len()) == b,
                Err(e) => e == EditError::Unwritable,
            },
        },
{
    let off = class.offset(i);
    let addr = ((base as u128 + off as u128) % 0x1_0000_0000_0000_0000u128) as u64;
    let kind = class.fields[i].kind;
    assert(class.fields@[i as int].kind.valid());
    match encode(kind, order, text) {
        Ok(b) => if mem.write(addr, &b) {
            Ok(())
        } else {
            Err(EditError::Unwritable)
        },
        Err(e) => Err(EditError::Encode(e)),
    }
}

} // verus!
