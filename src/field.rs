use vstd::prelude::*;

verus! {

/// Identity of a field, unique for the lifetime of the allocator that made it.
pub type FieldId = u64;

/// Stable identity of a class, kept across save and load.
pub type ClassId = u64;

/// Width in bytes of a pointer in the inspected process.
pub const POINTER_WIDTH: usize = 8;

/// The closed set of field kinds.
///
/// `Hex(w)` and `Int(w, signed)` take `w` in {1, 2, 4, 8}; `Float(w)` takes `w` in {4, 8};
/// `ClassPointer(target)` is a pointer-wide field that names the class it points to.
#[derive(Clone, Copy, Debug, PartialEq, Eq, Structural)]
pub enum FieldKind {
    Hex(usize),
    Int(usize, bool),
    Float(usize),
    ClassPointer(ClassId),
}

pub open spec fn is_int_width(w: usize) -> bool {
    w == 1 || w == 2 || w == 4 || w == 8
}

impl FieldKind {
    /// A kind whose width is one that the codec supports.
    pub open spec fn valid(self) -> bool {
        match self {
            FieldKind::Hex(w) => is_int_width(w),
            FieldKind::Int(w, _) => is_int_width(w),
            FieldKind::Float(w) => w == 4 || w == 8,
            FieldKind::ClassPointer(_) => true,
        }
    }

    pub open spec fn width_spec(self) -> nat {
        match self {
            FieldKind::Hex(w) => w as nat,
            FieldKind::Int(w, _) => w as nat,
            FieldKind::Float(w) => w as nat,
            FieldKind::ClassPointer(_) => POINTER_WIDTH as nat,
        }
    }

    /// The number of bytes a field of this kind covers.
    pub fn width(&self) -> (r: usize)
        ensures
            r as nat == self.width_spec(),
    {
        match self {
            FieldKind::Hex(w) => *w,
            FieldKind::Int(w, _) => *w,
            FieldKind::Float(w) => *w,
            FieldKind::ClassPointer(_) => POINTER_WIDTH,
        }
    }
}

/// One named, typed slot of a class. Its offset is not stored: it follows from
/// the widths of the fields before it.
#[derive(Debug)]
pub struct Field {
    pub id: FieldId,
    pub name: String,
    pub kind: FieldKind,
}

impl Field {
    pub fn duplicate(&self) -> (r: Field)
        ensures
            r == *self,
    {
        Field { id: self.id, name: self.name.clone(), kind: self.kind }
    }
}

/// What the view of a field reports back to its class.
#[derive(Debug, PartialEq, Eq, Structural)]
pub enum FieldResponse {
    Selected(FieldId),
}

/// Editing state of a field's name.
#[derive(Debug)]
pub struct NamedState {
    pub editing: bool,
    pub request_focus: bool,
    pub name: String,
}

impl NamedState {
    pub fn new(name: String) -> (r: NamedState)
        ensures
            r.name == name,
            !r.editing,
            !r.request_focus,
    {
        NamedState { editing: false, request_focus: false, name }
    }
}

/// Hands out field identities from a single counter; none is handed out twice.
#[derive(Debug)]
pub struct IdAllocator {
    pub next: u64,
}

impl IdAllocator {
    pub fn new() -> (r: IdAllocator)
        ensures
            r.next == 0,
    {
        IdAllocator { next: 0 }
    }
}

/// The next unused identity. Every identity handed out before is smaller than
/// every one handed out after.
pub fn next_id(alloc: &mut IdAllocator) -> (r: FieldId)
    requires
        old(alloc).next < u64::MAX,
    ensures
        r == old(alloc).next,
        final(alloc).next == old(alloc).next + 1,
{
    let r = alloc.next;
    alloc.next = alloc.next + 1;
    r
}

} // verus!
