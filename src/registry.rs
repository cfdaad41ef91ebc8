use vstd::prelude::*;
use crate::class::Class;
use crate::field::{ClassId, FieldKind};

verus! {

/// No two classes of `cs` share an identity.
pub open spec fn ids_unique(cs: Seq<Class>) -> bool {
    forall|i: int, j: int| 0 <= i < cs.len() && 0 <= j < cs.len() && i != j ==> cs[i].id != cs[j].id
}

/// Some class of `cs` has identity `id`.
pub open spec fn has_class(cs: Seq<Class>, id: ClassId) -> bool {
    exists|i: int| 0 <= i < cs.len() && cs[i].id == id
}

/// Whether a pointer field still reaches its target.
#[derive(Clone, Copy, Debug, PartialEq, Eq, Structural)]
pub enum PointerState {
    Valid,
    Broken,
}

/// The state of a field of kind `k` in a registry holding `cs`: `None` for a
/// field that is no pointer.
pub open spec fn pointer_state_spec(cs: Seq<Class>, k: FieldKind) -> Option<PointerState> {
    match k {
        FieldKind::ClassPointer(t) => Some(
            if has_class(cs, t) {
                PointerState::Valid
            } else {
                PointerState::Broken
            },
        ),
        _ => None,
    }
}

/// Classes indexed by identity. Pointer fields name their target by identity,
/// so classes may point at each other in cycles, and a target may be missing.
#[derive(Debug)]
pub struct ClassRegistry {
    pub classes: Vec<Class>,
    pub next_class_id: u64,
}

impl ClassRegistry {
    pub open spec fn wf(&self) -> bool {
        &&& ids_unique(self.classes@)
        &&& forall|i: int| 0 <= i < self.classes@.len() ==> self.classes@[i].id < self.next_class_id
        &&& forall|i: int| 0 <= i < self.classes@.len() ==> (#[trigger] self.classes@[i]).wf()
    }

    pub fn new() -> (r: ClassRegistry)
        ensures
            r.wf(),
            r.classes@.len() == 0,
            r.next_class_id == 0,
    {
        ClassRegistry { classes: Vec::new(), next_class_id: 0 }
    }

    /// Index of the class with identity `id`.
    pub fn find(&self, id: ClassId) -> (r: Option<usize>)
        requires
            self.wf(),
        ensures
            r matches Some(i) ==> i < self.classes@.len() && self.classes@[i as int].id == id,
            r is None <==> !has_class(self.classes@, id),
    {
        let mut i: usize = 0;
        while i < self.classes.len()
            invariant
                i <= self.classes@.len(),
                forall|j: int| 0 <= j < i ==> self.classes@[j].id != id,
            decreases self.classes@.len() - i,
        {
            if self.classes[i].id == id {
                return Some(i);
            }
            i = i + 1;
        }
        None
    }

    pub fn contains(&self, id: ClassId) -> (r: bool)
        requires
            self.wf(),
        ensures
            r == has_class(self.classes@, id),
    {
        self.find(id).is_some()
    }

    /// The class with identity `id`.
    pub fn get(&self, id: ClassId) -> (r: Option<&Class>)
        requires
            self.wf(),
        ensures
            r matches Some(c) ==> c.id == id && self.classes@.contains(*c),
            r is None <==> !has_class(self.classes@, id),
    {
        match self.find(id) {
            Some(i) => Some(&self.classes[i]),
            None => None,
        }
    }

    /// Whether a field of kind `kind` reaches its target; `None` when it is no
    /// pointer.
    pub fn pointer_state(&self, kind: FieldKind) -> (r: Option<PointerState>)
        requires
            self.wf(),
        ensures
            r == pointer_state_spec(self.classes@, kind),
    {
        match kind {
            FieldKind::ClassPointer(t) => if self.contains(t) {
                Some(PointerState::Valid)
            } else {
                Some(PointerState::Broken)
            },
            _ => None,
        }
    }

    /// Adds an empty class under a fresh identity.
    pub fn create_class(&mut self, name: String) -> (r: ClassId)
        requires
            old(self).wf(),
            old(self).next_class_id < u64::MAX,
        ensures
            final(self).wf(),
            r == old(self).next_class_id,
            !has_class(old(self).classes@, r),
            final(self).next_class_id == r + 1,
            final(self).classes@.len() == old(self).classes@.len() + 1,
            final(self).classes@.take(old(self).classes@.len() as int) == old(self).classes@,
            final(self).classes@.last().id == r,
            final(self).classes@.last().name == name,
            final(self).classes@.last().fields@.len() == 0,
    {
        let id = self.next_class_id;
        let c = Class::new(id, name);
        self.classes.push(c);
        self.next_class_id = id + 1;
        assert(self.classes@.take(old(self).classes@.len() as int) =~= old(self).classes@);
        id
    }

    /// Adds `c` under its own identity. Fails, changing nothing, when that
    /// identity is taken or is the largest one.
    pub fn insert_class(&mut self, c: Class) -> (r: bool)
        requires
            old(self).wf(),
            c.wf(),
        ensures
            final(self).wf(),
            r == (!has_class(old(self).classes@, c.id) && c.id < u64::MAX),
            r ==> final(self).classes@ == old(self).classes@.push(c),
            !r ==> final(self).classes@ == old(self).classes@,
            final(self).next_class_id >= old(self).next_class_id,
    {
        if c.id == u64::MAX || self.contains(c.id) {
            return false;
        }
        if c.id >= self.next_class_id {
            self.next_class_id = c.id + 1;
        }
        self.classes.push(c);
        true
    }

    /// Puts `c` in place of the class with the same identity.
    pub fn replace_class(&mut self, c: Class) -> (r: bool)
        requires
            old(self).wf(),
            c.wf(),
        ensures
            final(self).wf(),
            r == has_class(old(self).classes@, c.id),
            final(self).next_class_id == old(self).next_class_id,
            r ==> exists|i: int|
                0 <= i < old(self).classes@.len() && old(self).classes@[i].id == c.id
                    && final(self).classes@ == old(self).classes@.update(i, c),
            !r ==> final(self).classes@ == old(self).classes@,
    {
        match self.find(c.id) {
            Some(i) => {
                self.classes.set(i, c);
                true
            },
            None => false,
        }
    }

    /// Removes the class with identity `id`. Nothing else changes: the pointer
    /// fields of other classes that name `id` stay as they are and become broken.
    pub fn delete_class(&mut self, id: ClassId) -> (r: Option<Class>)
        requires
            old(self).wf(),
        ensures
            final(self).wf(),
            !has_class(final(self).classes@, id),
            final(self).next_class_id == old(self).next_class_id,
            r is Some == has_class(old(self).classes@, id),
            match r {
                Some(c) => c.id == id && exists|i: int|
                    0 <= i < old(self).classes@.len() && old(self).classes@[i] == c
                        && final(self).classes@ == old(self).classes@.remove(i),
                None => final(self).classes@ == old(self).classes@,
            },
    {
        match self.find(id) {
            Some(i) => {
                let c = self.classes.remove(i);
                proof {
                    lemma_remove_keeps_others(old(self).classes@, i as int);
                }
                Some(c)
            },
            None => None,
        }
    }
}

/// After the class at index `i` is removed, no class has its identity, every
/// other identity is present exactly when it was, and identities stay unique.
pub proof fn lemma_remove_keeps_others(cs: Seq<Class>, i: int)
    requires
        ids_unique(cs),
        0 <= i < cs.len(),
    ensures
        ids_unique(cs.remove(i)),
        !has_class(cs.remove(i), cs[i].id),
        forall|t: ClassId| t != cs[i].id ==> has_class(cs.remove(i), t) == has_class(cs, t),
{
    let r = cs.remove(i);
    assert forall|t: ClassId| t != cs[i].id && has_class(cs, t) implies has_class(r, t) by {
        let k = choose|k: int| 0 <= k < cs.len() && cs[k].id == t;
        if k < i {
            assert(r[k] == cs[k]);
        } else {
            assert(r[k - 1] == cs[k]);
        }
    }
}

/// Deleting a class breaks exactly the pointer fields that name it: a field of
/// any remaining class that points at the deleted identity is broken, and every
/// other field keeps its state.
pub proof fn lemma_delete_breaks_references(cs: Seq<Class>, i: int, k: FieldKind)
    requires
        ids_unique(cs),
        0 <= i < cs.len(),
    ensures
        k == FieldKind::ClassPointer(cs[i].id) ==> pointer_state_spec(cs.remove(i), k) == Some(PointerState::Broken),
        k != FieldKind::ClassPointer(cs[i].id) ==> pointer_state_spec(cs.remove(i), k) == pointer_state_spec(cs, k),
{
    lemma_remove_keeps_others(cs, i);
}

} // verus!
