use vstd::prelude::*;
use crate::field::{ClassId, Field, FieldId, FieldKind};

verus! {

/// Sum of the widths of `fs`, added up from the front.
pub open spec fn widths(fs: Seq<Field>) -> nat
    decreases fs.len(),
{
    if fs.len() == 0 {
        0
    } else {
        widths(fs.drop_last()) + fs.last().kind.width_spec()
    }
}

/// Offset of the field at index `i`: the widths of the fields before it.
pub open spec fn offset_spec(fs: Seq<Field>, i: int) -> nat {
    widths(fs.take(i))
}

/// The index of the first field of `fs` with identity `id`, if any.
pub open spec fn index_of(fs: Seq<Field>, id: FieldId) -> Option<int>
    decreases fs.len(),
{
    if fs.len() == 0 {
        None
    } else {
        match index_of(fs.drop_last(), id) {
            Some(i) => Some(i),
            None => if fs.last().id == id {
                Some(fs.len() - 1)
            } else {
                None
            },
        }
    }
}

pub proof fn lemma_widths_concat(a: Seq<Field>, b: Seq<Field>)
    ensures
        widths(a + b) == widths(a) + widths(b),
    decreases b.len(),
{
    if b.len() == 0 {
        assert(a + b =~= a);
    } else {
        lemma_widths_concat(a, b.drop_last());
        assert((a + b).drop_last() =~= a + b.drop_last());
    }
}

pub proof fn lemma_widths_prefix(fs: Seq<Field>, i: int)
    requires
        0 <= i <= fs.len(),
    ensures
        widths(fs.take(i)) <= widths(fs),
        widths(fs.take(i)) + widths(fs.subrange(i, fs.len() as int)) == widths(fs),
{
    lemma_widths_concat(fs.take(i), fs.subrange(i, fs.len() as int));
    assert(fs.take(i) + fs.subrange(i, fs.len() as int) =~= fs);
}

proof fn lemma_index_of(fs: Seq<Field>, id: FieldId)
    ensures
        match index_of(fs, id) {
            Some(i) => 0 <= i < fs.len() && fs[i].id == id && forall|j: int| 0 <= j < i ==> fs[j].id != id,
            None => forall|j: int| 0 <= j < fs.len() ==> fs[j].id != id,
        },
    decreases fs.len(),
{
    if fs.len() > 0 {
        let d = fs.drop_last();
        lemma_index_of(d, id);
        assert(forall|j: int| 0 <= j < d.len() ==> d[j] == fs[j]);
    }
}

/// A named, ordered layout of fields.
#[derive(Debug)]
pub struct Class {
    pub id: ClassId,
    pub name: String,
    pub fields: Vec<Field>,
}

impl Class {
    /// Every field has a valid kind, and the size fits in `usize`.
    pub open spec fn wf(&self) -> bool {
        &&& widths(self.fields@) <= usize::MAX
        &&& forall|i: int| 0 <= i < self.fields@.len() ==> (#[trigger] self.fields@[i]).kind.valid()
    }

    pub open spec fn size_spec(&self) -> nat {
        widths(self.fields@)
    }

    /// A class with no fields.
    pub fn new(id: ClassId, name: String) -> (r: Class)
        ensures
            r.id == id,
            r.name == name,
            r.fields@.len() == 0,
            r.size_spec() == 0,
            r.wf(),
    {
        Class { id, name, fields: Vec::new() }
    }

    pub fn duplicate(&self) -> (r: Class)
        ensures
            r.id == self.id,
            r.name == self.name,
            r.fields@ == self.fields@,
    {
        let mut fields: Vec<Field> = Vec::new();
        let mut i: usize = 0;
        while i < self.fields.len()
            invariant
                i <= self.fields@.len(),
                fields@ == self.fields@.take(i as int),
            decreases self.fields@.len() - i,
        {
            fields.push(self.fields[i].duplicate());
            i = i + 1;
            assert(fields@ =~= self.fields@.take(i as int));
        }
        assert(self.fields@.take(i as int) =~= self.fields@);
        Class { id: self.id, name: self.name.clone(), fields }
    }

    /// Offset of the field at index `i`.
    pub fn offset(&self, i: usize) -> (r: usize)
        requires
            self.wf(),
            i <= self.fields@.len(),
        ensures
            r as nat == offset_spec(self.fields@, i as int),
    {
        let mut sum: usize = 0;
        let mut j: usize = 0;
        proof {
            lemma_widths_prefix(self.fields@, i as int);
        }
        while j < i
            invariant
                j <= i <= self.fields@.len(),
                sum as nat == widths(self.fields@.take(j as int)),
                widths(self.fields@.take(i as int)) <= usize::MAX,
            decreases i - j,
        {
            proof {
                assert(self.fields@.take(j as int + 1).drop_last() =~= self.fields@.take(j as int));
                lemma_widths_prefix(self.fields@.take(i as int), j + 1);
                assert(self.fields@.take(i as int).take(j + 1) =~= self.fields@.take(j + 1));
            }
            sum = sum + self.fields[j].kind.width();
            j = j + 1;
        }
        sum
    }

    /// Total size: the sum of the widths of all fields.
    pub fn size(&self) -> (r: usize)
        requires
            self.wf(),
        ensures
            r as nat == self.size_spec(),
    {
        let r = self.offset(self.fields.len());
        proof {
            assert(self.fields@.take(self.fields@.len() as int) =~= self.fields@);
        }
        r
    }

    /// Position of the first field with identity `id`.
    pub fn find_field(&self, id: FieldId) -> (r: Option<usize>)
        ensures
            r matches Some(i) ==> index_of(self.fields@, id) == Some(i as int),
            r is None ==> index_of(self.fields@, id) is None,
    {
        let mut i: usize = 0;
        while i < self.fields.len()
            invariant
                i <= self.fields@.len(),
                index_of(self.fields@.take(i as int), id) is None,
            decreases self.fields@.len() - i,
        {
            assert(self.fields@.take(i + 1).drop_last() =~= self.fields@.take(i as int));
            if self.fields[i].id == id {
                proof {
                    lemma_index_prefix(self.fields@, id, i as int + 1);
                }
                return Some(i);
            }
            i = i + 1;
        }
        assert(self.fields@.take(i as int) =~= self.fields@);
        None
    }

    /// Inserts a field at `position`, or at the end when `position` is `None`
    /// or past the end. Fields from that position on move up by the new
    /// field's width.
    pub fn add_field(&mut self, field: Field, position: Option<usize>) -> (r: usize)
        requires
            old(self).wf(),
            field.kind.valid(),
            old(self).size_spec() + field.kind.width_spec() <= usize::MAX,
        ensures
            r == match position {
                Some(p) => if p < old(self).fields@.len() { p as int } else { old(self).fields@.len() as int },
                None => old(self).fields@.len() as int,
            },
            final(self).fields@ == old(self).fields@.insert(r as int, field),
            final(self).id == old(self).id,
            final(self).name == old(self).name,
            final(self).size_spec() == old(self).size_spec() + field.kind.width_spec(),
            final(self).wf(),
    {
        let len = self.fields.len();
        let at: usize = match position {
            Some(p) => if p < len { p } else { len },
            None => len,
        };
        let ghost old_fields = self.fields@;
        self.fields.insert(at, field);
        proof {
            lemma_insert_widths(old_fields, at as int, self.fields@[at as int]);
        }
        at
    }

    /// Removes the first field with identity `id` and returns it.
    pub fn remove_field(&mut self, id: FieldId) -> (r: Option<Field>)
        requires
            old(self).wf(),
        ensures
            final(self).id == old(self).id,
            final(self).name == old(self).name,
            final(self).wf(),
            match index_of(old(self).fields@, id) {
                Some(i) => r == Some(old(self).fields@[i])
                    && final(self).fields@ == old(self).fields@.remove(i)
                    && final(self).size_spec() + old(self).fields@[i].kind.width_spec() == old(self).size_spec(),
                None => r is None && final(self).fields@ == old(self).fields@,
            },
    {
        match self.find_field(id) {
            Some(i) => {
                let ghost old_fields = self.fields@;
                proof {
                    lemma_index_of(old_fields, id);
                    lemma_insert_widths(old_fields.remove(i as int), i as int, old_fields[i as int]);
                    assert(old_fields.remove(i as int).insert(i as int, old_fields[i as int]) =~= old_fields);
                }
                let f = self.fields.remove(i);
                Some(f)
            },
            None => None,
        }
    }

    /// Moves the first field with identity `id` to `position` (the end when
    /// past it). The size does not change.
    pub fn move_field(&mut self, id: FieldId, position: usize) -> (r: bool)
        requires
            old(self).wf(),
        ensures
            final(self).id == old(self).id,
            final(self).name == old(self).name,
            final(self).wf(),
            final(self).size_spec() == old(self).size_spec(),
            match index_of(old(self).fields@, id) {
                Some(i) => r && final(self).fields@ == old(self).fields@.remove(i).insert(
                    if position < old(self).fields@.len() - 1 { position as int } else { old(self).fields@.len() - 1 },
                    old(self).fields@[i],
                ),
                None => !r && final(self).fields@ == old(self).fields@,
            },
    {
        match self.remove_field(id) {
            Some(f) => {
                proof {
                    lemma_index_of(old(self).fields@, id);
                }
                self.add_field(f, Some(position));
                true
            },
            None => false,
        }
    }

    /// Gives the first field with identity `id` a new kind; the fields after
    /// it move by the difference of the widths.
    pub fn change_field_kind(&mut self, id: FieldId, kind: FieldKind) -> (r: bool)
        requires
            old(self).wf(),
            kind.valid(),
            old(self).size_spec() + kind.width_spec() <= usize::MAX,
        ensures
            final(self).id == old(self).id,
            final(self).name == old(self).name,
            final(self).wf(),
            match index_of(old(self).fields@, id) {
                Some(i) => r && final(self).fields@ == old(self).fields@.update(
                    i,
                    Field { kind, ..old(self).fields@[i] },
                ) && final(self).size_spec() + old(self).fields@[i].kind.width_spec()
                    == old(self).size_spec() + kind.width_spec(),
                None => !r && final(self).fields@ == old(self).fields@,
            },
    {
        match self.find_field(id) {
            Some(i) => {
                let ghost old_fields = self.fields@;
                proof {
                    lemma_index_of(old_fields, id);
                }
                let nf = Field { id: self.fields[i].id, name: self.fields[i].name.clone(), kind };
                proof {
                    let rest = old_fields.remove(i as int);
                    lemma_insert_widths(rest, i as int, old_fields[i as int]);
                    lemma_insert_widths(rest, i as int, nf);
                    assert(rest.insert(i as int, old_fields[i as int]) =~= old_fields);
                    assert(rest.insert(i as int, nf) =~= old_fields.update(i as int, nf));
                }
                self.fields.set(i, nf);
                true
            },
            None => false,
        }
    }
}

proof fn lemma_insert_widths(fs: Seq<Field>, i: int, f: Field)
    requires
        0 <= i <= fs.len(),
    ensures
        widths(fs.insert(i, f)) == widths(fs) + f.kind.width_spec(),
{
    let a = fs.take(i);
    let b = fs.subrange(i, fs.len() as int);
    assert(fs.insert(i, f) =~= (a.push(f)) + b);
    lemma_widths_concat(a.push(f), b);
    assert(a.push(f).drop_last() =~= a);
    lemma_widths_concat(a, b);
    assert(a + b =~= fs);
}

proof fn lemma_index_prefix(fs: Seq<Field>, id: FieldId, n: int)
    requires
        0 < n <= fs.len(),
        index_of(fs.take(n - 1), id) is None,
        fs[n - 1].id == id,
    ensures
        index_of(fs, id) == Some(n - 1),
    decreases fs.len(),
{
    assert(fs.take(n).drop_last() =~= fs.take(n - 1));
    if n < fs.len() {
        assert(fs.drop_last().take(n) =~= fs.take(n));
        assert(fs.drop_last().take(n - 1) =~= fs.take(n - 1));
        lemma_index_prefix(fs.drop_last(), id, n);
    }
}

/// Removing the field at index `i` moves every later field down by exactly the
/// removed field's width and leaves every earlier field where it was.
pub proof fn lemma_remove_shifts_offsets(fs: Seq<Field>, i: int, j: int)
    requires
        0 <= i < fs.len(),
        0 <= j < fs.len(),
        j != i,
    ensures
        j < i ==> offset_spec(fs.remove(i), j) == offset_spec(fs, j),
        j > i ==> offset_spec(fs.remove(i), j - 1) + fs[i].kind.width_spec() == offset_spec(fs, j),
{
    let r = fs.remove(i);
    if j < i {
        assert(r.take(j) =~= fs.take(j));
    } else {
        let a = fs.take(i);
        let b = fs.subrange(i + 1, j);
        assert(r.take(j - 1) =~= a + b);
        assert(fs.take(j) =~= a.push(fs[i]) + b);
        lemma_widths_concat(a, b);
        lemma_widths_concat(a.push(fs[i]), b);
        assert(a.push(fs[i]).drop_last() =~= a);
    }
}

} // verus!
