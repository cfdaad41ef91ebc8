use vstd::prelude::*;
use crate::bytes::{read_uint, uint_of, ByteOrder};
use crate::field::POINTER_WIDTH;
use crate::memory::MemoryAccess;

verus! {

/// One hop of a pointer chain: add `offset`, then, if `dereference`, read the
/// pointer stored there.
#[derive(Clone, Copy, Debug, PartialEq, Eq, Structural)]
pub struct ChainStep {
    pub offset: u64,
    pub dereference: bool,
}

/// Where in memory a class is overlaid: a base address and a chain of hops.
#[derive(Debug)]
pub struct Selection {
    pub base: u64,
    pub steps: Vec<ChainStep>,
}

/// The outcome of walking a chain: the final address, or the index of the
/// hop whose read failed with the address it tried to read.
#[derive(Clone, Copy, Debug, PartialEq, Eq, Structural)]
pub enum Resolution {
    Resolved(u64),
    Failed { step: usize, current: u64 },
}

/// Address arithmetic wraps around at 2^64.
pub open spec fn add_wrap(a: u64, b: u64) -> u64 {
    ((a as int + b as int) % 0x1_0000_0000_0000_0000) as u64
}

/// One hop, taken from address `cur` as hop number `idx`.
pub open spec fn step_spec<M: MemoryAccess>(m: &M, o: ByteOrder, cur: u64, s: ChainStep, idx: int) -> Resolution {
    let a = add_wrap(cur, s.offset);
    if !s.dereference {
        Resolution::Resolved(a)
    } else if m.readable(a, POINTER_WIDTH as nat) {
        Resolution::Resolved(uint_of(m.bytes_at(a, POINTER_WIDTH as nat), o) as u64)
    } else {
        Resolution::Failed { step: idx as usize, current: a }
    }
}

/// The walk of `steps` from `base`, stopping at the first failed read.
pub open spec fn chain_spec<M: MemoryAccess>(m: &M, o: ByteOrder, base: u64, steps: Seq<ChainStep>) -> Resolution
    decreases steps.len(),
{
    if steps.len() == 0 {
        Resolution::Resolved(base)
    } else {
        match chain_spec(m, o, base, steps.drop_last()) {
            Resolution::Resolved(c) => step_spec(m, o, c, steps.last(), steps.len() - 1),
            f => f,
        }
    }
}

/// Walks the chain of `sel` through `mem`, reading pointers in byte order `order`.
pub fn resolve<M: MemoryAccess>(mem: &M, order: ByteOrder, sel: &Selection) -> (r: Resolution)
    ensures
        r == chain_spec(mem, order, sel.base, sel.steps@),
{
    let mut cur: u64 = sel.base;
    let mut i: usize = 0;
    assert(sel.steps@.take(0) =~= Seq::<ChainStep>::empty());
    while i < sel.steps.len()
        invariant
            i <= sel.steps@.len(),
            chain_spec(mem, order, sel.base, sel.steps@.take(i as int)) == Resolution::Resolved(cur),
        decreases sel.steps@.len() - i,
    {
        let s = sel.steps[i];
        assert(sel.steps@.take(i + 1).drop_last() =~= sel.steps@.take(i as int));
        let a = ((cur as u128 + s.offset as u128) % 0x1_0000_0000_0000_0000u128) as u64;
        if s.dereference {
            match mem.read(a, POINTER_WIDTH) {
                Some(b) => {
                    cur = read_uint(&b, order);
                },
                None => {
                    proof {
                        lemma_chain_failure(mem, order, sel.base, sel.steps@, i as int);
                    }
                    return Resolution::Failed { step: i, current: a };
                },
            }
        } else {
            cur = a;
        }
        i = i + 1;
    }
    assert(sel.steps@.take(i as int) =~= sel.steps@);
    Resolution::Resolved(cur)
}

/// A failed read at hop `i` ends the walk there: the result names hop `i` and
/// the address that hop tried to read, whatever hops follow.
pub proof fn lemma_chain_failure<M: MemoryAccess>(m: &M, o: ByteOrder, base: u64, steps: Seq<ChainStep>, i: int)
    requires
        0 <= i < steps.len(),
        chain_spec(m, o, base, steps.take(i)) is Resolved,
        step_spec(m, o, chain_spec(m, o, base, steps.take(i))->Resolved_0, steps[i], i) is Failed,
    ensures
        chain_spec(m, o, base, steps) == step_spec(m, o, chain_spec(m, o, base, steps.take(i))->Resolved_0, steps[i], i),
        chain_spec(m, o, base, steps) == (Resolution::Failed {
            step: i as usize,
            current: add_wrap(chain_spec(m, o, base, steps.take(i))->Resolved_0, steps[i].offset),
        }),
    decreases steps.len(),
{
    if steps.len() == i + 1 {
        assert(steps.drop_last() =~= steps.take(i));
    } else {
        let d = steps.drop_last();
        assert(d.take(i) =~= steps.take(i));
        lemma_chain_failure(m, o, base, d, i);
    }
}

} // verus!
