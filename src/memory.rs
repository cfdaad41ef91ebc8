use vstd::prelude::*;

verus! {

/// Reads and writes raw bytes at absolute addresses of an inspected address
/// space. Every access may fail; none panics.
pub trait MemoryAccess {
    /// Whether the `len` bytes at `addr` can be read. Implementations in
    /// verified code state it. The default, nothing readable, only lets a type
    /// outside verified code implement the trait; generic code here never
    /// assumes it.
    open spec fn readable(&self, addr: u64, len: nat) -> bool {
        false
    }

    /// The `len` bytes at `addr`, where readable.
    open spec fn bytes_at(&self, addr: u64, len: nat) -> Seq<u8> {
        Seq::empty()
    }

    fn read(&self, addr: u64, len: usize) -> (r: Option<Vec<u8>>)
        ensures
            r is Some <==> self.readable(addr, len as nat),
            r matches Some(b) ==> b@ == self.bytes_at(addr, len as nat) && b@.len() == len;

    fn write(&mut self, addr: u64, bytes: &Vec<u8>) -> (r: bool)
        ensures
            r ==> final(self).readable(addr, bytes@.len()) && final(self).bytes_at(addr, bytes@.len()) == bytes@;
}

/// No process attached: every read and every write fails.
#[derive(Clone, Copy, Debug)]
pub struct NoMemory;

impl MemoryAccess for NoMemory {
    open spec fn readable(&self, addr: u64, len: nat) -> bool {
        false
    }

    open spec fn bytes_at(&self, addr: u64, len: nat) -> Seq<u8> {
        Seq::empty()
    }

    fn read(&self, addr: u64, len: usize) -> (r: Option<Vec<u8>>) {
        None
    }

    fn write(&mut self, addr: u64, bytes: &Vec<u8>) -> (r: bool) {
        false
    }
}

/// A contiguous run of bytes starting at `start`.
#[derive(Debug)]
pub struct Region {
    pub start: u64,
    pub data: Vec<u8>,
}

/// Whether the `len` bytes at `addr` lie inside `r`.
pub open spec fn covers(r: Region, addr: u64, len: nat) -> bool {
    r.start <= addr && addr + len <= r.start + r.data@.len()
}

/// Index of the first region of `rs` that covers the `len` bytes at `addr`.
pub open spec fn covering(rs: Seq<Region>, addr: u64, len: nat) -> Option<int>
    decreases rs.len(),
{
    if rs.len() == 0 {
        None
    } else if covers(rs[0], addr, len) {
        Some(0)
    } else {
        match covering(rs.drop_first(), addr, len) {
            Some(i) => Some(i + 1),
            None => None,
        }
    }
}

proof fn lemma_covering(rs: Seq<Region>, addr: u64, len: nat)
    ensures
        match covering(rs, addr, len) {
            Some(i) => 0 <= i < rs.len() && covers(rs[i], addr, len)
                && forall|j: int| 0 <= j < i ==> !covers(#[trigger] rs[j], addr, len),
            None => forall|j: int| 0 <= j < rs.len() ==> !covers(#[trigger] rs[j], addr, len),
        },
    decreases rs.len(),
{
    if rs.len() > 0 {
        lemma_covering(rs.drop_first(), addr, len);
        assert(forall|j: int| 0 < j < rs.len() ==> rs[j] == rs.drop_first()[j - 1]);
    }
}

/// A fixed set of readable regions: a copy of part of an address space.
/// Where regions overlap, the first one listed answers.
#[derive(Debug)]
pub struct MemorySnapshot {
    pub regions: Vec<Region>,
}

impl MemorySnapshot {
    pub fn new() -> (r: MemorySnapshot)
        ensures
            r.regions@.len() == 0,
    {
        MemorySnapshot { regions: Vec::new() }
    }

    pub fn add_region(&mut self, start: u64, data: Vec<u8>)
        ensures
            final(self).regions@ == old(self).regions@.push(Region { start, data }),
    {
        self.regions.push(Region { start, data });
    }

    fn find_region(&self, addr: u64, len: usize) -> (r: Option<usize>)
        ensures
            r matches Some(i) ==> covering(self.regions@, addr, len as nat) == Some(i as int),
            r is None ==> covering(self.regions@, addr, len as nat) is None,
    {
        proof {
            lemma_covering(self.regions@, addr, len as nat);
        }
        let mut i: usize = 0;
        while i < self.regions.len()
            invariant
                i <= self.regions@.len(),
                forall|j: int| 0 <= j < i ==> !covers(#[trigger] self.regions@[j], addr, len as nat),
                match covering(self.regions@, addr, len as nat) {
                    Some(k) => 0 <= k < self.regions@.len() && covers(self.regions@[k], addr, len as nat)
                        && forall|j: int| 0 <= j < k ==> !covers(#[trigger] self.regions@[j], addr, len as nat),
                    None => forall|j: int| 0 <= j < self.regions@.len() ==> !covers(#[trigger] self.regions@[j], addr, len as nat),
                },
            decreases self.regions@.len() - i,
        {
            let r = &self.regions[i];
            if r.start <= addr && (addr - r.start) as u128 + len as u128 <= r.data.len() as u128 {
                assert(covers(self.regions@[i as int], addr, len as nat));
                return Some(i);
            }
            i = i + 1;
        }
        None
    }
}

impl MemoryAccess for MemorySnapshot {
    open spec fn readable(&self, addr: u64, len: nat) -> bool {
        covering(self.regions@, addr, len) is Some
    }

    open spec fn bytes_at(&self, addr: u64, len: nat) -> Seq<u8> {
        match covering(self.regions@, addr, len) {
            Some(i) => {
                let r = self.regions@[i];
                r.data@.subrange(addr - r.start, addr - r.start + len)
            },
            None => Seq::empty(),
        }
    }

    fn read(&self, addr: u64, len: usize) -> (r: Option<Vec<u8>>) {
        proof {
            lemma_covering(self.regions@, addr, len as nat);
        }
        match self.find_region(addr, len) {
            Some(i) => {
                let r = &self.regions[i];
                assert(covers(self.regions@[i as int], addr, len as nat));
                let dl = r.data.len();
                let from: usize = (addr - r.start) as usize;
                assert(from as int == addr - r.start);
                let mut out: Vec<u8> = Vec::new();
                let mut k: usize = 0;
                while k < len
                    invariant
                        k <= len,
                        from + len <= r.data@.len(),
                        dl == r.data@.len(),
                        out@ == r.data@.subrange(from as int, from + k),
                    decreases len - k,
                {
                    out.push(r.data[from + k]);
                    k = k + 1;
                    assert(out@ =~= r.data@.subrange(from as int, from + k));
                }
                Some(out)
            },
            None => None,
        }
    }

    fn write(&mut self, addr: u64, bytes: &Vec<u8>) -> (r: bool) {
        let len = bytes.len();
        proof {
            lemma_covering(self.regions@, addr, len as nat);
        }
        match self.find_region(addr, len) {
            Some(i) => {
                let ghost before = self.regions@;
                let mut region = self.regions.remove(i);
                assert(region == before[i as int]);
                assert(covers(region, addr, len as nat));
                let dl = region.data.len();
                let from: usize = (addr - region.start) as usize;
                let mut k: usize = 0;
                while k < len
                    invariant
                        k <= len,
                        len == bytes@.len(),
                        from + len <= region.data@.len(),
                        dl == region.data@.len(),
                        region.start == before[i as int].start,
                        region.data@.len() == before[i as int].data@.len(),
                        forall|j: int| 0 <= j < k ==> region.data@[from + j] == bytes@[j],
                    decreases len - k,
                {
                    region.data.set(from + k, bytes[k]);
                    k = k + 1;
                }
                self.regions.insert(i, region);
                proof {
                    let after = self.regions@;
                    assert(after =~= before.update(i as int, region));
                    lemma_covering_same_shape(before, after, addr, len as nat);
                    assert(region.data@.subrange(from as int, from + len) =~= bytes@);
                }
                true
            },
            None => false,
        }
    }
}

/// Regions with the same starts and lengths cover the same ranges.
proof fn lemma_covering_same_shape(a: Seq<Region>, b: Seq<Region>, addr: u64, len: nat)
    requires
        a.len() == b.len(),
        forall|j: int| 0 <= j < a.len() ==> a[j].start == b[j].start && a[j].data@.len() == b[j].data@.len(),
    ensures
        covering(a, addr, len) == covering(b, addr, len),
    decreases a.len(),
{
    if a.len() > 0 {
        assert(covers(a[0], addr, len) == covers(b[0], addr, len));
        lemma_covering_same_shape(a.drop_first(), b.drop_first(), addr, len);
    }
}

} // verus!
