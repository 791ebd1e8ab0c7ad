//! A task's private heap: page blocks in `[USER_HEAP, USER_END)`, each with an
//! unmapped guard page after it, at most `HEAP_MAX_BLOCKS` blocks and
//! `HEAP_MAX_BYTES` bytes. A block is either memory the heap allocated for
//! the task or physical memory shared into it.
use vstd::prelude::*;
use crate::paging::{
    in_pages, in_user_range, mapped_entry, mapped_translation, mapping_invalid, mapping_overlaps, page_entry,
    tables_ready, tables_needed, translate,
    Space, TableMemory, PAGE, USER_END, USER_HEAP,
};

verus! {

broadcast use vstd::array::group_array_axioms;

pub const HEAP_MAX_BLOCKS: usize = 32;
pub const HEAP_MAX_BYTES: u64 = 0x100_0000;
/// Where the first block may start: one guard page into the heap range.
pub const HEAP_START: u64 = 0x80_0600_1000;

/// Physical memory for heap blocks, as the kernel provides it.
pub trait BlockMemory: TableMemory {
    /// Zeroed, page-aligned physical memory of `size` bytes, or `None`.
    fn allocate_block(&mut self, size: u64) -> Option<u64>;
    /// The block at `physical` is no longer mapped; it may be reused once
    /// cached translations are flushed.
    fn release_block(&mut self, physical: u64, size: u64);
}

#[derive(Clone, Copy, Debug, PartialEq, Eq, Structural)]
pub struct Block {
    pub address: u64,
    /// The physical memory the heap allocated for this block; `None` for
    /// shared memory that belongs to someone else.
    pub memory: Option<u64>,
    pub size: u64,
}

pub struct Heap {
    blocks: [Option<Block>; HEAP_MAX_BLOCKS],
    bytes: u64,
}

/// `[x, x + size)` and its guard page fit in the heap range beside `b`'s.
pub open spec fn clear_of(x: int, size: int, b: Block) -> bool {
    !(x < b.address + b.size + PAGE && x + size + PAGE > b.address)
}

/// A block of `size` bytes may start at `x`.
pub open spec fn fits(blocks: Seq<Option<Block>>, size: int, x: int) -> bool {
    &&& HEAP_START <= x
    &&& x + size + PAGE <= USER_END
    &&& forall|i: int| 0 <= i < blocks.len() && #[trigger] blocks[i] is Some ==> clear_of(x, size, blocks[i]->0)
}

/// `requested` bytes rounded up to whole pages (`None` past the address space).
pub open spec fn round_up(requested: u64) -> Option<u64> {
    if requested + 4095 > u64::MAX {
        None
    } else {
        Some(((requested + 4095) / 4096 * 4096) as u64)
    }
}

pub open spec fn total_bytes(blocks: Seq<Option<Block>>) -> int
    decreases blocks.len(),
{
    if blocks.len() == 0 {
        0
    } else {
        total_bytes(blocks.drop_last()) + match blocks.last() {
            Some(b) => b.size as int,
            None => 0,
        }
    }
}

/// `y` is the lowest place in the heap where a block of `size` bytes and
/// its guard page fit.
pub open spec fn lowest_fit(blocks: Seq<Option<Block>>, size: int, y: int) -> bool {
    &&& HEAP_START <= y
    &&& fits(blocks, size, y)
    &&& forall|z: int| HEAP_START <= z < y ==> !fits(blocks, size, z)
}

/// The first free slot.
pub open spec fn first_free(blocks: Seq<Option<Block>>) -> Option<int> {
    if exists|i: int| 0 <= i < blocks.len() && blocks[i] is None {
        Some(choose|i: int| 0 <= i < blocks.len() && blocks[i] is None && forall|j: int| 0 <= j < i ==> blocks[j] is Some)
    } else {
        None
    }
}

pub open spec fn is_block_at(o: Option<Block>, address: u64) -> bool {
    match o {
        Some(b) => b.address == address,
        None => false,
    }
}

/// The first slot holding the block at `address`.
pub open spec fn slot_of_block(blocks: Seq<Option<Block>>, address: u64) -> Option<int> {
    if exists|i: int| 0 <= i < blocks.len() && is_block_at(blocks[i], address) {
        Some(
            choose|i: int|
                0 <= i < blocks.len() && is_block_at(blocks[i], address) && forall|j: int|
                    0 <= j < i ==> !is_block_at(blocks[j], address),
        )
    } else {
        None
    }
}

proof fn lemma_total_update(blocks: Seq<Option<Block>>, i: int, x: Option<Block>)
    requires
        0 <= i < blocks.len(),
    ensures
        total_bytes(blocks.update(i, x)) == total_bytes(blocks) - (match blocks[i] {
            Some(b) => b.size as int,
            None => 0,
        }) + (match x {
            Some(b) => b.size as int,
            None => 0,
        }),
    decreases blocks.len(),
{
    if i == blocks.len() - 1 {
        assert(blocks.update(i, x).drop_last() =~= blocks.drop_last());
    } else {
        lemma_total_update(blocks.drop_last(), i, x);
        assert(blocks.update(i, x).drop_last() =~= blocks.drop_last().update(i, x));
    }
}

proof fn lemma_total_nonneg(blocks: Seq<Option<Block>>)
    ensures
        total_bytes(blocks) >= 0,
    decreases blocks.len(),
{
    if blocks.len() > 0 {
        lemma_total_nonneg(blocks.drop_last());
    }
}

impl View for Heap {
    type V = Seq<Option<Block>>;

    closed spec fn view(&self) -> Seq<Option<Block>> {
        self.blocks@
    }
}

impl Heap {
    /// Blocks are whole pages inside the heap range, kept apart by their
    /// guard pages, and `bytes` counts their sizes, at most `HEAP_MAX_BYTES`.
    pub closed spec fn wf(&self) -> bool {
        &&& self.bytes == total_bytes(self.blocks@)
        &&& self.bytes <= HEAP_MAX_BYTES
        &&& forall|i: int|
            0 <= i < HEAP_MAX_BLOCKS && #[trigger] self.blocks@[i] is Some ==> {
                let b = self.blocks@[i]->0;
                &&& HEAP_START <= b.address
                &&& b.address % 4096 == 0
                &&& b.size > 0
                &&& b.size % 4096 == 0
                &&& b.address + b.size + PAGE <= USER_END
            }
        &&& forall|i: int, j: int|
            0 <= i < HEAP_MAX_BLOCKS && 0 <= j < HEAP_MAX_BLOCKS && i != j && #[trigger] self.blocks@[i] is Some
                && #[trigger] self.blocks@[j] is Some ==> clear_of(
                self.blocks@[i]->0.address as int,
                self.blocks@[i]->0.size as int,
                self.blocks@[j]->0,
            )
    }

    /// The bytes the task's blocks take.
    pub closed spec fn used(&self) -> u64 {
        self.bytes
    }

    /// A task's heap stays within its limits: at most `HEAP_MAX_BLOCKS`
    /// blocks and `HEAP_MAX_BYTES` bytes, each block whole pages inside the
    /// heap's range with an unmapped guard page after it, and no two blocks
    /// closer than a guard page.
    pub proof fn law_heap_limits(&self)
        requires
            self.wf(),
        ensures
            self@.len() == HEAP_MAX_BLOCKS,
            self.used() <= HEAP_MAX_BYTES,
            forall|i: int|
                0 <= i < HEAP_MAX_BLOCKS && #[trigger] self@[i] is Some ==> {
                    let b = self@[i]->0;
                    &&& HEAP_START <= b.address
                    &&& b.address % PAGE == 0
                    &&& b.size % PAGE == 0
                    &&& b.address + b.size + PAGE <= USER_END
                },
            forall|i: int, j: int|
                0 <= i < HEAP_MAX_BLOCKS && 0 <= j < HEAP_MAX_BLOCKS && i != j && #[trigger] self@[i] is Some
                    && #[trigger] self@[j] is Some ==> clear_of(self@[i]->0.address as int, self@[i]->0.size as int, self@[j]->0),
    {
    }

    pub fn new() -> (r: Self)
        ensures
            r.wf(),
            r@ == Seq::new(HEAP_MAX_BLOCKS as nat, |_i: int| None::<Block>),
    {
        let r = Heap { blocks: [None; HEAP_MAX_BLOCKS], bytes: 0 };
        proof {
            assert(r.blocks@ =~= Seq::new(HEAP_MAX_BLOCKS as nat, |_i: int| None::<Block>));
            lemma_total_zero(r.blocks@);
        }
        r
    }

    /// The lowest address at which a block of `size` bytes and its guard
    /// page fit, or `None` when no such place is left.
    fn find_hole(&self, size: u64) -> (r: Option<u64>)
        requires
            self.wf(),
            size > 0,
        ensures
            match r {
                Some(x) => x % 4096 == 0 && fits(self@, size as int, x as int) && forall|y: int|
                    HEAP_START <= y < x ==> !fits(self@, size as int, y),
                None => forall|y: int| HEAP_START <= y ==> !fits(self@, size as int, y),
            },
    {
        let mut address: u64 = HEAP_START;
        loop
            invariant
                self.wf(),
                size > 0,
                HEAP_START <= address <= USER_END,
                address % 4096 == 0,
                forall|y: int| HEAP_START <= y < address ==> !fits(self@, size as int, y),
            decreases USER_END - address,
        {
            let end = match address.checked_add(size) {
                Some(e) => match e.checked_add(PAGE) {
                    Some(e2) => e2,
                    None => {
                        return None;
                    },
                },
                None => {
                    return None;
                },
            };
            if end > USER_END {
                return None;
            }
            let mut i: usize = 0;
            let mut found: Option<u64> = None;
            while i < HEAP_MAX_BLOCKS
                invariant_except_break
                    found is None,
                    forall|j: int| 0 <= j < i && #[trigger] self@[j] is Some ==> clear_of(address as int, size as int, self@[j]->0),
                invariant
                    self.wf(),
                    i <= HEAP_MAX_BLOCKS,
                    end == address + size + PAGE,
                    address % 4096 == 0,
                ensures
                    found is None ==> forall|j: int| 0 <= j < HEAP_MAX_BLOCKS && #[trigger] self@[j] is Some ==> clear_of(address as int, size as int, self@[j]->0),
                    found matches Some(next) ==> next > address && next % 4096 == 0 && forall|y: int| address <= y < next ==> !fits(self@, size as int, y),
                decreases HEAP_MAX_BLOCKS - i,
            {
                if let Some(b) = self.blocks[i] {
                    if address < b.address + b.size + PAGE && end > b.address {
                        proof {
                            assert(self@[i as int] is Some);
                            assert forall|y: int| address <= y < b.address + b.size + PAGE implies !fits(self@, size as int, y) by {
                                assert(self@[i as int] is Some && !clear_of(y, size as int, self@[i as int]->0));
                            }
                        }
                        found = Some(b.address + b.size + PAGE);
                        assert(found matches Some(next) && next % 4096 == 0);
                        break;
                    }
                }
                i += 1;
            }
            match found {
                None => {
                    return Some(address);
                },
                Some(next) => {
                    if next > USER_END {
                        return None;
                    }
                    address = next;
                },
            }
        }
    }
}

proof fn lemma_total_zero(blocks: Seq<Option<Block>>)
    requires
        forall|i: int| 0 <= i < blocks.len() ==> blocks[i] is None,
    ensures
        total_bytes(blocks) == 0,
    decreases blocks.len(),
{
    if blocks.len() > 0 {
        lemma_total_zero(blocks.drop_last());
    }
}


/// The block `first_free` would hold for `address`, or where it goes.
proof fn lemma_round_up(requested: u64, size: u64)
    requires
        requested + 4095 <= u64::MAX,
        size == ((requested + 4095) as u64) & !4095u64,
    ensures
        size == round_up(requested)->0,
        requested > 0 ==> size > 0,
        size % 4096 == 0,
        size >= requested,
{
    let x = (requested + 4095) as u64;
    assert(x & !4095u64 == x - x % 4096) by (bit_vector);
}

impl Heap {
    fn free_slot(&self) -> (r: Option<usize>)
        ensures
            match r {
                Some(i) => first_free(self@) == Some(i as int),
                None => first_free(self@) is None,
            },
    {
        let mut i: usize = 0;
        while i < HEAP_MAX_BLOCKS
            invariant
                i <= HEAP_MAX_BLOCKS,
                self@.len() == HEAP_MAX_BLOCKS,
                forall|j: int| 0 <= j < i ==> self@[j] is Some,
            decreases HEAP_MAX_BLOCKS - i,
        {
            if self.blocks[i].is_none() {
                proof {
                    let c = choose|c: int| 0 <= c < self@.len() && self@[c] is None && forall|j: int| 0 <= j < c ==> self@[j] is Some;
                    assert(self@[i as int] is None);
                    if c < i {
                        assert(self@[c] is Some);
                    } else if c > i {
                        assert(self@[i as int] is Some);
                    }
                }
                return Some(i);
            }
            i += 1;
        }
        None
    }

    /// Puts a block of `size` bytes at the lowest place it fits and maps it
    /// to `physical`, writable and not executable; `owned` is the memory the
    /// block owns, if any.
    fn place<M: BlockMemory>(
        &mut self,
        space: &mut Space,
        memory: &mut M,
        slot: usize,
        address: u64,
        physical: u64,
        size: u64,
        owned: bool,
    ) -> (r: bool)
        requires
            old(self).wf(),
            old(space).wf(),
            first_free(old(self)@) == Some(slot as int),
            fits(old(self)@, size as int, address as int),
            size > 0,
            size % 4096 == 0,
            address % 4096 == 0,
            size <= HEAP_MAX_BYTES - old(self).used(),
        ensures
            final(self).wf(),
            final(space).wf(),
            final(space).kernel_tables() == old(space).kernel_tables(),
            final(space)@.root == old(space)@.root,
            r ==> final(self)@ == old(self)@.update(
                slot as int,
                Some(Block { address, memory: if owned { Some(physical) } else { None }, size }),
            ) && final(self).used() == old(self).used() + size && forall|b: int|
                #[trigger] translate(final(space)@, b) == if in_pages(b, address as int, size as int) {
                    Some(mapped_translation(address, physical, true, false, b))
                } else {
                    translate(old(space)@, b)
                },
            !r ==> final(self)@ == old(self)@ && final(self).used() == old(self).used() && forall|b: int|
                #[trigger] translate(final(space)@, b) == translate(old(space)@, b),
            r ==> forall|b: int|
                in_user_range(b) ==> #[trigger] page_entry(final(space)@, b) == if in_pages(b, address as int, size as int) {
                    mapped_entry(address, physical, true, false, b)
                } else {
                    page_entry(old(space)@, b)
                },
            final(space).table_count() == tables_needed(final(space)@),
            !r ==> final(space).table_count() == old(space).table_count(),
            r ==> !mapping_overlaps(old(space)@, address, size),
            mapping_invalid(address, physical, size, true, false) ==> !r,
            !mapping_invalid(address, physical, size, true, false) && !mapping_overlaps(old(space)@, address, size)
                && tables_ready(old(space)@, address as int, size as int) ==> r,
    {
        match space.map(memory, address, physical, size, true, false) {
            Ok(()) => {},
            Err(_) => {
                return false;
            },
        }
        let block = Block { address, memory: if owned { Some(physical) } else { None }, size };
        let ghost before = self.blocks@;
        self.blocks[slot] = Some(block);
        self.bytes = self.bytes + size;
        proof {
            lemma_total_update(before, slot as int, Some(block));
            assert(before[slot as int] is None);
            assert forall|i: int, j: int|
                0 <= i < HEAP_MAX_BLOCKS && 0 <= j < HEAP_MAX_BLOCKS && i != j && #[trigger] self.blocks@[i] is Some
                    && #[trigger] self.blocks@[j] is Some implies clear_of(
                self.blocks@[i]->0.address as int,
                self.blocks@[i]->0.size as int,
                self.blocks@[j]->0,
            ) by {
                if i == slot {
                    assert(before[j] is Some);
                } else if j == slot {
                    assert(before[i] is Some);
                    assert(clear_of(address as int, size as int, before[i]->0));
                }
            }
        }
        true
    }

    /// Allocates `requested` bytes (rounded up to pages) of fresh memory for
    /// the task and maps it read-write at the lowest place in its heap where
    /// the block and a guard page fit. `None` for a zero request, a request
    /// over the byte limit, a full block table, no room, or when memory or
    /// page tables run out; then nothing has changed.
    pub fn allocate<M: BlockMemory>(&mut self, space: &mut Space, memory: &mut M, requested: u64) -> (r: Option<
        u64,
    >)
        requires
            old(self).wf(),
            old(space).wf(),
        ensures
            final(self).wf(),
            final(space).wf(),
            final(space).kernel_tables() == old(space).kernel_tables(),
            final(space)@.root == old(space)@.root,
            requested == 0 || round_up(requested) is None ==> r is None,
            round_up(requested) matches Some(size) && size > HEAP_MAX_BYTES - old(self).used() ==> r is None,
            first_free(old(self)@) is None ==> r is None,
            round_up(requested) matches Some(size) && (forall|y: int|
                HEAP_START <= y ==> !fits(old(self)@, size as int, y)) ==> r is None,
            r matches Some(x) ==> {
                let size = round_up(requested)->0;
                &&& fits(old(self)@, size as int, x as int)
                &&& forall|y: int| HEAP_START <= y < x ==> !fits(old(self)@, size as int, y)
                &&& final(self).used() == old(self).used() + size
                &&& !mapping_overlaps(old(space)@, x, size)
                &&& exists|physical: u64|
                    final(self)@ == old(self)@.update(
                        first_free(old(self)@)->0,
                        Some(Block { address: x, memory: Some(physical), size }),
                    ) && (forall|b: int|
                        #[trigger] translate(final(space)@, b) == if in_pages(b, x as int, size as int) {
                            Some(mapped_translation(x, physical, true, false, b))
                        } else {
                            translate(old(space)@, b)
                        }) && (forall|b: int|
                        in_user_range(b) ==> #[trigger] page_entry(final(space)@, b) == if in_pages(
                            b,
                            x as int,
                            size as int,
                        ) {
                            mapped_entry(x, physical, true, false, b)
                        } else {
                            page_entry(old(space)@, b)
                        })
            },
            r is None ==> final(self)@ == old(self)@ && final(self).used() == old(self).used() && forall|b: int|
                #[trigger] translate(final(space)@, b) == translate(old(space)@, b),
            r is None ==> final(space).table_count() == old(space).table_count(),
            final(space).table_count() == tables_needed(final(space)@),
    {
        let (slot, address, size) = match self.plan(requested) {
            Some(p) => p,
            None => {
                proof {
                    space.lemma_table_count();
                }
                return None;
            },
        };
        let physical = memory.allocate_block(size);
        let r = self.commit(space, memory, slot, address, size, physical);
        proof {
            if r is Some {
                let p = physical->0;
                assert(round_up(requested)->0 == size);
                assert(first_free(old(self)@)->0 == slot);
                assert(self@ == old(self)@.update(slot as int, Some(Block { address, memory: Some(p), size })) && (forall|b: int|
                    #[trigger] translate(space@, b) == if in_pages(b, address as int, size as int) {
                        Some(mapped_translation(address, p, true, false, b))
                    } else {
                        translate(old(space)@, b)
                    }) && (forall|b: int|
                    in_user_range(b) ==> #[trigger] page_entry(space@, b) == if in_pages(
                        b,
                        address as int,
                        size as int,
                    ) {
                        mapped_entry(address, p, true, false, b)
                    } else {
                        page_entry(old(space)@, b)
                    }));
            }
        }
        r
    }

    /// Where a request for `requested` bytes would go: the first free slot,
    /// the lowest place where the rounded-up block and its guard page fit,
    /// and the rounded size; `None` for a zero request, one over the byte
    /// limit, a full block table or no room.
    pub fn plan(&self, requested: u64) -> (r: Option<(usize, u64, u64)>)
        requires
            self.wf(),
        ensures
            r matches Some((slot, x, size)) ==> {
                &&& requested != 0
                &&& round_up(requested) == Some(size)
                &&& size > 0
                &&& size % 4096 == 0
                &&& x % 4096 == 0
                &&& size <= HEAP_MAX_BYTES - self.used()
                &&& first_free(self@) == Some(slot as int)
                &&& lowest_fit(self@, size as int, x as int)
            },
            r is None <==> (requested == 0 || round_up(requested) is None || round_up(requested)->0 > HEAP_MAX_BYTES
                - self.used() || first_free(self@) is None || forall|y: int|
                HEAP_START <= y ==> !fits(self@, round_up(requested)->0 as int, y)),
    {
        if requested == 0 {
            return None;
        }
        let size = match requested.checked_add(PAGE - 1) {
            Some(s) => s & !(PAGE - 1),
            None => return None,
        };
        proof {
            lemma_round_up(requested, size);
        }
        if size > HEAP_MAX_BYTES - self.bytes {
            return None;
        }
        let slot = match self.free_slot() {
            Some(i) => i,
            None => return None,
        };
        let address = match self.find_hole(size) {
            Some(a) => a,
            None => return None,
        };
        Some((slot, address, size))
    }

    /// Records a block of `size` bytes at `address` in `slot` over `physical`,
    /// the memory the heap was handed for it, and maps it read-write. `None`
    /// when no memory came, and, giving the memory back, when the mapping
    /// fails; it cannot fail for aligned memory where the range overlaps
    /// nothing and its page tables are already there.
    pub fn commit<M: BlockMemory>(
        &mut self,
        space: &mut Space,
        memory: &mut M,
        slot: usize,
        address: u64,
        size: u64,
        physical: Option<u64>,
    ) -> (r: Option<u64>)
        requires
            old(self).wf(),
            old(space).wf(),
            first_free(old(self)@) == Some(slot as int),
            lowest_fit(old(self)@, size as int, address as int),
            size > 0,
            size % 4096 == 0,
            address % 4096 == 0,
            size <= HEAP_MAX_BYTES - old(self).used(),
        ensures
            final(self).wf(),
            final(space).wf(),
            final(space).kernel_tables() == old(space).kernel_tables(),
            final(space)@.root == old(space)@.root,
            final(space).table_count() == tables_needed(final(space)@),
            physical is None ==> r is None,
            physical matches Some(p) && !mapping_invalid(address, p, size, true, false) && !mapping_overlaps(
                old(space)@,
                address,
                size,
            ) && tables_ready(old(space)@, address as int, size as int) ==> r == Some(address),
            r is None ==> final(self)@ == old(self)@ && final(self).used() == old(self).used()
                && final(space).table_count() == old(space).table_count() && forall|b: int|
                #[trigger] translate(final(space)@, b) == translate(old(space)@, b),
            r is Some ==> {
                let p = physical->0;
                &&& physical is Some
                &&& r == Some(address)
                &&& !mapping_overlaps(old(space)@, address, size)
                &&& final(self).used() == old(self).used() + size
                &&& final(self)@ == old(self)@.update(slot as int, Some(Block { address, memory: Some(p), size }))
                &&& forall|b: int|
                    #[trigger] translate(final(space)@, b) == if in_pages(b, address as int, size as int) {
                        Some(mapped_translation(address, p, true, false, b))
                    } else {
                        translate(old(space)@, b)
                    }
                &&& forall|b: int|
                    in_user_range(b) ==> #[trigger] page_entry(final(space)@, b) == if in_pages(
                        b,
                        address as int,
                        size as int,
                    ) {
                        mapped_entry(address, p, true, false, b)
                    } else {
                        page_entry(old(space)@, b)
                    }
            },
    {
        proof {
            space.lemma_table_count();
        }
        let physical = match physical {
            Some(p) => p,
            None => return None,
        };
        if self.place(space, memory, slot, address, physical, size, true) {
            Some(address)
        } else {
            memory.release_block(physical, size);
            None
        }
    }
}


impl Heap {
    /// Maps `requested` bytes (rounded up to pages) of someone else's
    /// physical memory from `physical` on, read-write, at the lowest place in
    /// the heap where it and a guard page fit. The block does not own the
    /// memory. `None` in the cases `allocate` gives it, or when `physical` is
    /// not page-aligned; then nothing has changed.
    pub fn map_shared<M: BlockMemory>(
        &mut self,
        space: &mut Space,
        memory: &mut M,
        physical: u64,
        requested: u64,
    ) -> (r: Option<u64>)
        requires
            old(self).wf(),
            old(space).wf(),
        ensures
            final(self).wf(),
            final(space).wf(),
            final(space).kernel_tables() == old(space).kernel_tables(),
            final(space)@.root == old(space)@.root,
            requested == 0 || round_up(requested) is None ==> r is None,
            round_up(requested) matches Some(size) && size > HEAP_MAX_BYTES - old(self).used() ==> r is None,
            first_free(old(self)@) is None ==> r is None,
            round_up(requested) matches Some(size) && (forall|y: int|
                HEAP_START <= y ==> !fits(old(self)@, size as int, y)) ==> r is None,
            physical % 4096 != 0 ==> r is None,
            round_up(requested) matches Some(size) && physical + size > u64::MAX ==> r is None,
            r matches Some(x) ==> {
                let size = round_up(requested)->0;
                &&& fits(old(self)@, size as int, x as int)
                &&& forall|y: int| HEAP_START <= y < x ==> !fits(old(self)@, size as int, y)
                &&& final(self).used() == old(self).used() + size
                &&& !mapping_overlaps(old(space)@, x, size)
                &&& final(self)@ == old(self)@.update(
                    first_free(old(self)@)->0,
                    Some(Block { address: x, memory: None, size }),
                )
                &&& forall|b: int|
                    #[trigger] translate(final(space)@, b) == if in_pages(b, x as int, size as int) {
                        Some(mapped_translation(x, physical, true, false, b))
                    } else {
                        translate(old(space)@, b)
                    }
                &&& forall|b: int|
                    in_user_range(b) ==> #[trigger] page_entry(final(space)@, b) == if in_pages(b, x as int, size as int) {
                        mapped_entry(x, physical, true, false, b)
                    } else {
                        page_entry(old(space)@, b)
                    }
            },
            r is None ==> final(self)@ == old(self)@ && final(self).used() == old(self).used() && forall|b: int|
                #[trigger] translate(final(space)@, b) == translate(old(space)@, b),
            r is None ==> final(space).table_count() == old(space).table_count(),
            final(space).table_count() == tables_needed(final(space)@),
            round_up(requested) matches Some(size) && requested != 0 && size <= HEAP_MAX_BYTES - old(self).used()
                && first_free(old(self)@) is Some && physical % 4096 == 0 && physical + size <= u64::MAX && (exists|y: int|
                lowest_fit(old(self)@, size as int, y) && !mapping_overlaps(old(space)@, y as u64, size)
                    && tables_ready(old(space)@, y, size as int)) ==> r is Some,
    {
        let (slot, address, size) = match self.plan(requested) {
            Some(p) => p,
            None => {
                proof {
                    space.lemma_table_count();
                }
                return None;
            },
        };
        proof {
            let y = choose|y: int|
                lowest_fit(old(self)@, size as int, y) && !mapping_overlaps(old(space)@, y as u64, size)
                    && tables_ready(old(space)@, y, size as int);
            if exists|y: int|
                lowest_fit(old(self)@, size as int, y) && !mapping_overlaps(old(space)@, y as u64, size)
                    && tables_ready(old(space)@, y, size as int) {
                if y < address {
                    assert(!fits(old(self)@, size as int, y));
                } else if y > address {
                    assert(!fits(old(self)@, size as int, address as int));
                }
                assert(y == address);
            }
        }
        if self.place(space, memory, slot, address, physical, size, false) {
            Some(address)
        } else {
            None
        }
    }

    fn find_block(&self, address: u64) -> (r: Option<usize>)
        ensures
            match r {
                Some(i) => slot_of_block(self@, address) == Some(i as int),
                None => slot_of_block(self@, address) is None,
            },
    {
        let mut i: usize = 0;
        while i < HEAP_MAX_BLOCKS
            invariant
                i <= HEAP_MAX_BLOCKS,
                self@.len() == HEAP_MAX_BLOCKS,
                forall|j: int| 0 <= j < i ==> !is_block_at(self@[j], address),
            decreases HEAP_MAX_BLOCKS - i,
        {
            let here = match self.blocks[i] {
                Some(b) => b.address == address,
                None => false,
            };
            if here {
                proof {
                    assert(is_block_at(self@[i as int], address));
                    let c = choose|c: int|
                        0 <= c < self@.len() && is_block_at(self@[c], address) && forall|j: int|
                            0 <= j < c ==> !is_block_at(self@[j], address);
                    if c < i {
                    } else if c > i {
                        assert(!is_block_at(self@[i as int], address));
                    }
                }
                return Some(i);
            }
            i += 1;
        }
        None
    }

    /// Unmaps and forgets the block that starts at `address`, handing back
    /// the memory it owns; `false`, changing nothing, when no block starts
    /// there.
    pub fn free<M: BlockMemory>(&mut self, space: &mut Space, memory: &mut M, address: u64) -> (r: bool)
        requires
            old(self).wf(),
            old(space).wf(),
        ensures
            final(self).wf(),
            final(space).wf(),
            final(space).kernel_tables() == old(space).kernel_tables(),
            final(space)@.root == old(space)@.root,
            r == slot_of_block(old(self)@, address) is Some,
            r ==> {
                let i = slot_of_block(old(self)@, address)->0;
                let b = old(self)@[i]->0;
                &&& final(self)@ == old(self)@.update(i, None)
                &&& final(self).used() == old(self).used() - b.size
                &&& forall|x: int|
                    #[trigger] translate(final(space)@, x) == if in_pages(x, address as int, b.size as int) {
                        None
                    } else {
                        translate(old(space)@, x)
                    }
            },
            !r ==> final(self)@ == old(self)@ && final(self).used() == old(self).used() && *final(space)
                == *old(space),
            final(space).table_count() == tables_needed(final(space)@),
            final(space).table_count() <= old(space).table_count(),
    {
        proof {
            space.lemma_table_count();
        }
        let slot = match self.find_block(address) {
            Some(i) => i,
            None => return false,
        };
        let block = match self.blocks[slot] {
            Some(b) => b,
            None => {
                proof {
                    assert(false);
                }
                return false;
            },
        };
        let ghost before = self.blocks@;
        self.blocks[slot] = None;
        proof {
            lemma_total_update(before, slot as int, None);
            lemma_total_nonneg(self.blocks@);
            assert(before[slot as int] is Some);
        }
        self.bytes = self.bytes - block.size;
        space.unmap(memory, block.address, block.size);
        if let Some(physical) = block.memory {
            memory.release_block(physical, block.size);
        }
        true
    }
}

/// Whether `x` lies on a page of one of the first `n` blocks.
pub open spec fn held_by(blocks: Seq<Option<Block>>, n: int, x: int) -> bool {
    exists|j: int|
        0 <= j < n && #[trigger] blocks[j] is Some && in_pages(x, blocks[j]->0.address as int, blocks[j]->0.size as int)
}

proof fn lemma_held_step(blocks: Seq<Option<Block>>, n: int, x: int)
    requires
        0 <= n,
    ensures
        held_by(blocks, n + 1, x) == (held_by(blocks, n, x) || (blocks[n] is Some && in_pages(
            x,
            blocks[n]->0.address as int,
            blocks[n]->0.size as int,
        ))),
{
    if held_by(blocks, n + 1, x) && !held_by(blocks, n, x) {
        let j = choose|j: int|
            0 <= j < n + 1 && #[trigger] blocks[j] is Some && in_pages(
                x,
                blocks[j]->0.address as int,
                blocks[j]->0.size as int,
            );
        assert(j == n);
    }
    if blocks[n] is Some && in_pages(x, blocks[n]->0.address as int, blocks[n]->0.size as int) {
        assert(blocks[n] is Some);
    }
}

impl Heap {
    /// Frees every block, handing back the memory the heap allocated for
    /// them: what ending a task does with its heap. Afterwards no block is
    /// live, no byte is in use, and no page a block held translates; the
    /// space keeps only the tables its other pages need.
    pub fn release_all<M: BlockMemory>(&mut self, space: &mut Space, memory: &mut M)
        requires
            old(self).wf(),
            old(space).wf(),
        ensures
            final(self).wf(),
            final(space).wf(),
            final(space).kernel_tables() == old(space).kernel_tables(),
            final(space)@.root == old(space)@.root,
            final(self)@ == Seq::new(HEAP_MAX_BLOCKS as nat, |_i: int| None::<Block>),
            final(self).used() == 0,
            forall|x: int|
                #[trigger] translate(final(space)@, x) == if held_by(old(self)@, HEAP_MAX_BLOCKS as int, x) {
                    None
                } else {
                    translate(old(space)@, x)
                },
            final(space).table_count() == tables_needed(final(space)@),
    {
        proof {
            space.lemma_table_count();
        }
        let ghost h0 = self@;
        let ghost v0 = space@;
        let mut i: usize = 0;
        while i < HEAP_MAX_BLOCKS
            invariant
                self.wf(),
                space.wf(),
                space.kernel_tables() == old(space).kernel_tables(),
                space@.root == old(space)@.root,
                h0 == old(self)@,
                v0 == old(space)@,
                i <= HEAP_MAX_BLOCKS,
                self@.len() == HEAP_MAX_BLOCKS,
                h0.len() == HEAP_MAX_BLOCKS,
                forall|j: int| 0 <= j < i ==> self@[j] is None,
                forall|j: int| i <= j < HEAP_MAX_BLOCKS ==> self@[j] == h0[j],
                forall|x: int|
                    #[trigger] translate(space@, x) == if held_by(h0, i as int, x) {
                        None
                    } else {
                        translate(v0, x)
                    },
                space.table_count() == tables_needed(space@),
            decreases HEAP_MAX_BLOCKS - i,
        {
            if let Some(block) = self.blocks[i] {
                let ghost before = self.blocks@;
                self.blocks[i] = None;
                proof {
                    lemma_total_update(before, i as int, None);
                    lemma_total_nonneg(self.blocks@);
                    assert(before[i as int] is Some);
                }
                self.bytes = self.bytes - block.size;
                space.unmap(memory, block.address, block.size);
                if let Some(physical) = block.memory {
                    memory.release_block(physical, block.size);
                }
            }
            proof {
                assert forall|x: int|
                    #[trigger] translate(space@, x) == if held_by(h0, i + 1, x) {
                        None
                    } else {
                        translate(v0, x)
                    } by {
                    lemma_held_step(h0, i as int, x);
                }
            }
            i += 1;
        }
        proof {
            lemma_total_zero(self.blocks@);
            assert(self@ =~= Seq::new(HEAP_MAX_BLOCKS as nat, |_i: int| None::<Block>));
        }
    }
}

/// Freeing the block an allocation just made gives the heap back as it
/// was: the same blocks in the same slots and the same bytes in use. (The
/// space's side is `paging::law_unmap_undoes_map`.)
pub proof fn law_free_undoes_allocate(h0: &Heap, h1: &Heap, h2: &Heap, address: u64, physical: u64, size: u64)
    requires
        h0.wf(),
        h1.wf(),
        h2.wf(),
        first_free(h0@) is Some,
        h1@ == h0@.update(first_free(h0@)->0, Some(Block { address, memory: Some(physical), size })),
        slot_of_block(h1@, address) is Some,
        h2@ == h1@.update(slot_of_block(h1@, address)->0, None),
    ensures
        h2@ == h0@,
        h2.used() == h0.used(),
{
    let s = first_free(h0@)->0;
    let j = slot_of_block(h1@, address)->0;
    assert(h1@[s] is Some && h1@[s]->0.address == address);
    if j != s {
        assert(h1@[j] is Some && h1@[j]->0.address == address);
        assert(h1.blocks@[j] is Some && h1.blocks@[s] is Some);
        assert(clear_of(h1@[j]->0.address as int, h1@[j]->0.size as int, h1@[s]->0));
    }
    assert(h0@[s] is None);
    assert(h2@ =~= h0@);
}

} // verus!
