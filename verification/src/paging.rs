//! A user address space: four-level x86-64 page tables. User mappings live
//! in `[USER_IMAGE, USER_END)`; every `Space` keeps the kernel's supervisor
//! tables at root entry 0. Table frames come from, and are written to, a
//! [`TableMemory`] supplied by the caller (the physical memory the CPU walks).
//! Addresses are 64-bit, as on the machine.
use vstd::prelude::*;

verus! {

pub const PAGE: u64 = 4096;
pub const USER_IMAGE: u64 = 0x80_0000_0000;
pub const USER_STACK: u64 = 0x80_0100_1000;
pub const USER_SCREEN: u64 = 0x80_0200_0000;
pub const USER_INFO: u64 = 0x80_0400_0000;
pub const USER_MAILBOX: u64 = 0x80_0400_1000;
pub const USER_EXIT: u64 = 0x80_0500_0000;
pub const USER_HEAP: u64 = 0x80_0600_0000;
pub const USER_END: u64 = 0x80_0800_0000;
pub const PRESENT: u64 = 1;
pub const WRITE: u64 = 2;
pub const USER: u64 = 4;
pub const NX: u64 = 0x8000_0000_0000_0000;
pub const ADDRESS: u64 = 0x000f_ffff_ffff_f000;
/// Most page tables one space may own, the root included.
pub const MAX_TABLES: usize = 32;

/// Physical memory for page tables, as the kernel provides it.
pub trait TableMemory {
    /// A zeroed 4 KiB frame for a new table, or `None` when out of memory.
    fn allocate_table(&mut self) -> Option<u64>;
    /// Entry `index` of the table in `frame` now holds `value`.
    fn write_entry(&mut self, frame: u64, index: usize, value: u64);
    /// The table in `frame` is no longer referenced; it may be reused once
    /// the translations cached from it are flushed.
    fn retire_table(&mut self, frame: u64);
}

pub open spec fn in_user_range(a: int) -> bool {
    USER_IMAGE <= a < USER_END
}

/// The index into the table of level `level` (0 = root) for address `a`.
pub open spec fn index_at(a: int, level: int) -> int {
    if level == 0 {
        a / 0x80_0000_0000 % 512
    } else if level == 1 {
        a / 0x4000_0000 % 512
    } else if level == 2 {
        a / 0x20_0000 % 512
    } else {
        a / 0x1000 % 512
    }
}

pub open spec fn frame_of(e: u64) -> u64 {
    e & ADDRESS
}

/// Present and user-accessible: the walk may go on through this entry.
pub open spec fn walkable(e: u64) -> bool {
    e & 5 == 5
}

pub open spec fn present(e: u64) -> bool {
    e & 1 != 0
}

/// An entry referencing the table in `frame`, open to user accesses.
pub open spec fn table_entry(frame: u64) -> u64 {
    frame | 7
}

/// The entry mapping a user page at `physical`.
pub open spec fn leaf_entry(physical: u64, writable: bool, executable: bool) -> u64 {
    physical | PRESENT | USER | (if writable {
        WRITE
    } else {
        0
    }) | (if executable {
        0
    } else {
        NX
    })
}

/// A frame a table can live in: 4 KiB-aligned and addressable by an entry.
pub open spec fn frame_ok(f: u64) -> bool {
    f % 4096 == 0 && f <= ADDRESS
}

/// The page tables by frame, and the root's frame.
pub struct PtView {
    pub root: u64,
    pub tables: Map<u64, Seq<u64>>,
}

/// The table reached through entry `k` of the table in `f`, if the walk may go on.
pub open spec fn next_table(v: PtView, f: u64, k: int) -> Option<u64> {
    let e = v.tables[f][k];
    if walkable(e) && v.tables.dom().contains(frame_of(e)) {
        Some(frame_of(e))
    } else {
        None
    }
}

/// The leaf table on the way to `a`.
pub open spec fn leaf_table(v: PtView, a: int) -> Option<u64> {
    match next_table(v, v.root, index_at(a, 0)) {
        None => None,
        Some(p) => match next_table(v, p, index_at(a, 1)) {
            None => None,
            Some(d) => next_table(v, d, index_at(a, 2)),
        },
    }
}

/// The physical address a user access to `a` reaches, or `None` when it faults.
pub open spec fn translate(v: PtView, a: int) -> Option<u64> {
    if !in_user_range(a) {
        None
    } else {
        match leaf_table(v, a) {
            None => None,
            Some(t) => {
                let e = v.tables[t][index_at(a, 3)];
                if walkable(e) {
                    Some((frame_of(e) + a % 4096) as u64)
                } else {
                    None
                }
            },
        }
    }
}

/// The PDPT referenced by root entry 1 (where all user addresses start).
pub open spec fn pdpt_of(v: PtView) -> Option<u64> {
    if v.tables[v.root][1] != 0 {
        Some(frame_of(v.tables[v.root][1]))
    } else {
        None
    }
}

/// The page directory covering the user range.
pub open spec fn pd_of(v: PtView) -> Option<u64> {
    match pdpt_of(v) {
        Some(p) => if v.tables[p][0] != 0 {
            Some(frame_of(v.tables[p][0]))
        } else {
            None
        },
        None => None,
    }
}

/// The page table of 2 MiB slot `k` of the user range.
pub open spec fn pt_of(v: PtView, k: int) -> Option<u64> {
    match pd_of(v) {
        Some(d) => if v.tables[d][k] != 0 {
            Some(frame_of(v.tables[d][k]))
        } else {
            None
        },
        None => None,
    }
}

pub open spec fn zero_except(t: Seq<u64>, keep: spec_fn(int) -> bool) -> bool {
    forall|k: int| 0 <= k < 512 && !keep(k) ==> t[k] == 0
}

/// The shape of every space between operations on single pages: root entry 0
/// holds the kernel's tables, the user range hangs off root entry 1 through one
/// PDPT and one page directory (slots 0..64), each referenced table is owned
/// and referenced once, and every owned table is referenced.
pub open spec fn layout_loose(v: PtView, kernel: u64) -> bool {
    &&& v.tables.dom().contains(v.root)
    &&& forall|f: u64| #[trigger] v.tables.dom().contains(f) ==> v.tables[f].len() == 512 && frame_ok(f)
    &&& v.tables[v.root][0] == kernel | 3
    &&& zero_except(v.tables[v.root], |k: int| k == 0 || k == 1)
    &&& match pdpt_of(v) {
        None => v.tables.dom() == set![v.root],
        Some(p) => {
            &&& v.tables[v.root][1] == table_entry(p)
            &&& v.tables.dom().contains(p)
            &&& p != v.root
            &&& zero_except(v.tables[p], |k: int| k == 0)
            &&& match pd_of(v) {
                None => v.tables.dom() == set![v.root, p],
                Some(d) => {
                    &&& v.tables[p][0] == table_entry(d)
                    &&& v.tables.dom().contains(d)
                    &&& d != v.root && d != p
                    &&& zero_except(v.tables[d], |k: int| k < 64)
                    &&& (forall|k: int|
                        #![trigger pt_of(v, k)]
                        0 <= k < 64 && pt_of(v, k) is Some ==> {
                            let t = pt_of(v, k)->0;
                            &&& v.tables[d][k] == table_entry(t)
                            &&& v.tables.dom().contains(t)
                            &&& t != v.root && t != p && t != d
                            &&& forall|j: int|
                                0 <= j < 512 ==> #[trigger] v.tables[t][j] == 0 || walkable(v.tables[t][j])
                        })
                    &&& (forall|k1: int, k2: int|
                        #![trigger pt_of(v, k1), pt_of(v, k2)]
                        0 <= k1 < 64 && 0 <= k2 < 64 && k1 != k2 && pt_of(v, k1) is Some ==> pt_of(v, k1)
                            != pt_of(v, k2))
                    &&& (forall|f: u64|
                        #[trigger] v.tables.dom().contains(f) ==> f == v.root || f == p || f == d || exists|
                            k: int,
                        | 0 <= k < 64 && pt_of(v, k) == Some(f))
                },
            }
        },
    }
}

pub open spec fn nonempty(t: Seq<u64>) -> bool {
    exists|j: int| 0 <= j < 512 && t[j] != 0
}

/// The shape every space keeps between operations: no owned table but the
/// root is empty.
pub open spec fn layout_ok(v: PtView, kernel: u64) -> bool {
    &&& layout_loose(v, kernel)
    &&& pdpt_of(v) is Some ==> pd_of(v) is Some
    &&& pd_of(v) matches Some(d) ==> nonempty(v.tables[d])
    &&& forall|k: int| 0 <= k < 64 && #[trigger] pt_of(v, k) is Some ==> nonempty(v.tables[pt_of(v, k)->0])
}

/// The 2 MiB slot of the user range that holds `a`.
pub open spec fn slot(a: int) -> int {
    index_at(a, 2)
}

/// The leaf entry for `a`, or 0 where there is no page table for it.
pub open spec fn page_entry(v: PtView, a: int) -> u64 {
    match pt_of(v, slot(a)) {
        Some(t) => v.tables[t][index_at(a, 3)],
        None => 0,
    }
}

/// Where the user range sits in the tables.
proof fn lemma_user_indices(a: int)
    requires
        in_user_range(a),
    ensures
        index_at(a, 0) == 1,
        index_at(a, 1) == 0,
        0 <= slot(a) < 64,
        slot(a) == (a - USER_IMAGE) / 0x20_0000,
        0 <= index_at(a, 3) < 512,
{
}

/// In a space of this shape, an access to a user address is decided by its
/// leaf entry alone.
proof fn lemma_translate_layout(v: PtView, kernel: u64, a: int)
    requires
        layout_loose(v, kernel),
        in_user_range(a),
    ensures
        translate(v, a) == (if walkable(page_entry(v, a)) {
            Some((frame_of(page_entry(v, a)) + a % 4096) as u64)
        } else {
            None::<u64>
        }),
{
    lemma_user_indices(a);
    lemma_entry_bits(0, 0, false, false);
    match pdpt_of(v) {
        None => {},
        Some(p) => {
            lemma_entry_bits(p, 0, false, false);
            match pd_of(v) {
                None => {},
                Some(d) => {
                    lemma_entry_bits(d, 0, false, false);
                    match pt_of(v, slot(a)) {
                        None => {},
                        Some(t) => {
                            lemma_entry_bits(t, 0, false, false);
                        },
                    }
                },
            }
        },
    }
}

/// The shape of a space in the middle of an operation on the pages of the
/// 2 MiB slots in `slots`: the PDPT, the page directory and the page tables
/// of those slots may be empty.
pub open spec fn layout_within(v: PtView, kernel: u64, slots: Set<int>) -> bool {
    &&& layout_loose(v, kernel)
    &&& (pdpt_of(v) is Some && pd_of(v) is None) ==> !slots.is_empty()
    &&& (pd_of(v) matches Some(d) && !nonempty(v.tables[d])) ==> !slots.is_empty()
    &&& forall|k: int|
        0 <= k < 64 && #[trigger] pt_of(v, k) is Some && !nonempty(v.tables[pt_of(v, k)->0]) ==> slots.contains(k)
}

proof fn lemma_within_empty(v: PtView, kernel: u64)
    ensures
        layout_within(v, kernel, Set::empty()) <==> layout_ok(v, kernel),
{
}

proof fn lemma_within_grow(v: PtView, kernel: u64, s1: Set<int>, s2: Set<int>)
    requires
        layout_within(v, kernel, s1),
        s1.subset_of(s2),
    ensures
        layout_within(v, kernel, s2),
{
    if !s1.is_empty() {
        let x = s1.choose();
        assert(s2.contains(x));
    }
}

/// Two user addresses share a leaf entry exactly when they share a page.
proof fn lemma_same_page(a: int, b: int)
    requires
        in_user_range(a),
        in_user_range(b),
    ensures
        (a / 4096 == b / 4096) <==> (slot(a) == slot(b) && index_at(a, 3) == index_at(b, 3)),
{
}

/// The 2 MiB slots of the user range in which some page is mapped.
pub open spec fn used_slots(v: PtView) -> Set<int> {
    Set::new(|k: int| 0 <= k < 64 && exists|b: int| slot(b) == k && #[trigger] translate(v, b) is Some)
}

/// The tables a space needs for the pages it maps: the root alone while it
/// maps none, otherwise the root, the PDPT, the page directory and one page
/// table for each slot in use.
pub open spec fn tables_needed(v: PtView) -> nat {
    tables_for(used_slots(v))
}

/// The tables for pages in the 2 MiB slots `slots`: the root alone for
/// none, otherwise the root, the PDPT, the page directory and one page
/// table per slot.
pub open spec fn tables_for(slots: Set<int>) -> nat {
    if slots.is_empty() {
        1
    } else {
        3 + slots.len()
    }
}

/// In a space of the kept shape, slot `k` has a page table exactly when some
/// page in it is mapped.
proof fn lemma_pt_used(v: PtView, kernel: u64, k: int)
    requires
        layout_ok(v, kernel),
        0 <= k < 64,
    ensures
        pt_of(v, k) is Some <==> used_slots(v).contains(k),
{
    lemma_entry_bits(0, 0, false, false);
    if used_slots(v).contains(k) {
        let b = choose|b: int| slot(b) == k && #[trigger] translate(v, b) is Some;
        lemma_translate_layout(v, kernel, b);
    }
    if let Some(t) = pt_of(v, k) {
        let j = choose|j: int| 0 <= j < 512 && v.tables[t][j] != 0;
        assert(v.tables[t][j] == 0 || walkable(v.tables[t][j]));
        let b = USER_IMAGE + k * 0x20_0000 + j * 4096;
        assert(in_user_range(b));
        assert(slot(b) == k && index_at(b, 3) == j) by (nonlinear_arith)
            requires
                b == 0x80_0000_0000 + k * 0x20_0000 + j * 4096,
                0 <= k < 64,
                0 <= j < 512,
        ;
        lemma_translate_layout(v, kernel, b);
        assert(translate(v, b) is Some);
    }
}

/// The tables of a space of the kept shape are exactly those its mapped
/// pages need.
proof fn lemma_tables_needed(v: PtView, kernel: u64)
    requires
        layout_ok(v, kernel),
        v.tables.dom().finite(),
    ensures
        v.tables.dom().len() == tables_needed(v),
{
    let u = used_slots(v);
    vstd::set_lib::lemma_int_range(0, 64);
    assert(u.subset_of(vstd::set_lib::set_int_range(0, 64)));
    vstd::set_lib::lemma_len_subset(u, vstd::set_lib::set_int_range(0, 64));
    assert forall|k: int| 0 <= k < 64 implies (#[trigger] pt_of(v, k) is Some <==> u.contains(k)) by {
        lemma_pt_used(v, kernel, k);
    }
    match pdpt_of(v) {
        None => {
            assert forall|k: int| !u.contains(k) by {
                if 0 <= k < 64 {
                    assert(pt_of(v, k) is None);
                }
            }
            assert(u =~= Set::empty());
            assert(v.tables.dom() =~= set![v.root]);
        },
        Some(p) => {
            let d = pd_of(v)->0;
            let j = choose|j: int| 0 <= j < 512 && v.tables[d][j] != 0;
            assert(pt_of(v, j) is Some);
            assert(u.contains(j));
            let f = |k: int| pt_of(v, k)->0;
            let pts = u.map(f);
            assert(vstd::relations::injective_on(f, u)) by {
                assert forall|k1: int, k2: int| u.contains(k1) && u.contains(k2) && #[trigger] f(k1) == #[trigger] f(
                    k2,
                ) implies k1 == k2 by {
                    if k1 != k2 {
                        assert(pt_of(v, k1) != pt_of(v, k2));
                    }
                }
            }
            vstd::set_lib::lemma_map_size(u, pts, f);
            let top = set![v.root, p, d];
            assert(top.len() == 3);
            assert(top.disjoint(pts)) by {
                assert forall|t: u64| pts.contains(t) implies !top.contains(t) by {
                    let k = choose|k: int| u.contains(k) && f(k) == t;
                    assert(pt_of(v, k) is Some);
                }
            }
            assert(v.tables.dom() =~= top + pts) by {
                assert forall|t: u64| pts.contains(t) implies v.tables.dom().contains(t) by {
                    let k = choose|k: int| u.contains(k) && f(k) == t;
                    assert(pt_of(v, k) is Some);
                }
                assert forall|t: u64| v.tables.dom().contains(t) && !top.contains(t) implies pts.contains(t) by {
                    let k = choose|k: int| 0 <= k < 64 && pt_of(v, k) == Some(t);
                    assert(u.contains(k) && f(k) == t);
                }
            }
            vstd::set_lib::lemma_set_disjoint_lens(top, pts);
        },
    }
}

/// Spaces that translate every address alike need as many tables.
pub proof fn lemma_needed_by_translations(v: PtView, w: PtView)
    requires
        forall|b: int| #[trigger] translate(v, b) == translate(w, b),
    ensures
        tables_needed(v) == tables_needed(w),
{
    assert(used_slots(v) =~= used_slots(w)) by {
        assert forall|k: int| used_slots(v).contains(k) implies used_slots(w).contains(k) by {
            let b = choose|b: int| slot(b) == k && #[trigger] translate(v, b) is Some;
            assert(translate(w, b) is Some);
        }
        assert forall|k: int| used_slots(w).contains(k) implies used_slots(v).contains(k) by {
            let b = choose|b: int| slot(b) == k && #[trigger] translate(w, b) is Some;
            assert(translate(v, b) is Some);
        }
    }
}

/// Two spaces that translate every address alike hold as many page tables:
/// what a space holds follows from what it maps, so a mapping undone gives
/// back the tables it took.
pub proof fn law_count_by_translations(a: &Space, b: &Space)
    requires
        a.wf(),
        b.wf(),
        forall|x: int| #[trigger] translate(a@, x) == translate(b@, x),
    ensures
        a.table_count() == b.table_count(),
{
    a.lemma_table_count();
    b.lemma_table_count();
    lemma_needed_by_translations(a@, b@);
}

/// A space that maps a subset of another's pages needs no more tables.
pub proof fn lemma_needed_monotone(v: PtView, w: PtView)
    requires
        forall|b: int| #[trigger] translate(v, b) is Some ==> translate(w, b) is Some,
    ensures
        tables_needed(v) <= tables_needed(w),
{
    assert(used_slots(v).subset_of(used_slots(w))) by {
        assert forall|k: int| used_slots(v).contains(k) implies used_slots(w).contains(k) by {
            let b = choose|b: int| slot(b) == k && #[trigger] translate(v, b) is Some;
            assert(translate(w, b) is Some);
        }
    }
    vstd::set_lib::lemma_int_range(0, 64);
    assert(used_slots(w).subset_of(vstd::set_lib::set_int_range(0, 64)));
    vstd::set_lib::lemma_len_subset(used_slots(w), vstd::set_lib::set_int_range(0, 64));
    vstd::set_lib::lemma_len_subset(used_slots(v), used_slots(w));
    if !used_slots(v).is_empty() {
        let k = used_slots(v).choose();
        assert(used_slots(w).contains(k));
    }
}

pub struct Space {
    frames: Vec<u64>,
    entries: Vec<u64>,
    kernel: u64,
    pt: Ghost<Map<u64, Seq<u64>>>,
}

impl View for Space {
    type V = PtView;

    closed spec fn view(&self) -> PtView {
        PtView { root: self.frames@[0], tables: self.pt@ }
    }
}

proof fn lemma_index_bits(a: u64)
    ensures
        ((a >> 39u64) & 511) as int == index_at(a as int, 0),
        ((a >> 30u64) & 511) as int == index_at(a as int, 1),
        ((a >> 21u64) & 511) as int == index_at(a as int, 2),
        ((a >> 12u64) & 511) as int == index_at(a as int, 3),
        (a & 4095) as int == a as int % 4096,
{
    assert((a >> 39u64) & 511 == (a / 0x80_0000_0000) % 512) by (bit_vector);
    assert((a >> 30u64) & 511 == (a / 0x4000_0000) % 512) by (bit_vector);
    assert((a >> 21u64) & 511 == (a / 0x20_0000) % 512) by (bit_vector);
    assert((a >> 12u64) & 511 == (a / 0x1000) % 512) by (bit_vector);
    assert(a & 4095 == a % 4096) by (bit_vector);
}

proof fn lemma_entry_bits(f: u64, physical: u64, writable: bool, executable: bool)
    ensures
        frame_ok(f) ==> frame_of(table_entry(f)) == f && walkable(table_entry(f)) && table_entry(f) != 0,
        walkable(leaf_entry(physical, writable, executable)),
        leaf_entry(physical, writable, executable) != 0,
        frame_of(leaf_entry(physical, writable, executable)) == physical & ADDRESS,
        frame_ok(f) ==> (f | 3) & 5 != 5,
        frame_ok(f) ==> present(table_entry(f)) && (table_entry(f) & ADDRESS) == f,
        !walkable(0),
        !present(0),
{
    assert(0u64 & 5 != 5 && 0u64 & 1 == 0) by (bit_vector);
    assert(f % 4096 == 0 && f <= 0x000f_ffff_ffff_f000u64 ==> (f | 7) & 0x000f_ffff_ffff_f000u64 == f
        && (f | 7) & 5 == 5 && (f | 3) & 5 != 5 && (f | 7) != 0 && (f | 7) & 1 != 0) by (bit_vector);
    let w: u64 = if writable { 2 } else { 0 };
    let x: u64 = if executable { 0 } else { 0x8000_0000_0000_0000 };
    let e = physical | 1 | 4 | w | x;
    assert(leaf_entry(physical, writable, executable) == e);
    assert(e & 5 == 5 && e != 0 && e & 0x000f_ffff_ffff_f000u64 == physical & 0x000f_ffff_ffff_f000u64) by (bit_vector)
        requires
            e == physical | 1 | 4 | w | x,
            w == 0 || w == 2,
            x == 0 || x == 0x8000_0000_0000_0000u64,
    ;
}

proof fn lemma_frame_offset(e: u64, a: u64)
    ensures
        frame_of(e) + (a & 4095) <= u64::MAX,
        frame_of(e) % 4096 == 0,
{
    assert((e & 0x000f_ffff_ffff_f000u64) % 4096 == 0 && (e & 0x000f_ffff_ffff_f000u64) <= 0x000f_ffff_ffff_f000u64)
        by (bit_vector);
    assert(a & 4095 <= 4095) by (bit_vector);
}

impl Space {
    /// The arena holds exactly the tables of the view, 512 entries each.
    pub closed spec fn arena_ok(&self) -> bool {
        &&& 1 <= self.frames@.len()
        &&& self.arena_base()
    }

    /// The arena and the view agree (the arena may still be empty).
    pub closed spec fn arena_base(&self) -> bool {
        &&& self.frames@.len() <= MAX_TABLES
        &&& self.entries@.len() == 512 * self.frames@.len()
        &&& self.frames@.no_duplicates()
        &&& forall|f: u64| self.pt@.dom().contains(f) <==> self.frames@.contains(f)
        &&& forall|i: int|
            #![trigger self.frames@[i]]
            0 <= i < self.frames@.len() ==> self.pt@[self.frames@[i]] == self.entries@.subrange(
                512 * i,
                512 * i + 512,
            )
    }

    pub closed spec fn wf(&self) -> bool {
        &&& self.arena_ok()
        &&& layout_ok(self@, self.kernel)
    }

    /// The number of tables this space owns.
    pub closed spec fn table_count(&self) -> nat {
        self.frames@.len()
    }

    /// A space holds the tables its mapped pages need, no more.
    pub proof fn lemma_table_count(&self)
        requires
            self.wf(),
        ensures
            self.table_count() == tables_needed(self@),
    {
        self.frames@.unique_seq_to_set();
        assert(self.pt@.dom() =~= self.frames@.to_set());
        lemma_tables_needed(self@, self.kernel);
    }

    /// The frame of the kernel's shared tables, held in root entry 0.
    pub closed spec fn kernel_tables(&self) -> u64 {
        self.kernel
    }

    /// The root table's frame, for CR3.
    pub fn root(&self) -> (r: u64)
        requires
            self.wf(),
        ensures
            r == self@.root,
            frame_ok(r),
    {
        self.frames[0]
    }

    /// Where the table in `frame` sits in the arena.
    fn slot_of(&self, frame: u64) -> (r: Option<usize>)
        requires
            self.arena_base(),
        ensures
            match r {
                Some(i) => i < self.frames@.len() && self.frames@[i as int] == frame,
                None => !self.pt@.dom().contains(frame),
            },
    {
        let mut i: usize = 0;
        while i < self.frames.len()
            invariant
                self.arena_base(),
                i <= self.frames@.len(),
                forall|j: int| 0 <= j < i ==> self.frames@[j] != frame,
            decreases self.frames@.len() - i,
        {
            if self.frames[i] == frame {
                return Some(i);
            }
            i += 1;
        }
        None
    }

    /// Entry `k` of the table in arena slot `i`.
    fn entry(&self, i: usize, k: usize) -> (r: u64)
        requires
            self.arena_ok(),
            i < self.frames@.len(),
            k < 512,
        ensures
            r == self.pt@[self.frames@[i as int]][k as int],
    {
        proof {
            assert(self.pt@[self.frames@[i as int]][k as int] == self.entries@[512 * i + k]);
        }
        self.entries[512 * i + k]
    }

    /// The walk step from the table in arena slot `i` through entry `k`.
    fn next(&self, i: usize, k: usize) -> (r: Option<usize>)
        requires
            self.arena_ok(),
            i < self.frames@.len(),
            k < 512,
        ensures
            match next_table(self@, self.frames@[i as int], k as int) {
                None => r.is_none(),
                Some(f) => r matches Some(j) && j < self.frames@.len() && self.frames@[j as int] == f,
            },
    {
        let e = self.entry(i, k);
        if e & 5 != 5 {
            return None;
        }
        self.slot_of(e & ADDRESS)
    }

    /// The physical address a user access to `address` reaches through these
    /// tables, or `None` when it would fault: outside the user range, or an
    /// entry on the way is not present and user-accessible.
    pub fn readable(&self, address: u64) -> (r: Option<u64>)
        requires
            self.wf(),
        ensures
            r == translate(self@, address as int),
    {
        if address < USER_IMAGE || address >= USER_END {
            return None;
        }
        proof {
            lemma_index_bits(address);
        }
        let p = match self.next(0, ((address >> 39u64) & 511) as usize) {
            Some(p) => p,
            None => return None,
        };
        let d = match self.next(p, ((address >> 30u64) & 511) as usize) {
            Some(d) => d,
            None => return None,
        };
        let t = match self.next(d, ((address >> 21u64) & 511) as usize) {
            Some(t) => t,
            None => return None,
        };
        let e = self.entry(t, ((address >> 12u64) & 511) as usize);
        if e & 5 != 5 {
            return None;
        }
        proof {
            lemma_frame_offset(e, address);
        }
        Some((e & ADDRESS) + (address & 4095))
    }
}


/// Every byte of `[start, start + size)` is readable by the user.
pub open spec fn range_readable(v: PtView, start: int, size: int) -> bool {
    size == 0 || (start + size - 1 <= u64::MAX && forall|b: int|
        start <= b < start + size ==> #[trigger] translate(v, b) is Some)
}

/// Whether an access faults depends only on the page.
proof fn lemma_translate_page(v: PtView, a: int, b: int)
    requires
        a / 4096 == b / 4096,
        0 <= a,
        0 <= b,
    ensures
        translate(v, a) is Some <==> translate(v, b) is Some,
{
    vstd::arithmetic::div_mod::lemma_div_denominator(a, 4096, 512);
    vstd::arithmetic::div_mod::lemma_div_denominator(b, 4096, 512);
    vstd::arithmetic::div_mod::lemma_div_denominator(a, 4096, 0x4_0000);
    vstd::arithmetic::div_mod::lemma_div_denominator(b, 4096, 0x4_0000);
    vstd::arithmetic::div_mod::lemma_div_denominator(a, 4096, 0x800_0000);
    vstd::arithmetic::div_mod::lemma_div_denominator(b, 4096, 0x800_0000);
    assert(index_at(a, 0) == index_at(b, 0));
    assert(index_at(a, 1) == index_at(b, 1));
    assert(index_at(a, 2) == index_at(b, 2));
    assert(index_at(a, 3) == index_at(b, 3));
    assert(in_user_range(a) == in_user_range(b));
}

impl Space {
    /// A new table in the arena, all entries zero.
    fn table<M: TableMemory>(&mut self, memory: &mut M) -> (r: Result<usize, &'static str>)
        requires
            old(self).arena_base(),
        ensures
            final(self).kernel == old(self).kernel,
            match r {
                Ok(i) => {
                    &&& final(self).arena_ok()
                    &&& i == old(self).frames@.len()
                    &&& final(self).frames@ == old(self).frames@.push(final(self).frames@[i as int])
                    &&& !old(self).pt@.dom().contains(final(self).frames@[i as int])
                    &&& frame_ok(final(self).frames@[i as int])
                    &&& final(self).pt@ == old(self).pt@.insert(
                        final(self).frames@[i as int],
                        Seq::new(512, |_k: int| 0u64),
                    )
                },
                Err(e) => {
                    &&& *final(self) == *old(self)
                    &&& (e == "PAGE TABLE LIMIT") == (old(self).frames@.len() == MAX_TABLES)
                    &&& (e == "PAGE TABLE LIMIT" || e == "OUT OF MEMORY" || e == "INVALID PAGE TABLE FRAME")
                },
            },
    {
        if self.frames.len() == MAX_TABLES {
            return Err("PAGE TABLE LIMIT");
        }
        let frame = memory.allocate_table();
        self.adopt(frame)
    }

    /// Takes `frame`, as memory handed it out, as a new table, all entries
    /// zero: `Err("OUT OF MEMORY")` when memory had none, and `Err("INVALID
    /// PAGE TABLE FRAME")` for a frame that is unaligned, beyond what an
    /// entry addresses, or already a table of this space.
    fn adopt(&mut self, frame: Option<u64>) -> (r: Result<usize, &'static str>)
        requires
            old(self).arena_base(),
            old(self).frames@.len() < MAX_TABLES,
        ensures
            final(self).kernel == old(self).kernel,
            match r {
                Ok(i) => {
                    &&& final(self).arena_ok()
                    &&& i == old(self).frames@.len()
                    &&& final(self).frames@ == old(self).frames@.push(final(self).frames@[i as int])
                    &&& !old(self).pt@.dom().contains(final(self).frames@[i as int])
                    &&& frame_ok(final(self).frames@[i as int])
                    &&& final(self).pt@ == old(self).pt@.insert(
                        final(self).frames@[i as int],
                        Seq::new(512, |_k: int| 0u64),
                    )
                },
                Err(e) => {
                    &&& *final(self) == *old(self)
                    &&& (e == "PAGE TABLE LIMIT" || e == "OUT OF MEMORY" || e == "INVALID PAGE TABLE FRAME")
                },
            },
            match frame {
                None => r == Err::<usize, &'static str>("OUT OF MEMORY"),
                Some(f) => if frame_ok(f) && !old(self).pt@.dom().contains(f) {
                    r matches Ok(i) && final(self).frames@[i as int] == f
                } else {
                    r == Err::<usize, &'static str>("INVALID PAGE TABLE FRAME")
                },
            },
    {
        let frame = match frame {
            Some(f) => f,
            None => return Err("OUT OF MEMORY"),
        };
        if frame % 4096 != 0 || frame > ADDRESS || self.slot_of(frame).is_some() {
            return Err("INVALID PAGE TABLE FRAME");
        }
        let ghost old_entries = self.entries@;
        let n = self.frames.len();
        self.frames.push(frame);
        let mut k: usize = 0;
        while k < 512
            invariant
                n == old(self).frames@.len(),
                old_entries == old(self).entries@,
                old_entries.len() == 512 * n,
                self.frames@ == old(self).frames@.push(frame),
                self.pt@ == old(self).pt@,
                self.kernel == old(self).kernel,
                !old(self).frames@.contains(frame),
                k <= 512,
                self.entries@.len() == old_entries.len() + k,
                self.entries@.subrange(0, old_entries.len() as int) == old_entries,
                forall|j: int| old_entries.len() <= j < self.entries@.len() ==> self.entries@[j] == 0,
            decreases 512 - k,
        {
            self.entries.push(0);
            k += 1;
            assert(self.entries@.subrange(0, old_entries.len() as int) =~= old_entries);
        }
        self.pt = Ghost(self.pt@.insert(frame, Seq::new(512, |_k: int| 0u64)));
        proof {
            assert(self.frames@[n as int] == frame);
            assert forall|i: int|
                #![trigger self.frames@[i]]
                0 <= i < self.frames@.len() implies self.pt@[self.frames@[i]]
                == self.entries@.subrange(512 * i, 512 * i + 512) by {
                if i < n {
                    assert(old(self).frames@[i] != frame);
                    assert(self.entries@.subrange(512 * i, 512 * i + 512) =~= old_entries.subrange(
                        512 * i,
                        512 * i + 512,
                    ));
                } else {
                    assert(self.entries@.subrange(512 * i, 512 * i + 512) =~= Seq::new(512, |_k: int| 0u64));
                }
            }
            assert forall|f: u64| self.pt@.dom().contains(f) <==> self.frames@.contains(f) by {
                if self.frames@.contains(f) && f != frame {
                    let j = choose|j: int| 0 <= j < self.frames@.len() && self.frames@[j] == f;
                    assert(old(self).frames@[j] == f);
                }
                if old(self).frames@.contains(f) {
                    let j = choose|j: int| 0 <= j < old(self).frames@.len() && old(self).frames@[j] == f;
                    assert(self.frames@[j] == f);
                }
                assert(self.frames@[n as int] == frame);
            }
            assert(self.frames@.no_duplicates()) by {
                assert forall|i: int, j: int|
                    0 <= i < self.frames@.len() && 0 <= j < self.frames@.len() && i != j implies self.frames@[i]
                    != self.frames@[j] by {
                    if i < n && j < n {
                        assert(old(self).frames@[i] != old(self).frames@[j]);
                    } else if i < n {
                        assert(old(self).frames@.contains(old(self).frames@[i]));
                    } else if j < n {
                        assert(old(self).frames@.contains(old(self).frames@[j]));
                    }
                }
            }
        }
        Ok(n)
    }

    /// A space with only its root table, whose entry 0 holds the kernel's
    /// supervisor tables at `kernel_tables`; the root's frame comes from
    /// `memory` (`Space::with_root` says what each answer gives).
    pub fn new<M: TableMemory>(memory: &mut M, kernel_tables: u64) -> (r: Result<Space, &'static str>)
        requires
            frame_ok(kernel_tables),
        ensures
            r matches Ok(space) ==> {
                &&& space.wf()
                &&& space.kernel_tables() == kernel_tables
                &&& space@.tables.dom() == set![space@.root]
                &&& space.table_count() == 1
                &&& forall|a: int| translate(space@, a) is None
            },
            r matches Err(e) ==> e == "OUT OF MEMORY" || e == "INVALID PAGE TABLE FRAME",
    {
        let frame = memory.allocate_table();
        Space::with_root(memory, frame, kernel_tables)
    }

    /// A space whose root table is `frame`, as memory handed it out, with
    /// entry 0 holding the kernel's supervisor tables at `kernel_tables` and
    /// nothing mapped: `Err("OUT OF MEMORY")` when memory had no frame, and
    /// `Err("INVALID PAGE TABLE FRAME")` for one that is unaligned or beyond
    /// what an entry addresses.
    pub fn with_root<M: TableMemory>(memory: &mut M, frame: Option<u64>, kernel_tables: u64) -> (r: Result<
        Space,
        &'static str,
    >)
        requires
            frame_ok(kernel_tables),
        ensures
            match frame {
                None => r == Err::<Space, &'static str>("OUT OF MEMORY"),
                Some(f) => if frame_ok(f) {
                    r matches Ok(space) && space@.root == f
                } else {
                    r == Err::<Space, &'static str>("INVALID PAGE TABLE FRAME")
                },
            },
            r matches Ok(space) ==> {
                &&& space.wf()
                &&& space.kernel_tables() == kernel_tables
                &&& space@.tables.dom() == set![space@.root]
                &&& space.table_count() == 1
                &&& forall|a: int| translate(space@, a) is None
            },
    {
        let mut space = Space { frames: Vec::new(), entries: Vec::new(), kernel: kernel_tables, pt: Ghost(Map::empty()) };
        proof {
            assert forall|f: u64| space.pt@.dom().contains(f) <==> space.frames@.contains(f) by {}
        }
        let root = match space.adopt(frame) {
            Ok(i) => i,
            Err(e) => return Err(e),
        };
        let frame = space.frames[root];
        space.set_entry(memory, root, 0, kernel_tables | 3);
        proof {
            lemma_entry_bits(kernel_tables, 0, false, false);
            assert(space.pt@.dom() =~= set![frame]);
            assert(space@.tables[frame] =~= Seq::new(512, |_k: int| 0u64).update(0, kernel_tables | 3));
            assert(zero_except(space@.tables[frame], |k: int| k == 0 || k == 1));
            assert forall|a: int| translate(space@, a) is None by {
                if in_user_range(a) {
                    assert(next_table(space@, frame, index_at(a, 0)) is None);
                }
            }
        }
        Ok(space)
    }

    /// Writes entry `k` of the table in arena slot `i`, here and in memory.
    fn set_entry<M: TableMemory>(&mut self, memory: &mut M, i: usize, k: usize, value: u64)
        requires
            old(self).arena_ok(),
            i < old(self).frames@.len(),
            k < 512,
        ensures
            final(self).arena_ok(),
            final(self).frames@ == old(self).frames@,
            final(self).kernel == old(self).kernel,
            final(self).pt@ == old(self).pt@.insert(
                old(self).frames@[i as int],
                old(self).pt@[old(self).frames@[i as int]].update(k as int, value),
            ),
    {
        let frame = self.frames[i];
        memory.write_entry(frame, k, value);
        let ghost old_entries = self.entries@;
        self.entries.set(512 * i + k, value);
        self.pt = Ghost(self.pt@.insert(frame, self.pt@[frame].update(k as int, value)));
        proof {
            assert forall|j: int|
                #![trigger self.frames@[j]]
                0 <= j < self.frames@.len() implies self.pt@[self.frames@[j]]
                == self.entries@.subrange(512 * j, 512 * j + 512) by {
                if j == i {
                    assert(self.entries@.subrange(512 * j, 512 * j + 512) =~= old_entries.subrange(
                        512 * j,
                        512 * j + 512,
                    ).update(k as int, value));
                } else {
                    assert(self.frames@[j] != frame);
                    if j < i {
                        assert(512 * j + 512 <= 512 * i);
                    } else {
                        assert(512 * i + 512 <= 512 * j);
                    }
                    assert(self.entries@.subrange(512 * j, 512 * j + 512) =~= old_entries.subrange(
                        512 * j,
                        512 * j + 512,
                    ));
                }
            }
            assert forall|f: u64| self.pt@.dom().contains(f) <==> self.frames@.contains(f) by {
                assert(old(self).frames@.contains(frame));
            }
        }
    }

    /// Whether a user access to every byte of `[start, start + size)` would
    /// succeed; an empty range always does, one that wraps past the end of the
    /// address space never.
    #[verifier::spinoff_prover]
    #[verifier::rlimit(40)]
    pub fn validate_read(&self, start: u64, size: u64) -> (r: bool)
        requires
            self.wf(),
        ensures
            r == range_readable(self@, start as int, size as int),
    {
        if size == 0 {
            return true;
        }
        let end = match start.checked_add(size - 1) {
            Some(e) => e,
            None => return false,
        };
        let mut address = start;
        loop
            invariant
                self.wf(),
                start <= address <= end,
                end == start + size - 1,
                address == start || address % 4096 == 0,
                forall|b: int| start <= b < address ==> #[trigger] translate(self@, b) is Some,
            decreases end - address,
        {
            if self.readable(address).is_none() {
                return false;
            }
            if address / PAGE == end / PAGE {
                proof {
                    assert forall|b: int| start <= b < start + size implies #[trigger] translate(self@, b) is Some by {
                        if b >= address {
                            lemma_translate_page(self@, address as int, b);
                        }
                    }
                }
                return true;
            }
            proof {
                assert(address & !4095u64 == address - address % 4096) by (bit_vector);
            }
            let next = (address & !4095u64) + PAGE;
            proof {
                assert forall|b: int| start <= b < next implies #[trigger] translate(self@, b) is Some by {
                    if b >= address {
                        lemma_translate_page(self@, address as int, b);
                    }
                }
            }
            address = next;
        }
    }
}


/// The tables mapping a page at `a` adds: the PDPT, the page directory and
/// the page table where they are missing.
pub open spec fn missing_tables(v: PtView, a: int) -> int {
    if pdpt_of(v) is None {
        3
    } else if pd_of(v) is None {
        2
    } else if pt_of(v, slot(a)) is None {
        1
    } else {
        0
    }
}

impl Space {
    /// Maps the page at `address` to the leaf entry `value`, creating the
    /// tables on the way. On an error the tables created so far stay, empty,
    /// on the page's path.
    fn map_page<M: TableMemory>(&mut self, memory: &mut M, address: u64, value: u64) -> (r: Result<
        (),
        &'static str,
    >)
        requires
            old(self).arena_ok(),
            layout_within(old(self)@, old(self).kernel, Set::empty()),
            in_user_range(address as int),
            page_entry(old(self)@, address as int) == 0,
            walkable(value),
        ensures
            final(self).arena_ok(),
            final(self).kernel == old(self).kernel,
            final(self)@.root == old(self)@.root,
            forall|b: int|
                in_user_range(b) ==> #[trigger] page_entry(final(self)@, b) == if r is Ok && b / 4096
                    == address / 4096 {
                    value
                } else {
                    page_entry(old(self)@, b)
                },
            r is Ok ==> layout_within(final(self)@, final(self).kernel, Set::empty()),
            r is Err ==> layout_within(final(self)@, final(self).kernel, set![slot(address as int)]),
            r matches Err(e) ==> (e == "PAGE TABLE LIMIT") ==> final(self).frames@.len() == MAX_TABLES,
            r matches Err(e) ==> e == "PAGE TABLE LIMIT" || e == "OUT OF MEMORY" || e == "INVALID PAGE TABLE FRAME",
            pt_of(old(self)@, slot(address as int)) is Some ==> r is Ok,
            r == Err::<(), &'static str>("PAGE TABLE LIMIT") ==> old(self).frames@.len() + missing_tables(
                old(self)@,
                address as int,
            ) > MAX_TABLES,
    {
        proof {
            lemma_index_bits(address);
            lemma_user_indices(address as int);
            lemma_entry_bits(0, 0, false, false);
        }
        let ghost a = address as int;
        let ghost k = slot(a);
        let i0 = ((address >> 39u64) & 511) as usize;
        let i1 = ((address >> 30u64) & 511) as usize;
        let i2 = ((address >> 21u64) & 511) as usize;
        let i3 = ((address >> 12u64) & 511) as usize;
        let ghost v0 = self@;
        // The PDPT.
        let e0 = self.entry(0, i0);
        let p = if e0 & PRESENT == 0 {
            proof {
                if pdpt_of(v0) is Some {
                    lemma_entry_bits(pdpt_of(v0)->0, 0, false, false);
                }
                assert(pdpt_of(v0) is None);
            }
            let j = match self.table(memory) {
                Ok(j) => j,
                Err(e) => return Err(e),
            };
            let f = self.frames[j];
            proof {
                lemma_entry_bits(f, 0, false, false);
            }
            self.set_entry(memory, 0, i0, f | 7);
            proof {
                let v = self@;
                assert(v.root == v0.root);
                assert(pdpt_of(v) == Some(f));
                assert(v.tables[f] =~= Seq::new(512, |_k: int| 0u64));
                assert(pd_of(v) is None);
                assert(v.tables.dom() =~= set![v.root, f]);
                assert(zero_except(v.tables[v.root], |k: int| k == 0 || k == 1));
                assert forall|b: int| in_user_range(b) implies #[trigger] page_entry(v, b) == page_entry(v0, b) by {}
            }
            j
        } else {
            proof {
                assert(pdpt_of(v0) is Some);
                lemma_entry_bits(pdpt_of(v0)->0, 0, false, false);
            }
            match self.slot_of(e0 & ADDRESS) {
                Some(j) => j,
                None => {
                    proof {
                        assert(false);
                    }
                    return Err("CORRUPT PAGE TABLES");
                },
            }
        };
        let ghost v1 = self@;
        assert(layout_within(v1, self.kernel, set![k]));
        assert(pdpt_of(v1) == Some(self.frames@[p as int]));
        assert(forall|b: int| in_user_range(b) ==> #[trigger] page_entry(v1, b) == page_entry(v0, b));
        // The page directory.
        let e1 = self.entry(p, i1);
        let d = if e1 & PRESENT == 0 {
            proof {
                if pd_of(v1) is Some {
                    lemma_entry_bits(pd_of(v1)->0, 0, false, false);
                }
                assert(pd_of(v1) is None);
            }
            let j = match self.table(memory) {
                Ok(j) => j,
                Err(e) => return Err(e),
            };
            let f = self.frames[j];
            proof {
                lemma_entry_bits(f, 0, false, false);
            }
            self.set_entry(memory, p, i1, f | 7);
            proof {
                let v = self@;
                assert(pdpt_of(v) == pdpt_of(v1));
                assert(pd_of(v) == Some(f));
                assert(v.tables[f] =~= Seq::new(512, |_k: int| 0u64));
                assert forall|kk: int| 0 <= kk < 64 implies #[trigger] pt_of(v, kk) is None by {}
                assert(v.tables.dom() =~= v1.tables.dom().insert(f));
                assert(zero_except(v.tables[self.frames@[p as int]], |k: int| k == 0));
                assert forall|b: int| in_user_range(b) implies #[trigger] page_entry(v, b) == page_entry(v0, b) by {}
            }
            j
        } else {
            proof {
                assert(pd_of(v1) is Some);
                lemma_entry_bits(pd_of(v1)->0, 0, false, false);
            }
            match self.slot_of(e1 & ADDRESS) {
                Some(j) => j,
                None => {
                    proof {
                        assert(false);
                    }
                    return Err("CORRUPT PAGE TABLES");
                },
            }
        };
        let ghost v2 = self@;
        assert(layout_within(v2, self.kernel, set![k]));
        assert(pd_of(v2) == Some(self.frames@[d as int]));
        assert(forall|b: int| in_user_range(b) ==> #[trigger] page_entry(v2, b) == page_entry(v0, b));
        // The page table.
        let e2 = self.entry(d, i2);
        let t = if e2 & PRESENT == 0 {
            proof {
                if pt_of(v2, k) is Some {
                    lemma_entry_bits(pt_of(v2, k)->0, 0, false, false);
                }
                assert(pt_of(v2, k) is None);
            }
            let j = match self.table(memory) {
                Ok(j) => j,
                Err(e) => return Err(e),
            };
            let f = self.frames[j];
            proof {
                lemma_entry_bits(f, 0, false, false);
            }
            self.set_entry(memory, d, i2, f | 7);
            proof {
                let v = self@;
                assert(pd_of(v) == pd_of(v2));
                assert(pt_of(v, k) == Some(f));
                assert(v.tables[f] =~= Seq::new(512, |_k: int| 0u64));
                assert forall|kk: int| 0 <= kk < 64 && kk != k implies #[trigger] pt_of(v, kk) == pt_of(v2, kk) by {}
                assert(v.tables.dom() =~= v2.tables.dom().insert(f));
                let pp = pdpt_of(v)->0;
                let dd = pd_of(v)->0;
                assert forall|g: u64| #[trigger] v.tables.dom().contains(g) implies g == v.root || g == pp || g == dd
                    || exists|kk: int| 0 <= kk < 64 && pt_of(v, kk) == Some(g) by {
                    if g == f {
                        assert(pt_of(v, k) == Some(g));
                    } else {
                        assert(v2.tables.dom().contains(g));
                        if !(g == v.root || g == pp || g == dd) {
                            let kk = choose|kk: int| 0 <= kk < 64 && pt_of(v2, kk) == Some(g);
                            assert(pt_of(v, kk) == Some(g));
                        }
                    }
                }
                assert forall|k1: int, k2: int|
                    0 <= k1 < 64 && 0 <= k2 < 64 && k1 != k2 && pt_of(v, k1) is Some implies #[trigger] pt_of(v, k1)
                    != #[trigger] pt_of(v, k2) by {
                    if k1 == k {
                        if pt_of(v, k2) is Some {
                            assert(v2.tables.dom().contains(pt_of(v2, k2)->0));
                        }
                    } else if k2 == k {
                        assert(v2.tables.dom().contains(pt_of(v2, k1)->0));
                    }
                }
                assert(nonempty(v.tables[dd])) by {
                    assert(v.tables[dd][k] != 0);
                }
                assert forall|kk: int| 0 <= kk < 64 && #[trigger] pt_of(v, kk) is Some implies {
                    let t = pt_of(v, kk)->0;
                    &&& v.tables[dd][kk] == table_entry(t)
                    &&& v.tables.dom().contains(t)
                    &&& t != v.root && t != pp && t != dd
                    &&& forall|j: int| 0 <= j < 512 ==> #[trigger] v.tables[t][j] == 0 || walkable(v.tables[t][j])
                } by {
                    if kk != k {
                        assert(pt_of(v2, kk) is Some);
                    }
                }
                assert(zero_except(v.tables[dd], |k: int| k < 64));
                assert forall|b: int| in_user_range(b) implies #[trigger] page_entry(v, b) == page_entry(v0, b) by {
                    lemma_user_indices(b);
                }
            }
            j
        } else {
            proof {
                assert(pt_of(v2, k) is Some);
                lemma_entry_bits(pt_of(v2, k)->0, 0, false, false);
            }
            match self.slot_of(e2 & ADDRESS) {
                Some(j) => j,
                None => {
                    proof {
                        assert(false);
                    }
                    return Err("CORRUPT PAGE TABLES");
                },
            }
        };
        let ghost v3 = self@;
        assert(layout_within(v3, self.kernel, set![k]));
        assert(pt_of(v3, k) == Some(self.frames@[t as int]));
        assert(forall|b: int| in_user_range(b) ==> #[trigger] page_entry(v3, b) == page_entry(v0, b));
        // The page itself.
        if self.entry(t, i3) & PRESENT != 0 {
            proof {
                assert(page_entry(v3, a) == 0);
                lemma_entry_bits(0, 0, false, false);
                assert(false);
            }
            return Err("OVERLAPPING USER PAGES");
        }
        self.set_entry(memory, t, i3, value);
        proof {
            let v = self@;
            let tf = self.frames@[t as int];
            assert(v.tables[tf][i3 as int] == value);
            assert(value != 0) by {
                lemma_entry_bits(0, 0, false, false);
            }
            assert(nonempty(v.tables[tf]));
            assert forall|kk: int| 0 <= kk < 64 implies #[trigger] pt_of(v, kk) == pt_of(v3, kk) by {}
            assert forall|b: int| in_user_range(b) implies #[trigger] page_entry(v, b) == if b / 4096 == a / 4096 {
                value
            } else {
                page_entry(v0, b)
            } by {
                lemma_user_indices(b);
                lemma_same_page(a, b);
            }
            let pp = pdpt_of(v)->0;
            let dd = pd_of(v)->0;
            assert(pdpt_of(v) == pdpt_of(v3));
            assert(pd_of(v) == pd_of(v3));
            assert(v.tables[dd] == v3.tables[dd]);
            assert(nonempty(v.tables[dd])) by {
                assert(v.tables[dd][k] != 0);
            }
            assert(v.tables.dom() =~= v3.tables.dom());
            assert forall|kk: int| 0 <= kk < 64 && #[trigger] pt_of(v, kk) is Some implies {
                let t = pt_of(v, kk)->0;
                &&& v.tables[dd][kk] == table_entry(t)
                &&& v.tables.dom().contains(t)
                &&& t != v.root && t != pp && t != dd
                &&& (forall|j: int| 0 <= j < 512 ==> #[trigger] v.tables[t][j] == 0 || walkable(v.tables[t][j]))
                &&& nonempty(v.tables[t])
            } by {
                assert(pt_of(v3, kk) is Some);
                if kk != k {
                    assert(pt_of(v3, kk) != pt_of(v3, k));
                    assert(nonempty(v3.tables[pt_of(v3, kk)->0]));
                }
            }
            assert forall|g: u64| #[trigger] v.tables.dom().contains(g) implies g == v.root || g == pp || g == dd
                || exists|kk: int| 0 <= kk < 64 && pt_of(v, kk) == Some(g) by {
                if !(g == v.root || g == pp || g == dd) {
                    let kk = choose|kk: int| 0 <= kk < 64 && pt_of(v3, kk) == Some(g);
                    assert(pt_of(v, kk) == Some(g));
                }
            }
        }
        Ok(())
    }
}


impl Space {
    /// Drops the table in arena slot `i` (not the root) from the arena and
    /// hands its frame back to `memory`.
    fn remove_table<M: TableMemory>(&mut self, memory: &mut M, i: usize)
        requires
            old(self).arena_ok(),
            1 <= i < old(self).frames@.len(),
        ensures
            final(self).arena_ok(),
            final(self).kernel == old(self).kernel,
            final(self).frames@[0] == old(self).frames@[0],
            final(self).frames@.len() == old(self).frames@.len() - 1,
            final(self).pt@ == old(self).pt@.remove(old(self).frames@[i as int]),
    {
        let frame = self.frames[i];
        let last = self.frames.len() - 1;
        let ghost old_entries = self.entries@;
        let ghost old_frames = self.frames@;
        // Move the last table into slot i.
        let moved = self.frames[last];
        self.frames.set(i, moved);
        let mut k: usize = 0;
        while k < 512
            invariant
                1 <= i <= last,
                last + 1 == old_frames.len(),
                old_entries.len() == 512 * old_frames.len(),
                k <= 512,
                self.entries@.len() == old_entries.len(),
                self.entries.len() == old_entries.len(),
                self.frames@ == old_frames.update(i as int, moved),
                moved == old_frames[last as int],
                frame == old_frames[i as int],
                self.pt@ == old(self).pt@,
                self.kernel == old(self).kernel,
                forall|j: int|
                    0 <= j < self.entries@.len() && !(512 * i <= j < 512 * i + k) ==> self.entries@[j]
                        == old_entries[j],
                forall|j: int|
                    512 * i <= j < 512 * i + k ==> #[trigger] self.entries@[j] == old_entries[512 * last + (j - 512 * i)],
            decreases 512 - k,
        {
            let value = self.entries[512 * last + k];
            self.entries.set(512 * i + k, value);
            k += 1;
        }
        self.frames.pop();
        let mut k: usize = 0;
        while k < 512
            invariant
                k <= 512,
                old_entries.len() == 512 * old_frames.len(),
                last + 1 == old_frames.len(),
                self.entries@.len() == old_entries.len() - k,
                forall|j: int|
                    0 <= j < self.entries@.len() && !(512 * i <= j < 512 * i + 512) ==> self.entries@[j]
                        == old_entries[j],
                forall|j: int|
                    512 * i <= j < 512 * i + 512 && j < self.entries@.len() ==> #[trigger] self.entries@[j]
                        == old_entries[512 * last + (j - 512 * i)],
                1 <= i <= last,
                self.frames@ == old_frames.update(i as int, moved).drop_last(),
                moved == old_frames[last as int],
                frame == old_frames[i as int],
                self.pt@ == old(self).pt@,
                self.kernel == old(self).kernel,
            decreases 512 - k,
        {
            self.entries.pop();
            k += 1;
        }
        self.pt = Ghost(self.pt@.remove(frame));
        memory.retire_table(frame);
        proof {
            assert(self.entries@.len() == 512 * self.frames@.len());
            assert forall|j: int|
                #![trigger self.frames@[j]]
                0 <= j < self.frames@.len() implies self.pt@[self.frames@[j]]
                == self.entries@.subrange(512 * j, 512 * j + 512) by {
                if j == i {
                    assert(self.frames@[j] == old_frames[last as int]);
                    assert(old_frames[last as int] != frame);
                    assert(self.entries@.subrange(512 * j, 512 * j + 512) =~= old_entries.subrange(
                        512 * last,
                        512 * last + 512,
                    ));
                } else {
                    assert(self.frames@[j] == old_frames[j]);
                    assert(old_frames[j] != frame);
                    if j < i {
                        assert(512 * j + 512 <= 512 * i);
                    } else {
                        assert(512 * i + 512 <= 512 * j);
                    }
                    assert(self.entries@.subrange(512 * j, 512 * j + 512) =~= old_entries.subrange(
                        512 * j,
                        512 * j + 512,
                    ));
                }
            }
            assert forall|f: u64| self.pt@.dom().contains(f) <==> self.frames@.contains(f) by {
                if self.frames@.contains(f) {
                    let j = choose|j: int| 0 <= j < self.frames@.len() && self.frames@[j] == f;
                    if j == i {
                        assert(old_frames[last as int] == f);
                        assert(old_frames.contains(f));
                        assert(f != frame);
                    } else {
                        assert(old_frames[j] == f);
                        assert(old_frames.contains(f));
                        assert(f != frame);
                    }
                }
                if old_frames.contains(f) && f != frame {
                    let j = choose|j: int| 0 <= j < old_frames.len() && old_frames[j] == f;
                    if j == last {
                        assert(self.frames@[i as int] == f);
                    } else {
                        assert(j != i);
                        assert(self.frames@[j] == f);
                    }
                }
            }
            assert(self.frames@.no_duplicates()) by {
                assert forall|a: int, b: int|
                    0 <= a < self.frames@.len() && 0 <= b < self.frames@.len() && a != b implies self.frames@[a]
                    != self.frames@[b] by {
                    let oa = if a == i { last as int } else { a };
                    let ob = if b == i { last as int } else { b };
                    assert(self.frames@[a] == old_frames[oa]);
                    assert(self.frames@[b] == old_frames[ob]);
                }
            }
        }
    }
}


proof fn lemma_walkable_present(e: u64)
    ensures
        walkable(e) ==> present(e),
{
    assert(e & 5 == 5 ==> e & 1 != 0) by (bit_vector);
}

/// A table none of whose entries is present.
pub open spec fn all_absent(t: Seq<u64>) -> bool {
    forall|j: int| 0 <= j < 512 ==> !present(#[trigger] t[j])
}

/// In tables of this shape an entry is absent exactly when it is zero.
proof fn lemma_absent_is_empty(v: PtView, kernel: u64, f: u64)
    requires
        layout_loose(v, kernel),
        v.tables.dom().contains(f),
        f != v.root,
    ensures
        all_absent(v.tables[f]) <==> !nonempty(v.tables[f]),
{
    lemma_entry_bits(0, 0, false, false);
    let t = v.tables[f];
    let p = pdpt_of(v)->0;
    if f == p {
        assert forall|j: int| 0 <= j < 512 && t[j] != 0 implies present(#[trigger] t[j]) by {
            lemma_entry_bits(pd_of(v)->0, 0, false, false);
        }
    } else if pd_of(v) is Some && f == pd_of(v)->0 {
        assert forall|j: int| 0 <= j < 512 && t[j] != 0 implies present(#[trigger] t[j]) by {
            assert(pt_of(v, j) is Some);
            lemma_entry_bits(pt_of(v, j)->0, 0, false, false);
        }
    } else {
        let k = choose|k: int| 0 <= k < 64 && pt_of(v, k) == Some(f);
        assert forall|j: int| 0 <= j < 512 && t[j] != 0 implies present(#[trigger] t[j]) by {
            assert(walkable(t[j]));
            lemma_walkable_present(t[j]);
        }
    }
}

impl Space {
    /// Whether no entry of the table in arena slot `i` is present.
    fn table_empty(&self, i: usize) -> (r: bool)
        requires
            self.arena_ok(),
            i < self.frames@.len(),
        ensures
            r == all_absent(self.pt@[self.frames@[i as int]]),
    {
        let mut j: usize = 0;
        while j < 512
            invariant
                self.arena_ok(),
                i < self.frames@.len(),
                j <= 512,
                forall|jj: int| 0 <= jj < j ==> !present(#[trigger] self.pt@[self.frames@[i as int]][jj]),
            decreases 512 - j,
        {
            if self.entry(i, j) & PRESENT != 0 {
                return false;
            }
            j += 1;
        }
        true
    }

    /// Removes the table in `child` when none of its entries is present,
    /// clearing entry `index` of `parent` that referenced it.
    fn release_if_empty<M: TableMemory>(&mut self, memory: &mut M, parent: u64, index: usize, child: u64) -> (removed: bool)
        requires
            old(self).arena_ok(),
            old(self).pt@.dom().contains(parent),
            old(self).pt@.dom().contains(child),
            parent != child,
            child != old(self).frames@[0],
            index < 512,
        ensures
            final(self).arena_ok(),
            final(self).kernel == old(self).kernel,
            final(self).frames@[0] == old(self).frames@[0],
            removed == all_absent(old(self).pt@[child]),
            removed ==> final(self).pt@ == old(self).pt@.insert(parent, old(self).pt@[parent].update(index as int, 0)).remove(child),
            removed ==> final(self).frames@.len() == old(self).frames@.len() - 1,
            !removed ==> *final(self) == *old(self),
    {
        let c = match self.slot_of(child) {
            Some(c) => c,
            None => {
                proof {
                    assert(false);
                }
                return false;
            },
        };
        if !self.table_empty(c) {
            return false;
        }
        let pi = match self.slot_of(parent) {
            Some(pi) => pi,
            None => {
                proof {
                    assert(false);
                }
                return false;
            },
        };
        self.set_entry(memory, pi, index, 0);
        let c2 = match self.slot_of(child) {
            Some(c2) => c2,
            None => {
                proof {
                    assert(false);
                }
                return false;
            },
        };
        proof {
            if c2 == 0 {
                assert(self.frames@[0] == old(self).frames@[0]);
            }
        }
        self.remove_table(memory, c2);
        true
    }
}


impl Space {
    /// Unmaps the page at `address` and releases the tables on its path that
    /// this leaves empty, the deepest first.
    fn unmap_page<M: TableMemory>(&mut self, memory: &mut M, address: u64, Ghost(slots): Ghost<Set<int>>)
        requires
            old(self).arena_ok(),
            layout_within(old(self)@, old(self).kernel, slots),
            in_user_range(address as int),
        ensures
            final(self).arena_ok(),
            final(self).kernel == old(self).kernel,
            final(self)@.root == old(self)@.root,
            layout_within(final(self)@, final(self).kernel, slots.remove(slot(address as int))),
            forall|b: int|
                in_user_range(b) ==> #[trigger] page_entry(final(self)@, b) == if b / 4096 == address / 4096 {
                    0
                } else {
                    page_entry(old(self)@, b)
                },
    {
        proof {
            lemma_index_bits(address);
            lemma_user_indices(address as int);
            lemma_entry_bits(0, 0, false, false);
        }
        let ghost a = address as int;
        let ghost k = slot(a);
        let ghost v0 = self@;
        let ghost s1 = slots.remove(k);
        let i0 = ((address >> 39u64) & 511) as usize;
        let i1 = ((address >> 30u64) & 511) as usize;
        let i2 = ((address >> 21u64) & 511) as usize;
        let i3 = ((address >> 12u64) & 511) as usize;
        let root = self.frames[0];
        let e0 = self.entry(0, i0);
        if e0 & PRESENT == 0 {
            proof {
                if pdpt_of(v0) is Some {
                    lemma_entry_bits(pdpt_of(v0)->0, 0, false, false);
                }
                assert(pdpt_of(v0) is None);
                assert forall|b: int| in_user_range(b) implies #[trigger] page_entry(v0, b) == if b / 4096 == a / 4096 {
                    0
                } else {
                    page_entry(v0, b)
                } by {}
            }
            return;
        }
        let ghost p = pdpt_of(v0)->0;
        proof {
            assert(pdpt_of(v0) is Some);
            lemma_entry_bits(p, 0, false, false);
        }
        let p_frame = e0 & ADDRESS;
        let p_slot = match self.slot_of(p_frame) {
            Some(j) => j,
            None => {
                proof {
                    assert(false);
                }
                return;
            },
        };
        let e1 = self.entry(p_slot, i1);
        if e1 & PRESENT == 0 {
            proof {
                if pd_of(v0) is Some {
                    lemma_entry_bits(pd_of(v0)->0, 0, false, false);
                }
                assert(pd_of(v0) is None);
                lemma_absent_is_empty(v0, self.kernel, p);
            }
            let removed = self.release_if_empty(memory, root, i0, p_frame);
            proof {
                let v = self@;
                assert(all_absent(v0.tables[p])) by {
                    assert forall|j: int| 0 <= j < 512 implies !present(#[trigger] v0.tables[p][j]) by {}
                }
                assert(removed);
                assert(v.tables.dom() =~= set![v.root]);
                assert(pdpt_of(v) is None);
                assert(v.tables[v.root] =~= v0.tables[v.root].update(1, 0));
            }
            return;
        }
        let ghost d = pd_of(v0)->0;
        proof {
            assert(pd_of(v0) is Some);
            lemma_entry_bits(d, 0, false, false);
        }
        let d_frame = e1 & ADDRESS;
        let d_slot = match self.slot_of(d_frame) {
            Some(j) => j,
            None => {
                proof {
                    assert(false);
                }
                return;
            },
        };
        let e2 = self.entry(d_slot, i2);
        if e2 & PRESENT == 0 {
            proof {
                if pt_of(v0, k) is Some {
                    lemma_entry_bits(pt_of(v0, k)->0, 0, false, false);
                }
                assert(pt_of(v0, k) is None);
                lemma_absent_is_empty(v0, self.kernel, d);
            }
            let removed = self.release_if_empty(memory, p_frame, i1, d_frame);
            if removed {
                proof {
                    let v = self@;
                    assert(pd_of(v) is None);
                    assert forall|kk: int| 0 <= kk < 64 implies pt_of(v0, kk) is None by {
                        if pt_of(v0, kk) is Some {
                            assert(v0.tables[d][kk] != 0);
                        }
                    }
                    assert(v.tables.dom() =~= set![v.root, p]);
                    assert(v.tables[p] =~= v0.tables[p].update(0, 0));
                    lemma_absent_is_empty(v, self.kernel, p);
                }
                let removed_p = self.release_if_empty(memory, root, i0, p_frame);
                proof {
                    let v = self@;
                    assert(removed_p) by {
                        assert forall|j: int| 0 <= j < 512 implies !present(#[trigger] v0.tables[p].update(0, 0)[j]) by {}
                    }
                    assert(v.tables.dom() =~= set![v.root]);
                    assert(pdpt_of(v) is None);
                    assert(v.tables[v.root] =~= v0.tables[v.root].update(1, 0));
                }
            } else {
                proof {
                    assert(layout_within(v0, self.kernel, s1)) by {
                        assert(nonempty(v0.tables[d]));
                    }
                }
            }
            return;
        }
        let ghost t = pt_of(v0, k)->0;
        proof {
            assert(pt_of(v0, k) is Some);
            lemma_entry_bits(t, 0, false, false);
        }
        let t_frame = e2 & ADDRESS;
        let t_slot = match self.slot_of(t_frame) {
            Some(j) => j,
            None => {
                proof {
                    assert(false);
                }
                return;
            },
        };
        self.set_entry(memory, t_slot, i3, 0);
        let ghost v1 = self@;
        proof {
            assert(v1.tables[t] == v0.tables[t].update(i3 as int, 0));
            assert(pdpt_of(v1) == pdpt_of(v0));
            assert(pd_of(v1) == pd_of(v0));
            assert forall|kk: int| 0 <= kk < 64 implies #[trigger] pt_of(v1, kk) == pt_of(v0, kk) by {}
            assert(v1.tables.dom() =~= v0.tables.dom());
            assert forall|b: int| in_user_range(b) implies #[trigger] page_entry(v1, b) == if b / 4096 == a / 4096 {
                0
            } else {
                page_entry(v0, b)
            } by {
                lemma_user_indices(b);
                lemma_same_page(a, b);
                if slot(b) != k && pt_of(v0, slot(b)) is Some {
                    assert(pt_of(v0, slot(b)) != pt_of(v0, k));
                }
            }
            assert forall|kk: int|
                #![trigger pt_of(v1, kk)]
                0 <= kk < 64 && pt_of(v1, kk) is Some implies {
                let tt = pt_of(v1, kk)->0;
                forall|j: int| 0 <= j < 512 ==> #[trigger] v1.tables[tt][j] == 0 || walkable(v1.tables[tt][j])
            } by {
                if kk != k {
                    assert(pt_of(v0, kk) != pt_of(v0, k));
                }
            }
            assert forall|g: u64| #[trigger] v1.tables.dom().contains(g) implies g == v1.root || g == p || g == d
                || exists|kk: int| 0 <= kk < 64 && pt_of(v1, kk) == Some(g) by {
                if !(g == v1.root || g == p || g == d) {
                    let kk = choose|kk: int| 0 <= kk < 64 && pt_of(v0, kk) == Some(g);
                    assert(pt_of(v1, kk) == Some(g));
                }
            }
            assert(v1.tables[v1.root] == v0.tables[v0.root]);
            assert(v1.tables[p] == v0.tables[p]);
            assert(v1.tables[d] == v0.tables[d]);
            assert(layout_loose(v1, self.kernel));
            lemma_absent_is_empty(v1, self.kernel, t);
        }
        let removed_t = self.release_if_empty(memory, d_frame, i2, t_frame);
        if !removed_t {
            proof {
                assert forall|kk: int|
                    0 <= kk < 64 && #[trigger] pt_of(v1, kk) is Some && !nonempty(v1.tables[pt_of(v1, kk)->0])
                    implies s1.contains(kk) by {
                    if kk != k {
                        assert(pt_of(v0, kk) != pt_of(v0, k));
                        assert(v1.tables[pt_of(v1, kk)->0] == v0.tables[pt_of(v0, kk)->0]);
                    }
                }
                assert(nonempty(v1.tables[d])) by {
                    assert(v1.tables[d][k] != 0);
                }
            }
            return;
        }
        let ghost v2 = self@;
        proof {
            assert(v2.tables.dom() =~= v1.tables.dom().remove(t));
            assert(pdpt_of(v2) == pdpt_of(v0));
            assert(pd_of(v2) == pd_of(v0));
            assert(pt_of(v2, k) is None);
            assert forall|kk: int| 0 <= kk < 64 && kk != k implies #[trigger] pt_of(v2, kk) == pt_of(v1, kk) by {}
            assert forall|b: int| in_user_range(b) implies #[trigger] page_entry(v2, b) == page_entry(v1, b) by {
                lemma_user_indices(b);
                if slot(b) == k {
                    assert forall|j: int| 0 <= j < 512 implies #[trigger] v1.tables[t][j] == 0 by {
                        assert(!present(v1.tables[t][j]));
                        if v1.tables[t][j] != 0 {
                            lemma_walkable_present(v1.tables[t][j]);
                        }
                    }
                    assert(v1.tables[t][index_at(b, 3)] == 0);
                } else if pt_of(v1, slot(b)) is Some {
                    assert(pt_of(v1, slot(b)) != pt_of(v1, k));
                }
            }
            assert forall|g: u64| #[trigger] v2.tables.dom().contains(g) implies g == v2.root || g == p || g == d
                || exists|kk: int| 0 <= kk < 64 && pt_of(v2, kk) == Some(g) by {
                if !(g == v2.root || g == p || g == d) {
                    let kk = choose|kk: int| 0 <= kk < 64 && pt_of(v1, kk) == Some(g);
                    assert(kk != k);
                    assert(pt_of(v2, kk) == Some(g));
                }
            }
            assert forall|kk: int|
                #![trigger pt_of(v2, kk)]
                0 <= kk < 64 && pt_of(v2, kk) is Some implies {
                let tt = pt_of(v2, kk)->0;
                &&& v2.tables[d][kk] == table_entry(tt)
                &&& v2.tables.dom().contains(tt)
                &&& tt != v2.root && tt != p && tt != d
                &&& forall|j: int| 0 <= j < 512 ==> #[trigger] v2.tables[tt][j] == 0 || walkable(v2.tables[tt][j])
            } by {
                assert(kk != k);
                assert(pt_of(v1, kk) != pt_of(v1, k));
            }
            assert(zero_except(v2.tables[d], |kk: int| kk < 64));
            assert(layout_loose(v2, self.kernel));
            lemma_absent_is_empty(v2, self.kernel, d);
        }
        let removed_d = self.release_if_empty(memory, p_frame, i1, d_frame);
        if !removed_d {
            proof {
                assert forall|kk: int|
                    0 <= kk < 64 && #[trigger] pt_of(v2, kk) is Some && !nonempty(v2.tables[pt_of(v2, kk)->0])
                    implies s1.contains(kk) by {
                    assert(kk != k);
                    assert(pt_of(v1, kk) != pt_of(v1, k));
                    assert(v2.tables[pt_of(v2, kk)->0] == v0.tables[pt_of(v0, kk)->0]);
                }
            }
            return;
        }
        let ghost v3 = self@;
        proof {
            assert forall|kk: int| 0 <= kk < 64 implies pt_of(v2, kk) is None by {
                if pt_of(v2, kk) is Some {
                    assert(v2.tables[d][kk] != 0);
                    lemma_entry_bits(pt_of(v2, kk)->0, 0, false, false);
                }
            }
            assert(v3.tables.dom() =~= set![v3.root, p]) by {
                assert forall|g: u64| v2.tables.dom().contains(g) implies g == v2.root || g == p || g == d by {
                    if !(g == v2.root || g == p || g == d) {
                        let kk = choose|kk: int| 0 <= kk < 64 && pt_of(v2, kk) == Some(g);
                    }
                }
            }
            assert(pd_of(v3) is None);
            assert(v3.tables[p] =~= v2.tables[p].update(0, 0));
            assert forall|b: int| in_user_range(b) implies #[trigger] page_entry(v3, b) == page_entry(v2, b) by {
                lemma_user_indices(b);
            }
            assert(layout_loose(v3, self.kernel));
            lemma_absent_is_empty(v3, self.kernel, p);
            assert(all_absent(v3.tables[p])) by {
                assert forall|j: int| 0 <= j < 512 implies !present(#[trigger] v3.tables[p][j]) by {
                    if j != 0 {
                        assert(v0.tables[p][j] == 0);
                    }
                }
            }
        }
        let removed_p = self.release_if_empty(memory, root, i0, p_frame);
        proof {
            let v = self@;
            assert(removed_p);
            assert(v.tables.dom() =~= set![v.root]);
            assert(pdpt_of(v) is None);
            assert(v.tables[v.root] =~= v0.tables[v.root].update(1, 0));
            assert forall|b: int| in_user_range(b) implies #[trigger] page_entry(v, b) == page_entry(v3, b) by {
                lemma_user_indices(b);
            }
        }
    }
}


/// The start of the page holding `b`.
pub open spec fn page_base(b: int) -> int {
    b / 4096 * 4096
}

/// `b` lies in one of the pages that start in `[lo, lo + size)`.
pub open spec fn in_pages(b: int, lo: int, size: int) -> bool {
    lo <= page_base(b) < lo + size
}

/// The 2 MiB slots that addresses in `[lo, hi)` fall in.
pub open spec fn slots_of(lo: int, hi: int) -> Set<int> {
    Set::new(|k: int| exists|q: int| lo <= q < hi && in_user_range(q) && slot(q) == k)
}

proof fn lemma_page_base(b: int)
    requires
        b >= 0,
    ensures
        page_base(b) <= b < page_base(b) + 4096,
        page_base(b) % 4096 == 0,
        page_base(b) / 4096 == b / 4096,
{
}

impl Space {
    /// Unmaps the pages starting in `[start, start + size)`; the tables that
    /// may be empty on entry lie on those pages' paths.
    fn unmap_range<M: TableMemory>(&mut self, memory: &mut M, start: u64, size: u64, Ghost(slots): Ghost<Set<int>>)
        requires
            old(self).arena_ok(),
            layout_within(old(self)@, old(self).kernel, slots),
            slots.subset_of(slots_of(start as int, start + size)),
            USER_IMAGE <= start,
            start % 4096 == 0,
            start + size <= USER_END,
        ensures
            final(self).arena_ok(),
            final(self).kernel == old(self).kernel,
            final(self)@.root == old(self)@.root,
            layout_ok(final(self)@, final(self).kernel),
            forall|b: int|
                in_user_range(b) ==> #[trigger] page_entry(final(self)@, b) == if in_pages(b, start as int, size as int) {
                    0
                } else {
                    page_entry(old(self)@, b)
                },
    {
        let mut offset: u64 = 0;
        while offset < size
            invariant
                self.arena_ok(),
                self.kernel == old(self).kernel,
                self@.root == old(self)@.root,
                USER_IMAGE <= start,
                start % 4096 == 0,
                start + size <= USER_END,
                offset % 4096 == 0,
                offset <= size + 4095,
                layout_within(self@, self.kernel, slots.intersect(slots_of(start + offset, start + size))),
                forall|b: int|
                    in_user_range(b) ==> #[trigger] page_entry(self@, b) == if in_pages(b, start as int, offset as int) {
                        0
                    } else {
                        page_entry(old(self)@, b)
                    },
            decreases size + 4096 - offset,
        {
            let address = start + offset;
            let ghost s0 = slots.intersect(slots_of(start + offset, start + size));
            let ghost v0 = self@;
            self.unmap_page(memory, address, Ghost(s0));
            proof {
                let s1 = slots.intersect(slots_of(start + offset + 4096, start + size));
                assert(s0.remove(slot(address as int)).subset_of(s1)) by {
                    assert forall|kk: int| s0.remove(slot(address as int)).contains(kk) implies s1.contains(kk) by {
                        let q = choose|q: int| start + offset <= q < start + size && in_user_range(q) && slot(q) == kk;
                        if q < start + offset + 4096 {
                            lemma_same_page(address as int, q);
                        }
                    }
                }
                lemma_within_grow(self@, self.kernel, s0.remove(slot(address as int)), s1);
                assert forall|b: int| in_user_range(b) implies #[trigger] page_entry(self@, b) == if in_pages(
                    b,
                    start as int,
                    offset + 4096,
                ) {
                    0
                } else {
                    page_entry(old(self)@, b)
                } by {
                    lemma_page_base(b);
                    assert((b / 4096 == address / 4096) == (page_base(b) == address));
                }
            }
            offset = offset + PAGE;
        }
        proof {
            assert(slots.intersect(slots_of(start + offset, start + size)) =~= Set::empty());
            lemma_within_empty(self@, self.kernel);
            assert forall|b: int| in_user_range(b) implies #[trigger] page_entry(self@, b) == if in_pages(
                b,
                start as int,
                size as int,
            ) {
                0
            } else {
                page_entry(old(self)@, b)
            } by {
                lemma_page_base(b);
                assert(in_pages(b, start as int, size as int) == in_pages(b, start as int, offset as int));
            }
        }
    }

    /// Unmaps the pages starting in `[start, start + size)` and releases the
    /// page tables this leaves empty.
    pub fn unmap<M: TableMemory>(&mut self, memory: &mut M, start: u64, size: u64)
        requires
            old(self).wf(),
            USER_IMAGE <= start,
            start % PAGE == 0,
            start + size <= USER_END,
        ensures
            final(self).wf(),
            final(self).kernel_tables() == old(self).kernel_tables(),
            final(self)@.root == old(self)@.root,
            forall|b: int|
                #[trigger] translate(final(self)@, b) == if in_pages(b, start as int, size as int) {
                    None
                } else {
                    translate(old(self)@, b)
                },
            final(self).table_count() == tables_needed(final(self)@),
            final(self).table_count() <= old(self).table_count(),
    {
        let ghost v0 = self@;
        proof {
            lemma_within_empty(self@, self.kernel);
        }
        self.unmap_range(memory, start, size, Ghost(Set::empty()));
        proof {
            assert forall|b: int| #[trigger] translate(self@, b) == if in_pages(b, start as int, size as int) {
                None
            } else {
                translate(v0, b)
            } by {
                if in_user_range(b) {
                    lemma_translate_layout(self@, self.kernel, b);
                    lemma_translate_layout(v0, self.kernel, b);
                    lemma_entry_bits(0, 0, false, false);
                } else if b >= 0 {
                    lemma_page_base(b);
                }
            }
            self.lemma_table_count();
            old(self).lemma_table_count();
            lemma_needed_monotone(self@, v0);
        }
    }
}


/// What `map` refuses outright: a start outside the user range or not
/// page-aligned, an unaligned physical address, a writable and executable
/// mapping, or a range running past the user range or the address space.
pub open spec fn mapping_invalid(virtual_start: u64, physical: u64, size: u64, writable: bool, executable: bool) -> bool {
    ||| virtual_start < USER_IMAGE
    ||| virtual_start >= USER_END
    ||| virtual_start % 4096 != 0
    ||| physical % 4096 != 0
    ||| (writable && executable)
    ||| virtual_start + size > USER_END
    ||| physical + size > u64::MAX
}

/// Some page starting in `[virtual_start, virtual_start + size)` is already mapped.
pub open spec fn mapping_overlaps(v: PtView, virtual_start: u64, size: u64) -> bool {
    exists|b: int| in_pages(b, virtual_start as int, size as int) && #[trigger] translate(v, b) is Some
}

/// Unmapping the pages a mapping added gives the space back as it was: when
/// `map` turned `before` into `mapped` over the pages starting in `[start,
/// start + size)`, none of which `before` mapped, and `unmap` of the same
/// range turned `mapped` into `after`, every address translates in `after`
/// as in `before`, and `after` needs as many tables.
pub proof fn law_unmap_undoes_map(
    before: PtView,
    mapped: PtView,
    after: PtView,
    start: u64,
    physical: u64,
    size: u64,
    writable: bool,
    executable: bool,
)
    requires
        !mapping_overlaps(before, start, size),
        forall|b: int|
            #[trigger] translate(mapped, b) == if in_pages(b, start as int, size as int) {
                Some(mapped_translation(start, physical, writable, executable, b))
            } else {
                translate(before, b)
            },
        forall|b: int|
            #[trigger] translate(after, b) == if in_pages(b, start as int, size as int) {
                None
            } else {
                translate(mapped, b)
            },
    ensures
        forall|b: int| #[trigger] translate(after, b) == translate(before, b),
        tables_needed(after) == tables_needed(before),
{
    assert forall|b: int| #[trigger] translate(after, b) == translate(before, b) by {
        if in_pages(b, start as int, size as int) {
            assert(translate(mapped, b) is Some);
            if translate(before, b) is Some {
                assert(mapping_overlaps(before, start, size));
            }
        } else {
            assert(translate(mapped, b) == translate(before, b));
        }
    }
    lemma_needed_by_translations(after, before);
}

/// The leaf entry `map` writes for the page holding `b`.
pub open spec fn mapped_entry(virtual_start: u64, physical: u64, writable: bool, executable: bool, b: int) -> u64 {
    leaf_entry((physical + (page_base(b) - virtual_start)) as u64, writable, executable)
}

/// No page is both writable and executable: every entry `map` writes for
/// a mapping it accepts is present and open to user code, allows writing
/// exactly when the mapping is writable, and then forbids execution.
pub proof fn law_write_xor_execute(
    virtual_start: u64,
    physical: u64,
    size: u64,
    writable: bool,
    executable: bool,
    b: int,
)
    requires
        !mapping_invalid(virtual_start, physical, size, writable, executable),
        in_pages(b, virtual_start as int, size as int),
    ensures
        ({
            let e = mapped_entry(virtual_start, physical, writable, executable, b);
            &&& e & PRESENT == PRESENT
            &&& e & USER == USER
            &&& (e & WRITE == WRITE) == writable
            &&& e & WRITE == WRITE ==> e & NX == NX
        }),
{
    assert(b >= 0);
    lemma_page_base(b);
    let a = (physical + (page_base(b) - virtual_start)) as u64;
    assert(a % 4096 == 0);
    let w: u64 = if writable { 2 } else { 0 };
    let x: u64 = if executable { 0 } else { 0x8000_0000_0000_0000 };
    let e = a | 1 | 4 | w | x;
    assert(mapped_entry(virtual_start, physical, writable, executable, b) == e);
    assert(e & 1 == 1 && e & 4 == 4 && (e & 2 == 2) == (w == 2) && (x != 0 ==> e & 0x8000_0000_0000_0000 == 0x8000_0000_0000_0000))
        by (bit_vector)
        requires
            e == a | 1 | 4 | w | x,
            a % 4096 == 0,
            w == 0 || w == 2,
            x == 0 || x == 0x8000_0000_0000_0000u64,
    ;
}

/// Where an access to `b` lands after `map`.
pub open spec fn mapped_translation(virtual_start: u64, physical: u64, writable: bool, executable: bool, b: int) -> u64 {
    (frame_of(mapped_entry(virtual_start, physical, writable, executable, b)) + b % 4096) as u64
}

proof fn lemma_leaf_or_empty(v: PtView, kernel: u64, b: int)
    requires
        layout_loose(v, kernel),
        in_user_range(b),
    ensures
        page_entry(v, b) == 0 || walkable(page_entry(v, b)),
{
    lemma_user_indices(b);
}

impl Space {
    /// Maps `[virtual_start, virtual_start + size)` to physical memory from
    /// `physical` on, user-accessible, writable or executable but never both
    /// (writable pages are not executable). All or nothing: before writing
    /// anything it refuses a range that overlaps a mapped page, and when it
    /// runs out of tables or memory part-way it unmaps what it mapped, so the
    /// translations are as before.
    pub fn map<M: TableMemory>(
        &mut self,
        memory: &mut M,
        virtual_start: u64,
        physical: u64,
        size: u64,
        writable: bool,
        executable: bool,
    ) -> (r: Result<(), &'static str>)
        requires
            old(self).wf(),
        ensures
            final(self).wf(),
            final(self).kernel_tables() == old(self).kernel_tables(),
            final(self)@.root == old(self)@.root,
            mapping_invalid(virtual_start, physical, size, writable, executable) ==> r == Err::<(), &'static str>(
                "INVALID USER MAPPING",
            ) && *final(self) == *old(self),
            !mapping_invalid(virtual_start, physical, size, writable, executable) && mapping_overlaps(
                old(self)@,
                virtual_start,
                size,
            ) ==> r == Err::<(), &'static str>("OVERLAPPING USER PAGES") && *final(self) == *old(self),
            r is Ok ==> !mapping_invalid(virtual_start, physical, size, writable, executable) && forall|b: int|
                #[trigger] translate(final(self)@, b) == if in_pages(b, virtual_start as int, size as int) {
                    Some(mapped_translation(virtual_start, physical, writable, executable, b))
                } else {
                    translate(old(self)@, b)
                },
            r is Ok ==> forall|b: int|
                in_user_range(b) ==> #[trigger] page_entry(final(self)@, b) == if in_pages(b, virtual_start as int, size as int) {
                    mapped_entry(virtual_start, physical, writable, executable, b)
                } else {
                    page_entry(old(self)@, b)
                },
            r is Err ==> forall|b: int| #[trigger] translate(final(self)@, b) == translate(old(self)@, b),
            final(self).table_count() == tables_needed(final(self)@),
            r is Err ==> final(self).table_count() == old(self).table_count(),
            r is Ok ==> !mapping_overlaps(old(self)@, virtual_start, size),
            r matches Err(e) ==> e == "INVALID USER MAPPING" || e == "OVERLAPPING USER PAGES" || e
                == "PAGE TABLE LIMIT" || e == "OUT OF MEMORY" || e == "INVALID PAGE TABLE FRAME",
            !mapping_invalid(virtual_start, physical, size, writable, executable) && !mapping_overlaps(
                old(self)@,
                virtual_start,
                size,
            ) && tables_ready(old(self)@, virtual_start as int, size as int) ==> r is Ok,
            r == Err::<(), &'static str>("PAGE TABLE LIMIT") ==> tables_after(
                old(self)@,
                virtual_start as int,
                size as int,
            ) > MAX_TABLES,
    {
        let r = self.map_pages(memory, virtual_start, physical, size, writable, executable);
        proof {
            self.lemma_table_count();
            old(self).lemma_table_count();
            if r is Err {
                lemma_needed_by_translations(self@, old(self)@);
            }
        }
        r
    }

    /// `map` without its statement on table counts.
    #[verifier::rlimit(100)]
    #[verifier::spinoff_prover]
    fn map_pages<M: TableMemory>(
        &mut self,
        memory: &mut M,
        virtual_start: u64,
        physical: u64,
        size: u64,
        writable: bool,
        executable: bool,
    ) -> (r: Result<(), &'static str>)
        requires
            old(self).wf(),
        ensures
            final(self).wf(),
            final(self).kernel_tables() == old(self).kernel_tables(),
            final(self)@.root == old(self)@.root,
            mapping_invalid(virtual_start, physical, size, writable, executable) ==> r == Err::<(), &'static str>(
                "INVALID USER MAPPING",
            ) && *final(self) == *old(self),
            !mapping_invalid(virtual_start, physical, size, writable, executable) && mapping_overlaps(
                old(self)@,
                virtual_start,
                size,
            ) ==> r == Err::<(), &'static str>("OVERLAPPING USER PAGES") && *final(self) == *old(self),
            r is Ok ==> !mapping_invalid(virtual_start, physical, size, writable, executable) && forall|b: int|
                #[trigger] translate(final(self)@, b) == if in_pages(b, virtual_start as int, size as int) {
                    Some(mapped_translation(virtual_start, physical, writable, executable, b))
                } else {
                    translate(old(self)@, b)
                },
            r is Ok ==> forall|b: int|
                in_user_range(b) ==> #[trigger] page_entry(final(self)@, b) == if in_pages(b, virtual_start as int, size as int) {
                    mapped_entry(virtual_start, physical, writable, executable, b)
                } else {
                    page_entry(old(self)@, b)
                },
            r is Err ==> forall|b: int| #[trigger] translate(final(self)@, b) == translate(old(self)@, b),
            r matches Err(e) ==> e == "INVALID USER MAPPING" || e == "OVERLAPPING USER PAGES" || e
                == "PAGE TABLE LIMIT" || e == "OUT OF MEMORY" || e == "INVALID PAGE TABLE FRAME",
            !mapping_invalid(virtual_start, physical, size, writable, executable) && !mapping_overlaps(
                old(self)@,
                virtual_start,
                size,
            ) && tables_ready(old(self)@, virtual_start as int, size as int) ==> r is Ok,
            r == Err::<(), &'static str>("PAGE TABLE LIMIT") ==> tables_after(
                old(self)@,
                virtual_start as int,
                size as int,
            ) > MAX_TABLES,
    {
        let end = virtual_start.checked_add(size);
        let physical_end = physical.checked_add(size);
        if virtual_start < USER_IMAGE || virtual_start >= USER_END || virtual_start % PAGE != 0
            || physical % PAGE != 0 || (writable && executable) || match end {
            None => true,
            Some(e) => e > USER_END,
        } || physical_end.is_none() {
            return Err("INVALID USER MAPPING");
        }
        assert(!mapping_invalid(virtual_start, physical, size, writable, executable));
        let ghost v0 = self@;
        let mut offset: u64 = 0;
        while offset < size
            invariant
                self.wf(),
                self@ == v0,
                *self == *old(self),
                !mapping_invalid(virtual_start, physical, size, writable, executable),
                USER_IMAGE <= virtual_start,
                virtual_start % 4096 == 0,
                virtual_start + size <= USER_END,
                offset % 4096 == 0,
                offset <= size + 4095,
                forall|b: int| in_pages(b, virtual_start as int, offset as int) ==> #[trigger] translate(v0, b) is None,
            decreases size + 4096 - offset,
        {
            if self.readable(virtual_start + offset).is_some() {
                proof {
                    let a = (virtual_start + offset) as int;
                    lemma_page_base(a);
                    assert(in_pages(a, virtual_start as int, size as int));
                }
                return Err("OVERLAPPING USER PAGES");
            }
            proof {
                let a = (virtual_start + offset) as int;
                assert forall|b: int| in_pages(b, virtual_start as int, offset + 4096) implies #[trigger] translate(
                    v0,
                    b,
                ) is None by {
                    if !in_pages(b, virtual_start as int, offset as int) {
                        lemma_page_base(b);
                        lemma_translate_page(v0, a, b);
                    }
                }
            }
            offset = offset + PAGE;
        }
        proof {
            assert(!mapping_overlaps(v0, virtual_start, size)) by {
                assert forall|b: int| in_pages(b, virtual_start as int, size as int) implies !(#[trigger] translate(v0, b) is Some) by {
                    lemma_page_base(b);
                    assert(in_pages(b, virtual_start as int, offset as int));
                }
            }
            assert forall|b: int| in_user_range(b) && in_pages(b, virtual_start as int, size as int) implies #[trigger] page_entry(v0, b) == 0 by {
                lemma_page_base(b);
                assert(in_pages(b, virtual_start as int, offset as int));
                lemma_translate_layout(v0, self.kernel, b);
                lemma_leaf_or_empty(v0, self.kernel, b);
            }
            lemma_within_empty(self@, self.kernel);
        }
        self.fill_range(memory, virtual_start, physical, size, writable, executable)
    }
}

/// Every slot the pages starting in `[start, start + size)` fall in
/// already has its page table.
pub open spec fn tables_ready(v: PtView, start: int, size: int) -> bool {
    slots_of(start, start + size).subset_of(used_slots(v))
}

/// The tables a space would hold with the pages starting in `[start, start +
/// size)` mapped besides its own.
pub open spec fn tables_after(v: PtView, start: int, size: int) -> nat {
    tables_for(used_slots(v).union(slots_of(start, start + size)))
}

proof fn lemma_used_finite(v: PtView)
    ensures
        used_slots(v).finite(),
        used_slots(v).subset_of(vstd::set_lib::set_int_range(0, 64)),
{
    vstd::set_lib::lemma_int_range(0, 64);
    vstd::set_lib::lemma_len_subset(used_slots(v), vstd::set_lib::set_int_range(0, 64));
}

/// Fewer slots never take more tables.
proof fn lemma_tables_for_mono(a: Set<int>, b: Set<int>)
    requires
        a.subset_of(b),
        b.subset_of(vstd::set_lib::set_int_range(0, 64)),
    ensures
        tables_for(a) <= tables_for(b),
{
    vstd::set_lib::lemma_int_range(0, 64);
    vstd::set_lib::lemma_len_subset(b, vstd::set_lib::set_int_range(0, 64));
    vstd::set_lib::lemma_len_subset(a, b);
    if !a.is_empty() {
        let k = a.choose();
        assert(b.contains(k));
    }
}

/// Mapping a page at `a` makes the space need `missing_tables` more.
proof fn lemma_missing(v: PtView, kernel: u64, a: int)
    requires
        layout_ok(v, kernel),
        in_user_range(a),
    ensures
        tables_for(used_slots(v).insert(slot(a))) == tables_needed(v) + missing_tables(v, a),
{
    lemma_used_finite(v);
    lemma_user_indices(a);
    let u = used_slots(v);
    lemma_pt_used(v, kernel, slot(a));
    match pdpt_of(v) {
        None => {
            assert forall|k: int| !u.contains(k) by {
                if 0 <= k < 64 {
                    lemma_pt_used(v, kernel, k);
                }
            }
            assert(u =~= Set::empty());
            assert(u.insert(slot(a)) =~= set![slot(a)]);
        },
        Some(p) => {
            let d = pd_of(v)->0;
            let j = choose|j: int| 0 <= j < 512 && v.tables[d][j] != 0;
            assert(pt_of(v, j) is Some);
            lemma_pt_used(v, kernel, j);
            assert(u.contains(j));
        },
    }
}

/// While the pages of a range are being mapped, the slots in use are those
/// in use before, and perhaps some of the range's.
proof fn lemma_used_between(v0: PtView, v1: PtView, kernel: u64, start: u64, size: u64, offset: u64)
    requires
        layout_ok(v0, kernel),
        layout_ok(v1, kernel),
        !mapping_overlaps(v0, start, size),
        forall|b: int|
            in_user_range(b) && !in_pages(b, start as int, offset as int) ==> #[trigger] page_entry(v1, b)
                == page_entry(v0, b),
        offset <= size,
    ensures
        used_slots(v0).subset_of(used_slots(v1)),
        used_slots(v1).subset_of(used_slots(v0).union(slots_of(start as int, start + size))),
{
    lemma_used_grows(v0, v1, kernel, start, size, offset);
    lemma_used_bounded(v0, v1, kernel, start, size, offset);
}

proof fn lemma_used_grows(v0: PtView, v1: PtView, kernel: u64, start: u64, size: u64, offset: u64)
    requires
        layout_ok(v0, kernel),
        layout_ok(v1, kernel),
        !mapping_overlaps(v0, start, size),
        forall|b: int|
            in_user_range(b) && !in_pages(b, start as int, offset as int) ==> #[trigger] page_entry(v1, b)
                == page_entry(v0, b),
        offset <= size,
    ensures
        used_slots(v0).subset_of(used_slots(v1)),
{
    assert forall|k: int| used_slots(v0).contains(k) implies used_slots(v1).contains(k) by {
        let b = choose|b: int| slot(b) == k && #[trigger] translate(v0, b) is Some;
        lemma_translate_layout(v0, kernel, b);
        if in_pages(b, start as int, offset as int) {
            assert(in_pages(b, start as int, size as int));
            assert(mapping_overlaps(v0, start, size));
        }
        lemma_translate_layout(v1, kernel, b);
        assert(translate(v1, b) is Some);
    }
}

proof fn lemma_used_bounded(v0: PtView, v1: PtView, kernel: u64, start: u64, size: u64, offset: u64)
    requires
        layout_ok(v0, kernel),
        layout_ok(v1, kernel),
        forall|b: int|
            in_user_range(b) && !in_pages(b, start as int, offset as int) ==> #[trigger] page_entry(v1, b)
                == page_entry(v0, b),
        offset <= size,
    ensures
        used_slots(v1).subset_of(used_slots(v0).union(slots_of(start as int, start + size))),
{
    assert forall|k: int| used_slots(v1).contains(k) implies used_slots(v0).union(
        slots_of(start as int, start + size),
    ).contains(k) by {
        let b = choose|b: int| slot(b) == k && #[trigger] translate(v1, b) is Some;
        lemma_translate_layout(v1, kernel, b);
        if in_pages(b, start as int, offset as int) {
            lemma_page_base(b);
            let q = page_base(b);
            assert(in_user_range(q) && slot(q) == slot(b));
            assert(start <= q < start + size);
        } else {
            lemma_translate_layout(v0, kernel, b);
            assert(translate(v0, b) is Some);
        }
    }
}

/// A page of the range whose table is missing shows that the range's tables
/// were not all there; and when the arena was full on the way, the range
/// needs more tables than it may hold.
proof fn lemma_fill_failed(
    v0: PtView,
    v1: PtView,
    kernel: u64,
    start: int,
    size: int,
    a: int,
    n1: nat,
    limit: bool,
)
    requires
        layout_ok(v0, kernel),
        layout_ok(v1, kernel),
        used_slots(v0).subset_of(used_slots(v1)),
        used_slots(v1).subset_of(used_slots(v0).union(slots_of(start, start + size))),
        n1 == tables_needed(v1),
        in_user_range(a),
        start <= a < start + size,
        pt_of(v1, slot(a)) is None,
        limit ==> n1 + missing_tables(v1, a) > MAX_TABLES,
    ensures
        !tables_ready(v0, start, size),
        limit ==> tables_after(v0, start, size) > MAX_TABLES,
{
    lemma_user_indices(a);
    assert(slots_of(start, start + size).contains(slot(a)));
    lemma_pt_used(v1, kernel, slot(a));
    lemma_used_finite(v0);
    let all = used_slots(v0).union(slots_of(start, start + size));
    assert(all.subset_of(vstd::set_lib::set_int_range(0, 64))) by {
        assert forall|k: int| #[trigger] slots_of(start, start + size).contains(k) implies 0 <= k < 64 by {
            let q = choose|q: int| start <= q < start + size && in_user_range(q) && slot(q) == k;
            lemma_user_indices(q);
        }
    }
    if limit {
        lemma_missing(v1, kernel, a);
        lemma_tables_for_mono(used_slots(v1).insert(slot(a)), all);
    }
}

impl Space {
    /// Maps the pages of a valid request that overlaps nothing, page by
    /// page; when tables run out part-way it unmaps what it mapped.
    #[verifier::rlimit(100)]
    #[verifier::spinoff_prover]
    fn fill_range<M: TableMemory>(
        &mut self,
        memory: &mut M,
        virtual_start: u64,
        physical: u64,
        size: u64,
        writable: bool,
        executable: bool,
    ) -> (r: Result<(), &'static str>)
        requires
            old(self).wf(),
            !mapping_invalid(virtual_start, physical, size, writable, executable),
            !mapping_overlaps(old(self)@, virtual_start, size),
            forall|b: int|
                in_user_range(b) && in_pages(b, virtual_start as int, size as int) ==> #[trigger] page_entry(
                    old(self)@,
                    b,
                ) == 0,
        ensures
            final(self).wf(),
            final(self).kernel_tables() == old(self).kernel_tables(),
            final(self)@.root == old(self)@.root,
            r is Ok ==> forall|b: int|
                #[trigger] translate(final(self)@, b) == if in_pages(b, virtual_start as int, size as int) {
                    Some(mapped_translation(virtual_start, physical, writable, executable, b))
                } else {
                    translate(old(self)@, b)
                },
            r is Ok ==> forall|b: int|
                in_user_range(b) ==> #[trigger] page_entry(final(self)@, b) == if in_pages(b, virtual_start as int, size as int) {
                    mapped_entry(virtual_start, physical, writable, executable, b)
                } else {
                    page_entry(old(self)@, b)
                },
            r is Err ==> forall|b: int| #[trigger] translate(final(self)@, b) == translate(old(self)@, b),
            r matches Err(e) ==> e == "PAGE TABLE LIMIT" || e == "OUT OF MEMORY" || e == "INVALID PAGE TABLE FRAME",
            tables_ready(old(self)@, virtual_start as int, size as int) ==> r is Ok,
            r == Err::<(), &'static str>("PAGE TABLE LIMIT") ==> tables_after(
                old(self)@,
                virtual_start as int,
                size as int,
            ) > MAX_TABLES,
    {
        let ghost v0 = self@;
        proof {
            lemma_within_empty(self@, self.kernel);
        }
        let mut offset: u64 = 0;
        while offset < size
            invariant
                self.arena_ok(),
                layout_ok(self@, self.kernel),
                self.kernel == old(self).kernel,
                self@.root == v0.root,
                v0 == old(self)@,
                layout_ok(v0, self.kernel),
                !mapping_invalid(virtual_start, physical, size, writable, executable),
                !mapping_overlaps(v0, virtual_start, size),
                USER_IMAGE <= virtual_start,
                virtual_start % 4096 == 0,
                virtual_start + size <= USER_END,
                physical % 4096 == 0,
                physical + size <= u64::MAX,
                !(writable && executable),
                offset % 4096 == 0,
                offset <= size + 4095,
                forall|b: int|
                    in_user_range(b) && in_pages(b, virtual_start as int, size as int) ==> #[trigger] page_entry(v0, b) == 0,
                forall|b: int|
                    in_user_range(b) ==> #[trigger] page_entry(self@, b) == if in_pages(b, virtual_start as int, offset as int) {
                        mapped_entry(virtual_start, physical, writable, executable, b)
                    } else {
                        page_entry(v0, b)
                    },
            decreases size + 4096 - offset,
        {
            let address = virtual_start + offset;
            let value = (physical + offset) | PRESENT | USER | (if writable {
                WRITE
            } else {
                0
            }) | (if executable {
                0
            } else {
                NX
            });
            proof {
                let a = address as int;
                lemma_page_base(a);
                assert(page_base(a) == a);
                assert(value == mapped_entry(virtual_start, physical, writable, executable, a));
                lemma_entry_bits(0, (physical + offset) as u64, writable, executable);
                lemma_within_empty(self@, self.kernel);
                assert(page_entry(self@, a) == 0);
            }
            let ghost v1 = self@;
            let ghost n1 = self.frames@.len();
            proof {
                self.lemma_table_count();
                lemma_used_between(v0, v1, self.kernel, virtual_start, size, offset);
            }
            match self.map_page(memory, address, value) {
                Ok(()) => {},
                Err(e) => {
                    proof {
                        lemma_fill_failed(
                            v0,
                            v1,
                            self.kernel,
                            virtual_start as int,
                            size as int,
                            address as int,
                            n1,
                            e == "PAGE TABLE LIMIT",
                        );
                        let a = address as int;
                        assert(set![slot(a)].subset_of(slots_of(virtual_start as int, virtual_start + size))) by {
                            assert(set![slot(a)].contains(slot(a)));
                            assert(virtual_start <= a < virtual_start + size && in_user_range(a) && slot(a) == slot(a));
                        }
                    }
                    let ghost failed = set![slot(address as int)];
                    self.unmap_range(memory, virtual_start, size, Ghost(failed));
                    proof {
                        lemma_within_empty(self@, self.kernel);
                        assert forall|b: int| #[trigger] translate(self@, b) == translate(old(self)@, b) by {
                            if in_user_range(b) {
                                lemma_translate_layout(self@, self.kernel, b);
                                lemma_translate_layout(v0, self.kernel, b);
                                if !in_pages(b, virtual_start as int, size as int) {
                                    lemma_page_base(b);
                                    assert(!in_pages(b, virtual_start as int, offset as int));
                                    assert(b / 4096 != address / 4096);
                                }
                            }
                        }
                    }
                    return Err(e);
                },
            }
            proof {
                let a = address as int;
                lemma_within_empty(self@, self.kernel);
                assert forall|b: int| in_user_range(b) implies #[trigger] page_entry(self@, b) == if in_pages(
                    b,
                    virtual_start as int,
                    offset + 4096,
                ) {
                    mapped_entry(virtual_start, physical, writable, executable, b)
                } else {
                    page_entry(v0, b)
                } by {
                    lemma_page_base(b);
                    lemma_page_base(a);
                    assert((b / 4096 == a / 4096) == (page_base(b) == a));
                    if page_base(b) == a {
                        assert(mapped_entry(virtual_start, physical, writable, executable, b) == mapped_entry(
                            virtual_start,
                            physical,
                            writable,
                            executable,
                            a,
                        ));
                    }
                }
            }
            offset = offset + PAGE;
        }
        proof {
            lemma_within_empty(self@, self.kernel);
            assert forall|b: int| in_user_range(b) implies #[trigger] page_entry(self@, b) == if in_pages(
                b,
                virtual_start as int,
                size as int,
            ) {
                mapped_entry(virtual_start, physical, writable, executable, b)
            } else {
                page_entry(old(self)@, b)
            } by {
                lemma_page_base(b);
                assert(in_pages(b, virtual_start as int, size as int) == in_pages(b, virtual_start as int, offset as int));
            }
            assert forall|b: int| #[trigger] translate(self@, b) == if in_pages(b, virtual_start as int, size as int) {
                Some(mapped_translation(virtual_start, physical, writable, executable, b))
            } else {
                translate(old(self)@, b)
            } by {
                if b >= 0 {
                    lemma_page_base(b);
                }
                if in_user_range(b) {
                    lemma_translate_layout(self@, self.kernel, b);
                    lemma_translate_layout(v0, self.kernel, b);
                    assert(in_pages(b, virtual_start as int, size as int) == in_pages(b, virtual_start as int, offset as int));
                    if in_pages(b, virtual_start as int, size as int) {
                        lemma_entry_bits(0, (physical + (page_base(b) - virtual_start)) as u64, writable, executable);
                    }
                } else if in_pages(b, virtual_start as int, size as int) {
                    assert(false);
                }
            }
        }
        Ok(())
    }
}


impl Space {
    /// The number of page tables this space owns, the root included.
    pub fn count(&self) -> (r: usize)
        requires
            self.wf(),
        ensures
            r == self.table_count(),
            r == tables_needed(self@),
    {
        proof {
            self.lemma_table_count();
        }
        self.frames.len()
    }
}

} // verus!
