//! Slotted-page layout used for table heap pages.
//!
//! Each data page holds a small header, a slot directory that grows forward
//! from the header, and variable-length cells (serialized rows) that grow
//! backward from the end of the page.
//!
//! ```text
//! 0        8                              free_end            PAGE_SIZE
//! ┌────────┬───────────────┬──────────────┬────────────────────────────┐
//! │ header │ slot dir  →   │  free space  │   ←  cells (rows)           │
//! └────────┴───────────────┴──────────────┴────────────────────────────┘
//! ```
//!
//! The header holds the next page of the chain (u32 at 0), the number of
//! slots (u16 at 4) and the start of the cell area (u16 at 6). Slot `i` is the
//! pair (offset, length) of u16 at `8 + 4 * i`; offset 0 marks a deleted cell.

use crate::error::{quoted, Error, Result};
use crate::strings::{decimal, decimal_string};
use crate::storage::{PageId, PAGE_SIZE};
use vstd::bytes::*;
use vstd::prelude::*;

verus! {

broadcast use vstd::seq_lib::group_seq_properties;

pub const HEADER_SIZE: usize = 8;

pub const SLOT_SIZE: usize = 4;

// --- Layout as spec functions over the page bytes ----------------------------

pub open spec fn u16_at(p: Seq<u8>, off: int) -> u16 {
    spec_u16_from_le_bytes(p.subrange(off, off + 2))
}

pub open spec fn u32_at(p: Seq<u8>, off: int) -> u32 {
    spec_u32_from_le_bytes(p.subrange(off, off + 4))
}

/// Id of the next page in the chain (0 == none).
pub open spec fn page_next(p: Seq<u8>) -> u32 {
    u32_at(p, 0)
}

pub open spec fn page_num_slots(p: Seq<u8>) -> int {
    u16_at(p, 4) as int
}

pub open spec fn page_free_end(p: Seq<u8>) -> int {
    u16_at(p, 6) as int
}

pub open spec fn slot_dir_end(p: Seq<u8>) -> int {
    8 + 4 * page_num_slots(p)
}

pub open spec fn slot_off(p: Seq<u8>, i: int) -> int {
    u16_at(p, 8 + 4 * i) as int
}

pub open spec fn slot_len(p: Seq<u8>, i: int) -> int {
    u16_at(p, 10 + 4 * i) as int
}

/// The bytes of the cell in slot `i`, or `None` when the slot does not exist
/// or its cell was deleted.
pub open spec fn page_cell(p: Seq<u8>, i: int) -> Option<Seq<u8>> {
    if 0 <= i < page_num_slots(p) && slot_off(p, i) != 0 {
        Some(p.subrange(slot_off(p, i), slot_off(p, i) + slot_len(p, i)))
    } else {
        None
    }
}

/// A slot's cell lies inside the cell area (or the slot is deleted).
pub open spec fn slot_wf(p: Seq<u8>, i: int) -> bool {
    slot_off(p, i) == 0 || (page_free_end(p) <= slot_off(p, i) && slot_off(p, i) + slot_len(p, i)
        <= PAGE_SIZE)
}

/// The layout invariant of a slotted page.
pub open spec fn page_wf(p: Seq<u8>) -> bool {
    &&& p.len() == PAGE_SIZE
    &&& slot_dir_end(p) <= page_free_end(p) <= PAGE_SIZE
    &&& forall|i: int| 0 <= i < page_num_slots(p) ==> #[trigger] slot_wf(p, i)
}

/// On a well-formed page every slot can be read without leaving the page.
pub proof fn lemma_wf_cell_readable(p: Seq<u8>, idx: int)
    requires
        page_wf(p),
        0 <= idx,
    ensures
        idx < page_num_slots(p) ==> HEADER_SIZE + idx * SLOT_SIZE + SLOT_SIZE <= PAGE_SIZE && (
        slot_off(p, idx) == 0 || slot_off(p, idx) + slot_len(p, idx) <= PAGE_SIZE),
{
    if idx < page_num_slots(p) {
        assert(slot_wf(p, idx));
    }
}

/// No two live cells of the page overlap. Pages built by `format`, `insert`,
/// `update` and `delete` keep this; it is what lets an in-place update leave
/// the other cells alone.
pub open spec fn cells_disjoint(p: Seq<u8>) -> bool {
    forall|i: int, j: int|
        0 <= i < page_num_slots(p) && 0 <= j < page_num_slots(p) && i != j && slot_off(p, i) != 0
            && slot_off(p, j) != 0 ==> #[trigger] slot_off(p, i) + slot_len(p, i) <= #[trigger] slot_off(
            p,
            j,
        ) || slot_off(p, j) + slot_len(p, j) <= slot_off(p, i)
}

/// The cells in slots `a` and `b` do not overlap (or one is deleted, or they
/// are the same slot).
pub open spec fn cells_apart(p: Seq<u8>, a: int, b: int) -> bool {
    a == b || slot_off(p, a) == 0 || slot_off(p, b) == 0 || slot_off(p, a) + slot_len(p, a)
        <= slot_off(p, b) || slot_off(p, b) + slot_len(p, b) <= slot_off(p, a)
}

/// Bytes available for one more cell and its slot entry.
pub open spec fn page_free_space(p: Seq<u8>) -> int {
    if page_free_end(p) >= slot_dir_end(p) {
        page_free_end(p) - slot_dir_end(p)
    } else {
        0
    }
}

/// Two pages hold the same cells in the same slots.
pub open spec fn same_cells(p: Seq<u8>, q: Seq<u8>) -> bool {
    &&& page_num_slots(p) == page_num_slots(q)
    &&& forall|i: int| #[trigger] page_cell(p, i) == page_cell(q, i)
}

/// `p` with `b` written at `off`.
pub open spec fn splice(p: Seq<u8>, off: int, b: Seq<u8>) -> Seq<u8> {
    p.take(off) + b + p.skip(off + b.len())
}

/// A range that does not meet a write keeps its bytes.
pub proof fn lemma_splice_frame(p: Seq<u8>, off: int, b: Seq<u8>, a: int, c: int)
    requires
        0 <= off,
        off + b.len() <= p.len(),
        0 <= a <= c <= p.len(),
        c <= off || off + b.len() <= a,
    ensures
        splice(p, off, b).subrange(a, c) == p.subrange(a, c),
        splice(p, off, b).len() == p.len(),
{
    assert(splice(p, off, b).subrange(a, c) =~= p.subrange(a, c));
}

/// The written range reads back what was written.
pub proof fn lemma_splice_read(p: Seq<u8>, off: int, b: Seq<u8>)
    requires
        0 <= off,
        off + b.len() <= p.len(),
    ensures
        splice(p, off, b).subrange(off, off + b.len()) == b,
        splice(p, off, b).len() == p.len(),
{
    assert(splice(p, off, b).subrange(off, off + b.len()) =~= b);
}

/// Writing into the free space between the slot directory and the cell
/// area, or into the next-page field, keeps the slot directory, the cells and
/// the layout invariants of a page.
pub proof fn lemma_write_keeps_cells(p: Seq<u8>, off: int, b: Seq<u8>)
    requires
        page_wf(p),
        0 <= off,
        off + b.len() <= page_free_end(p),
        (off >= slot_dir_end(p)) || (off + b.len() <= 4),
    ensures
        splice(p, off, b).len() == p.len(),
        page_num_slots(splice(p, off, b)) == page_num_slots(p),
        page_free_end(splice(p, off, b)) == page_free_end(p),
        forall|i: int|
            0 <= i < page_num_slots(p) ==> slot_off(splice(p, off, b), i) == slot_off(p, i)
                && slot_len(splice(p, off, b), i) == slot_len(p, i),
        same_cells(p, splice(p, off, b)),
        page_wf(splice(p, off, b)),
        cells_disjoint(p) ==> cells_disjoint(splice(p, off, b)),
{
    let q = splice(p, off, b);
    lemma_splice_frame(p, off, b, 4, 6);
    lemma_splice_frame(p, off, b, 6, 8);
    assert forall|i: int| 0 <= i < page_num_slots(p) implies slot_off(q, i) == slot_off(p, i)
        && slot_len(q, i) == slot_len(p, i) by {
        lemma_splice_frame(p, off, b, 8 + 4 * i, 10 + 4 * i);
        lemma_splice_frame(p, off, b, 10 + 4 * i, 12 + 4 * i);
    }
    assert forall|i: int| #[trigger] page_cell(p, i) == page_cell(q, i) by {
        if 0 <= i < page_num_slots(p) {
            assert(slot_wf(p, i));
            if slot_off(p, i) != 0 {
                lemma_splice_frame(p, off, b, slot_off(p, i), slot_off(p, i) + slot_len(p, i));
            }
        }
    }
    assert forall|i: int| 0 <= i < page_num_slots(q) implies #[trigger] slot_wf(q, i) by {
        assert(slot_wf(p, i));
    }
}

/// A view over a single page buffer providing slotted-page operations.
pub struct SlottedPage {
    buf: Vec<u8>,
}

impl View for SlottedPage {
    type V = Seq<u8>;

    closed spec fn view(&self) -> Seq<u8> {
        self.buf@
    }
}

impl SlottedPage {
    /// Wraps an existing page buffer without modifying it.
    pub fn new(buf: Vec<u8>) -> (p: Self)
        requires
            buf@.len() == PAGE_SIZE,
        ensures
            p@ == buf@,
    {
        SlottedPage { buf }
    }

    /// Gives back the page buffer.
    pub fn into_bytes(self) -> (b: Vec<u8>)
        ensures
            b@ == self@,
    {
        self.buf
    }

    /// The page buffer.
    pub fn as_bytes(&self) -> (b: &[u8])
        ensures
            b@ == self@,
    {
        self.buf.as_slice()
    }

    /// Initializes a fresh, empty page in place.
    pub fn format(buf: Vec<u8>) -> (p: Self)
        requires
            buf@.len() == PAGE_SIZE,
        ensures
            page_wf(p@),
            page_next(p@) == 0,
            page_num_slots(p@) == 0,
            page_free_end(p@) == PAGE_SIZE,
            cells_disjoint(p@),
            forall|i: int| #[trigger] page_cell(p@, i) is None,
            forall|j: int| HEADER_SIZE <= j < PAGE_SIZE ==> #[trigger] p@[j] == 0u8,
    {
        let mut buf = buf;
        let mut i: usize = 0;
        while i < buf.len()
            invariant
                buf@.len() == PAGE_SIZE,
                i <= buf@.len(),
                forall|j: int| 0 <= j < i ==> #[trigger] buf@[j] == 0u8,
            decreases buf@.len() - i,
        {
            buf[i] = 0;
            i = i + 1;
        }
        let mut page = SlottedPage { buf };
        let ghost p0 = page@;
        page.set_next(0);
        let ghost p1 = page@;
        page.set_num_slots(0);
        let ghost p2 = page@;
        page.set_free_end(PAGE_SIZE as u16);
        proof {
            lemma_auto_spec_u16_to_from_le_bytes();
            lemma_splice_frame(p1, 4, spec_u16_to_le_bytes(0u16), 0, 4);
            lemma_splice_frame(p2, 6, spec_u16_to_le_bytes(4096u16), 0, 4);
            lemma_splice_frame(p2, 6, spec_u16_to_le_bytes(4096u16), 4, 6);
            vstd::bytes::lemma_auto_spec_u32_to_from_le_bytes();
            lemma_splice_frame(p0, 0, spec_u32_to_le_bytes(0u32), 8, PAGE_SIZE as int);
            lemma_splice_frame(p1, 4, spec_u16_to_le_bytes(0u16), 8, PAGE_SIZE as int);
            lemma_splice_frame(p2, 6, spec_u16_to_le_bytes(4096u16), 8, PAGE_SIZE as int);
            assert forall|j: int| HEADER_SIZE <= j < PAGE_SIZE implies #[trigger] page@[j] == 0u8 by {
                assert(page@.subrange(8, PAGE_SIZE as int)[j - 8] == p0.subrange(8, PAGE_SIZE as int)[j - 8]);
            }
        }
        page
    }

    fn read_u16(&self, off: usize) -> (v: u16)
        requires
            self@.len() == PAGE_SIZE,
            off + 2 <= self@.len(),
        ensures
            v == u16_at(self@, off as int),
    {
        let s = vstd::slice::slice_subrange(self.buf.as_slice(), off, off + 2);
        u16_from_le_bytes(s)
    }

    fn read_u32(&self, off: usize) -> (v: u32)
        requires
            self@.len() == PAGE_SIZE,
            off + 4 <= self@.len(),
        ensures
            v == u32_at(self@, off as int),
    {
        let s = vstd::slice::slice_subrange(self.buf.as_slice(), off, off + 4);
        u32_from_le_bytes(s)
    }

    fn write_bytes(&mut self, off: usize, b: &[u8])
        requires
            old(self)@.len() == PAGE_SIZE,
            off + b@.len() <= old(self)@.len(),
        ensures
            final(self)@ == splice(old(self)@, off as int, b@),
            final(self)@.len() == PAGE_SIZE,
    {
        let mut i: usize = 0;
        while i < b.len()
            invariant
                i <= b@.len(),
                off + b@.len() <= old(self)@.len(),
                old(self)@.len() == PAGE_SIZE,
                self@ == splice(old(self)@, off as int, b@.take(i as int)),
            decreases b@.len() - i,
        {
            self.buf[off + i] = b[i];
            i = i + 1;
            assert(self@ =~= splice(old(self)@, off as int, b@.take(i as int)));
        }
        assert(b@.take(i as int) =~= b@);
    }

    fn write_u16(&mut self, off: usize, v: u16)
        requires
            old(self)@.len() == PAGE_SIZE,
            off + 2 <= old(self)@.len(),
        ensures
            final(self)@ == splice(old(self)@, off as int, spec_u16_to_le_bytes(v)),
            u16_at(final(self)@, off as int) == v,
            final(self)@.len() == PAGE_SIZE,
    {
        proof {
            lemma_auto_spec_u16_to_from_le_bytes();
        }
        let b = u16_to_le_bytes(v);
        self.write_bytes(off, b.as_slice());
        proof {
            lemma_splice_read(old(self)@, off as int, b@);
        }
    }

    fn write_u32(&mut self, off: usize, v: u32)
        requires
            old(self)@.len() == PAGE_SIZE,
            off + 4 <= old(self)@.len(),
        ensures
            final(self)@ == splice(old(self)@, off as int, spec_u32_to_le_bytes(v)),
            u32_at(final(self)@, off as int) == v,
            final(self)@.len() == PAGE_SIZE,
    {
        proof {
            lemma_auto_spec_u32_to_from_le_bytes();
        }
        let b = u32_to_le_bytes(v);
        self.write_bytes(off, b.as_slice());
        proof {
            lemma_splice_read(old(self)@, off as int, b@);
        }
    }

    /// Id of the next page in this table's chain (0 == none).
    pub fn next(&self) -> (id: PageId)
        requires
            self@.len() == PAGE_SIZE,
        ensures
            id == page_next(self@),
    {
        self.read_u32(0)
    }

    pub fn set_next(&mut self, id: PageId)
        requires
            old(self)@.len() == PAGE_SIZE,
        ensures
            final(self)@ == splice(old(self)@, 0, spec_u32_to_le_bytes(id)),
            final(self)@.len() == PAGE_SIZE,
            page_next(final(self)@) == id,
            page_num_slots(final(self)@) == page_num_slots(old(self)@),
            page_free_end(final(self)@) == page_free_end(old(self)@),
            page_wf(old(self)@) ==> page_wf(final(self)@) && same_cells(old(self)@, final(self)@)
                && (cells_disjoint(old(self)@) ==> cells_disjoint(final(self)@)),
    {
        let ghost p = self@;
        self.write_u32(0, id);
        proof {
            lemma_auto_spec_u32_to_from_le_bytes();
            let b = spec_u32_to_le_bytes(id);
            lemma_splice_frame(p, 0, b, 4, 6);
            lemma_splice_frame(p, 0, b, 6, 8);
            if page_wf(p) {
                lemma_write_keeps_cells(p, 0, b);
            }
        }
    }

    pub fn num_slots(&self) -> (n: usize)
        requires
            self@.len() == PAGE_SIZE,
        ensures
            n == page_num_slots(self@),
    {
        self.read_u16(4) as usize
    }

    fn set_num_slots(&mut self, n: u16)
        requires
            old(self)@.len() == PAGE_SIZE,
        ensures
            final(self)@ == splice(old(self)@, 4, spec_u16_to_le_bytes(n)),
            final(self)@.len() == PAGE_SIZE,
            page_num_slots(final(self)@) == n,
    {
        self.write_u16(4, n);
    }

    fn free_end(&self) -> (v: usize)
        requires
            self@.len() == PAGE_SIZE,
        ensures
            v == page_free_end(self@),
    {
        self.read_u16(6) as usize
    }

    fn set_free_end(&mut self, v: u16)
        requires
            old(self)@.len() == PAGE_SIZE,
        ensures
            final(self)@ == splice(old(self)@, 6, spec_u16_to_le_bytes(v)),
            final(self)@.len() == PAGE_SIZE,
            page_free_end(final(self)@) == v,
    {
        self.write_u16(6, v);
    }

    fn slot_dir_end(&self) -> (v: usize)
        requires
            self@.len() == PAGE_SIZE,
        ensures
            v == slot_dir_end(self@),
    {
        HEADER_SIZE + self.num_slots() * SLOT_SIZE
    }

    /// Bytes available for one more cell (accounting for its slot entry).
    pub fn free_space(&self) -> (n: usize)
        requires
            self@.len() == PAGE_SIZE,
        ensures
            n == page_free_space(self@),
    {
        self.free_end().saturating_sub(self.slot_dir_end())
    }

    fn slot(&self, idx: usize) -> (r: (usize, usize))
        requires
            self@.len() == PAGE_SIZE,
            HEADER_SIZE + idx * SLOT_SIZE + SLOT_SIZE <= PAGE_SIZE,
        ensures
            r.0 == slot_off(self@, idx as int),
            r.1 == slot_len(self@, idx as int),
    {
        let base = HEADER_SIZE + idx * SLOT_SIZE;
        let off = self.read_u16(base) as usize;
        let len = self.read_u16(base + 2) as usize;
        (off, len)
    }

    fn set_slot(&mut self, idx: usize, off: u16, len: u16)
        requires
            old(self)@.len() == PAGE_SIZE,
            HEADER_SIZE + idx * SLOT_SIZE + SLOT_SIZE <= PAGE_SIZE,
        ensures
            final(self)@ == splice(
                old(self)@,
                8 + 4 * idx,
                spec_u16_to_le_bytes(off) + spec_u16_to_le_bytes(len),
            ),
            slot_off(final(self)@, idx as int) == off,
            slot_len(final(self)@, idx as int) == len,
            final(self)@.len() == PAGE_SIZE,
    {
        let base = HEADER_SIZE + idx * SLOT_SIZE;
        let ghost p = self@;
        self.write_u16(base, off);
        let ghost p1 = self@;
        self.write_u16(base + 2, len);
        proof {
            lemma_auto_spec_u16_to_from_le_bytes();
            let b1 = spec_u16_to_le_bytes(off);
            let b2 = spec_u16_to_le_bytes(len);
            lemma_splice_frame(p1, base + 2, b2, base as int, base + 2);
            assert(self@ =~= splice(p, base as int, b1 + b2));
        }
    }

    /// Attempts to append a cell. Returns the slot index on success, or `None`
    /// if the page does not have enough free space.
    pub fn insert(&mut self, cell: &[u8]) -> (r: Option<usize>)
        requires
            page_wf(old(self)@),
        ensures
            page_wf(final(self)@),
            cells_disjoint(old(self)@) ==> cells_disjoint(final(self)@),
            page_next(final(self)@) == page_next(old(self)@),
            r is None <==> cell@.len() + SLOT_SIZE > page_free_space(old(self)@),
            r is None ==> final(self)@ == old(self)@,
            r matches Some(idx) ==> {
                &&& idx == page_num_slots(old(self)@)
                &&& page_num_slots(final(self)@) == idx + 1
                &&& page_cell(final(self)@, idx as int) == Some(cell@)
                &&& forall|i: int|
                    i != idx ==> #[trigger] page_cell(final(self)@, i) == page_cell(old(self)@, i)
                &&& page_free_space(final(self)@) == page_free_space(old(self)@) - cell@.len()
                    - SLOT_SIZE
            },
    {
        let ghost p0 = self@;
        let free = self.free_space();
        if free < SLOT_SIZE || cell.len() > free - SLOT_SIZE {
            return None;
        }
        let new_free_end = self.free_end() - cell.len();
        self.write_bytes(new_free_end, cell);
        let ghost p1 = self@;
        proof {
            lemma_write_keeps_cells(p0, new_free_end as int, cell@);
            lemma_splice_read(p0, new_free_end as int, cell@);
            lemma_splice_frame(p0, new_free_end as int, cell@, 0, 4);
        }
        let idx = self.num_slots();
        self.set_slot(idx, new_free_end as u16, cell.len() as u16);
        let ghost p2 = self@;
        proof {
            lemma_auto_spec_u16_to_from_le_bytes();
            let sb = spec_u16_to_le_bytes(new_free_end as u16) + spec_u16_to_le_bytes(
                cell.len() as u16,
            );
            let base = 8 + 4 * idx;
            lemma_splice_frame(p1, base, sb, 0, 4);
            lemma_splice_frame(p1, base, sb, 4, 6);
            lemma_splice_frame(p1, base, sb, 6, 8);
            lemma_splice_frame(p1, base, sb, new_free_end as int, new_free_end + cell@.len());
            assert forall|i: int| 0 <= i < idx implies slot_off(p2, i) == slot_off(p1, i)
                && slot_len(p2, i) == slot_len(p1, i) by {
                lemma_splice_frame(p1, base, sb, 8 + 4 * i, 10 + 4 * i);
                lemma_splice_frame(p1, base, sb, 10 + 4 * i, 12 + 4 * i);
            }
            assert forall|i: int| 0 <= i < idx && slot_off(p1, i) != 0 implies p2.subrange(
                slot_off(p1, i),
                slot_off(p1, i) + slot_len(p1, i),
            ) == p1.subrange(slot_off(p1, i), slot_off(p1, i) + slot_len(p1, i)) by {
                assert(slot_wf(p0, i));
                assert(page_cell(p0, i) == page_cell(p1, i));
                lemma_splice_frame(p1, base, sb, slot_off(p1, i), slot_off(p1, i) + slot_len(p1, i));
            }
        }
        self.set_num_slots((idx + 1) as u16);
        let ghost p3 = self@;
        self.set_free_end(new_free_end as u16);
        proof {
            lemma_auto_spec_u16_to_from_le_bytes();
            let b3 = spec_u16_to_le_bytes((idx + 1) as u16);
            let b4 = spec_u16_to_le_bytes(new_free_end as u16);
            let p4 = self@;
            lemma_splice_frame(p2, 4, b3, 0, 4);
            lemma_splice_frame(p2, 4, b3, 6, 8);
            lemma_splice_frame(p3, 6, b4, 0, 4);
            lemma_splice_frame(p3, 6, b4, 4, 6);
            assert forall|i: int| 0 <= i <= idx implies slot_off(p4, i) == slot_off(p2, i)
                && slot_len(p4, i) == slot_len(p2, i) && (slot_off(p2, i) != 0 ==> p4.subrange(
                slot_off(p2, i),
                slot_off(p2, i) + slot_len(p2, i),
            ) == p2.subrange(slot_off(p2, i), slot_off(p2, i) + slot_len(p2, i))) by {
                lemma_splice_frame(p2, 4, b3, 8 + 4 * i, 10 + 4 * i);
                lemma_splice_frame(p2, 4, b3, 10 + 4 * i, 12 + 4 * i);
                lemma_splice_frame(p3, 6, b4, 8 + 4 * i, 10 + 4 * i);
                lemma_splice_frame(p3, 6, b4, 10 + 4 * i, 12 + 4 * i);
                if slot_off(p2, i) != 0 {
                    if i < idx {
                        assert(slot_wf(p0, i));
                        assert(page_cell(p0, i) == page_cell(p1, i));
                    }
                    let a = slot_off(p2, i);
                    let c = slot_off(p2, i) + slot_len(p2, i);
                    lemma_splice_frame(p2, 4, b3, a, c);
                    lemma_splice_frame(p3, 6, b4, a, c);
                }
            }
            assert forall|i: int| i != idx implies #[trigger] page_cell(p4, i) == page_cell(p0, i) by {
                if 0 <= i < idx {
                    assert(page_cell(p0, i) == page_cell(p1, i));
                }
            }
            assert forall|i: int| 0 <= i < page_num_slots(p4) implies #[trigger] slot_wf(p4, i) by {
                if i < idx {
                    assert(slot_wf(p0, i));
                    assert(page_cell(p0, i) == page_cell(p1, i));
                }
            }
            assert forall|i: int| 0 <= i < idx implies slot_off(p4, i) == slot_off(p0, i)
                && slot_len(p4, i) == slot_len(p0, i) by {
                lemma_splice_frame(p0, new_free_end as int, cell@, 8 + 4 * i, 10 + 4 * i);
                lemma_splice_frame(p0, new_free_end as int, cell@, 10 + 4 * i, 12 + 4 * i);
            }
            if cells_disjoint(p0) {
                assert forall|i: int, j: int|
                    0 <= i < page_num_slots(p4) && 0 <= j < page_num_slots(p4) && i != j
                        && slot_off(p4, i) != 0 && slot_off(p4, j) != 0 implies #[trigger] slot_off(
                    p4,
                    i,
                ) + slot_len(p4, i) <= #[trigger] slot_off(p4, j) || slot_off(p4, j) + slot_len(p4, j)
                    <= slot_off(p4, i) by {
                    if i < idx {
                        assert(slot_wf(p0, i));
                    }
                    if j < idx {
                        assert(slot_wf(p0, j));
                    }
                }
            }
        }
        Some(idx)
    }

    /// Returns the bytes of the cell in `idx`, or `None` if it was deleted.
    pub fn cell(&self, idx: usize) -> (r: Option<&[u8]>)
        requires
            self@.len() == PAGE_SIZE,
            idx < page_num_slots(self@) ==> HEADER_SIZE + idx * SLOT_SIZE + SLOT_SIZE <= PAGE_SIZE && (
            slot_off(self@, idx as int) == 0 || slot_off(self@, idx as int) + slot_len(self@, idx as int)
                <= PAGE_SIZE),
        ensures
            match page_cell(self@, idx as int) {
                Some(c) => r matches Some(s) && s@ == c,
                None => r is None,
            },
    {
        if idx >= self.num_slots() {
            return None;
        }
        let (off, len) = self.slot(idx);
        if off == 0 {
            return None;  // tombstone
        }
        Some(vstd::slice::slice_subrange(self.buf.as_slice(), off, off + len))
    }

    /// Overwrites a cell in place when the new bytes are the same length,
    /// otherwise marks the old cell deleted and appends the new one.
    ///
    /// Returns the (possibly new) slot index, or `None` if there was no room to
    /// relocate a larger record (the old cell then stays deleted).
    pub fn update(&mut self, idx: usize, cell: &[u8]) -> (r: Option<usize>)
        requires
            page_wf(old(self)@),
            idx < page_num_slots(old(self)@),
        ensures
            page_wf(final(self)@),
            cells_disjoint(old(self)@) ==> cells_disjoint(final(self)@),
            page_next(final(self)@) == page_next(old(self)@),
            match page_cell(old(self)@, idx as int) {
                Some(c) if c.len() == cell@.len() => {
                    &&& r == Some(idx)
                    &&& page_num_slots(final(self)@) == page_num_slots(old(self)@)
                    &&& page_free_space(final(self)@) == page_free_space(old(self)@)
                    &&& page_cell(final(self)@, idx as int) == Some(cell@)
                    &&& cells_disjoint(old(self)@) ==> forall|i: int|
                        i != idx ==> #[trigger] page_cell(final(self)@, i) == page_cell(
                            old(self)@,
                            i,
                        )
                },
                _ => {
                    &&& page_cell(final(self)@, idx as int) is None
                    &&& r is None <==> cell@.len() + SLOT_SIZE > page_free_space(old(self)@)
                    &&& r is None ==> page_num_slots(final(self)@) == page_num_slots(old(self)@)
                    &&& r matches Some(j) ==> j == page_num_slots(old(self)@) && page_num_slots(
                        final(self)@,
                    ) == j + 1 && page_cell(final(self)@, j as int) == Some(cell@)
                    &&& forall|i: int|
                        i != idx && (r matches Some(j) ==> i != j) ==> #[trigger] page_cell(
                            final(self)@,
                            i,
                        ) == page_cell(old(self)@, i)
                },
            },
    {
        let (off, len) = self.slot(idx);
        if off != 0 && len == cell.len() {
            let ghost p0 = self@;
            proof {
                assert(slot_wf(p0, idx as int));
            }
            self.write_bytes(off, cell);
            proof {
                let p1 = self@;
                lemma_splice_frame(p0, off as int, cell@, 0, 4);
                lemma_splice_frame(p0, off as int, cell@, 4, 6);
                lemma_splice_frame(p0, off as int, cell@, 6, 8);
                lemma_splice_read(p0, off as int, cell@);
                assert forall|i: int| 0 <= i < page_num_slots(p0) implies slot_off(p1, i) == slot_off(
                    p0,
                    i,
                ) && slot_len(p1, i) == slot_len(p0, i) by {
                    lemma_splice_frame(p0, off as int, cell@, 8 + 4 * i, 10 + 4 * i);
                    lemma_splice_frame(p0, off as int, cell@, 10 + 4 * i, 12 + 4 * i);
                }
                assert forall|i: int|
                    i != idx && cells_disjoint(p0) implies #[trigger] page_cell(p1, i) == page_cell(
                    p0,
                    i,
                ) by {
                    if 0 <= i < page_num_slots(p0) && slot_off(p0, i) != 0 {
                        assert(slot_wf(p0, i));
                        assert(slot_off(p0, i) + slot_len(p0, i) <= slot_off(p0, idx as int)
                            || slot_off(p0, idx as int) + slot_len(p0, idx as int) <= slot_off(p0, i));
                        lemma_splice_frame(
                            p0,
                            off as int,
                            cell@,
                            slot_off(p0, i),
                            slot_off(p0, i) + slot_len(p0, i),
                        );
                    }
                }
                assert forall|i: int| 0 <= i < page_num_slots(p1) implies #[trigger] slot_wf(p1, i) by {
                    assert(slot_wf(p0, i));
                }
            }
            return Some(idx);
        }
        proof {
            assert(slot_wf(self@, idx as int));
        }
        self.delete(idx);
        let ghost p1 = self@;
        let r = self.insert(cell);
        proof {
            if r is Some {
                assert(page_cell(self@, idx as int) == page_cell(p1, idx as int));
            }
        }
        r
    }

    /// Marks a slot as deleted (tombstone). Space is not compacted; it is
    /// reclaimed only when the page is rewritten.
    pub fn delete(&mut self, idx: usize)
        requires
            page_wf(old(self)@),
        ensures
            page_wf(final(self)@),
            cells_disjoint(old(self)@) ==> cells_disjoint(final(self)@),
            page_next(final(self)@) == page_next(old(self)@),
            page_num_slots(final(self)@) == page_num_slots(old(self)@),
            page_free_space(final(self)@) == page_free_space(old(self)@),
            page_cell(final(self)@, idx as int) is None,
            forall|i: int|
                i != idx ==> #[trigger] page_cell(final(self)@, i) == page_cell(old(self)@, i),
            idx >= page_num_slots(old(self)@) ==> final(self)@ == old(self)@,
    {
        if idx < self.num_slots() {
            let ghost p0 = self@;
            self.set_slot(idx, 0, 0);
            proof {
                let p1 = self@;
                lemma_auto_spec_u16_to_from_le_bytes();
                let sb = spec_u16_to_le_bytes(0u16) + spec_u16_to_le_bytes(0u16);
                let base = 8 + 4 * idx;
                lemma_splice_frame(p0, base, sb, 0, 4);
                lemma_splice_frame(p0, base, sb, 4, 6);
                lemma_splice_frame(p0, base, sb, 6, 8);
                assert forall|i: int| 0 <= i < page_num_slots(p0) && i != idx implies slot_off(
                    p1,
                    i,
                ) == slot_off(p0, i) && slot_len(p1, i) == slot_len(p0, i) by {
                    if i < idx {
                        lemma_splice_frame(p0, base, sb, 8 + 4 * i, 10 + 4 * i);
                        lemma_splice_frame(p0, base, sb, 10 + 4 * i, 12 + 4 * i);
                    } else {
                        lemma_splice_frame(p0, base, sb, 8 + 4 * i, 10 + 4 * i);
                        lemma_splice_frame(p0, base, sb, 10 + 4 * i, 12 + 4 * i);
                    }
                }
                assert forall|i: int| i != idx implies #[trigger] page_cell(p1, i) == page_cell(p0, i) by {
                    if 0 <= i < page_num_slots(p0) && slot_off(p0, i) != 0 {
                        assert(slot_wf(p0, i));
                        lemma_splice_frame(
                            p0,
                            base,
                            sb,
                            slot_off(p0, i),
                            slot_off(p0, i) + slot_len(p0, i),
                        );
                    }
                }
                assert forall|i: int| 0 <= i < page_num_slots(p1) implies #[trigger] slot_wf(p1, i) by {
                    assert(slot_wf(p0, i));
                }
            }
        }
    }

    /// Checks the layout invariant of a page that came from storage.
    /// Whether no two live cells overlap.
    pub fn cells_disjoint_ok(&self) -> (b: bool)
        requires
            page_wf(self@),
        ensures
            b == cells_disjoint(self@),
    {
        let n = self.num_slots();
        let ghost p = self@;
        let mut i: usize = 0;
        while i < n
            invariant
                p == self@,
                page_wf(p),
                n == page_num_slots(p),
                i <= n,
                forall|a: int, b: int| 0 <= a < i && 0 <= b < n ==> #[trigger] cells_apart(p, a, b),
            decreases n - i,
        {
            let (oi, li) = self.slot(i);
            let mut j: usize = 0;
            while j < n
                invariant
                    p == self@,
                    page_wf(p),
                    n == page_num_slots(p),
                    i < n,
                    oi == slot_off(p, i as int),
                    li == slot_len(p, i as int),
                    j <= n,
                    forall|a: int, b: int| 0 <= a < i && 0 <= b < n ==> #[trigger] cells_apart(p, a, b),
                    forall|b: int| 0 <= b < j ==> #[trigger] cells_apart(p, i as int, b),
                decreases n - j,
            {
                let (oj, lj) = self.slot(j);
                if i != j && oi != 0 && oj != 0 && !(oi + li <= oj || oj + lj <= oi) {
                    proof {
                        assert(!cells_apart(p, i as int, j as int));
                        assert(slot_off(p, i as int) + slot_len(p, i as int) > slot_off(p, j as int));
                    }
                    return false;
                }
                j = j + 1;
            }
            i = i + 1;
        }
        proof {
            assert forall|a: int, b: int|
                0 <= a < page_num_slots(p) && 0 <= b < page_num_slots(p) && a != b && slot_off(p, a)
                    != 0 && slot_off(p, b) != 0 implies #[trigger] slot_off(p, a) + slot_len(p, a)
                <= #[trigger] slot_off(p, b) || slot_off(p, b) + slot_len(p, b) <= slot_off(p, a) by {
                assert(cells_apart(p, a, b));
            }
        }
        true
    }

    pub fn layout_ok(&self) -> (b: bool)
        requires
            self@.len() == PAGE_SIZE,
        ensures
            b == page_wf(self@),
    {
        let n = self.num_slots();
        let free_end = self.free_end();
        if free_end > PAGE_SIZE || HEADER_SIZE + n * SLOT_SIZE > free_end {
            return false;
        }
        let mut i: usize = 0;
        while i < n
            invariant
                self@.len() == PAGE_SIZE,
                n == page_num_slots(self@),
                free_end == page_free_end(self@),
                slot_dir_end(self@) <= free_end <= PAGE_SIZE,
                i <= n,
                forall|j: int| 0 <= j < i ==> #[trigger] slot_wf(self@, j),
            decreases n - i,
        {
            let (off, len) = self.slot(i);
            if off != 0 && (off < free_end || off + len > PAGE_SIZE) {
                assert(!slot_wf(self@, i as int));
                return false;
            }
            i = i + 1;
        }
        true
    }
}

/// Guard that a serialized row fits within a page's usable area.
pub fn max_cell_size() -> (n: usize)
    ensures
        n == PAGE_SIZE - HEADER_SIZE - SLOT_SIZE,
{
    PAGE_SIZE - HEADER_SIZE - SLOT_SIZE
}

/// The message for a record of `n` bytes, more than a page can hold.
pub open spec fn too_large_message(n: nat) -> Seq<char> {
    "record of "@ + decimal(n) + " bytes exceeds maximum cell size 4084"@
}

/// When a record of `len` bytes is more than a page can hold (and `len` fits
/// a `u64`), `r` is the storage error that says so.
#[verifier::opaque]
pub open spec fn too_large_reported<T>(len: nat, r: Result<T>) -> bool {
    len > PAGE_SIZE - 12 && len <= u64::MAX ==> (r matches Err(Error::Storage(m)) && m@
        == too_large_message(len))
}

/// The error for a record of `len` bytes, more than a page can hold.
pub fn record_too_large(len: u64) -> (e: Error)
    ensures
        e matches Error::Storage(m) && m@ == too_large_message(len as nat),
{
    let n = decimal_string(len);
    Error::Storage(quoted("record of ", n.as_str(), " bytes exceeds maximum cell size 4084"))
}

/// Ensures `len` can ever fit in a page, returning a descriptive error if not.
pub fn ensure_fits(len: usize) -> (r: Result<()>)
    ensures
        r is Ok <==> len <= PAGE_SIZE - HEADER_SIZE - SLOT_SIZE,
        r is Err ==> (r matches Err(Error::Storage(m)) && m@ == too_large_message(len as nat)),
{
    if len > max_cell_size() {
        return Err(record_too_large(len as u64));
    }
    Ok(())
}

} // verus!
