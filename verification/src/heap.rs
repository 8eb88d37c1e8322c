//! Table heap: stores rows across a chain of slotted pages.
//!
//! This is an append-oriented heap. New rows are written to the last page in
//! the chain, allocating a new page when the current one is full. Rows are
//! addressed by a [`RowLocation`] (page id + slot index) so the executor can
//! update or delete matched rows.
//!
//! Primary-key uniqueness is enforced with a heap scan; there is no index.

use crate::catalog::{STable, TableSchema};
use crate::error::{text, Error, Result};
use crate::page::{
    cells_disjoint, page_cell, page_free_space, page_next, page_num_slots, page_wf, same_cells,
    ensure_fits, SlottedPage, SLOT_SIZE,
};
use crate::record::{
    decode_row, encode_row, enc_row, lemma_parse_row_encodable,
    lemma_row_roundtrip, parse_row, row_encodable, values_view,
};
use crate::storage::{pages_wf, zero_page, PageId, Storage, PAGE_SIZE};
use crate::value::{SValue, Value};
use vstd::prelude::*;

verus! {

broadcast use vstd::seq_lib::group_seq_properties;

/// Physical address of a row within a table heap.
#[derive(Debug, Clone, Copy, PartialEq, Eq, Structural)]
pub struct RowLocation {
    pub page_id: PageId,
    pub slot: usize,
}

/// A row together with its physical location.
pub struct LocatedRow {
    pub location: RowLocation,
    pub values: Vec<Value>,
}

/// A located row in mathematical form.
pub type SRow = (RowLocation, Seq<SValue>);

pub open spec fn located_view(rows: Seq<LocatedRow>) -> Seq<SRow> {
    rows.map_values(|r: LocatedRow| (r.location, values_view(r.values@)))
}

// --- What a scan reads -----------------------------------------------------------

/// The row stored in slot `i` of page `p` (page id `id`): nothing for a deleted
/// slot, and `None` when the cell does not decode.
pub open spec fn cell_rows(p: Seq<u8>, id: u32, i: int) -> Option<Seq<SRow>> {
    match page_cell(p, i) {
        None => Some(Seq::<SRow>::empty()),
        Some(c) => match parse_row(c) {
            Some(vs) => Some(seq![(RowLocation { page_id: id, slot: i as usize }, vs)]),
            None => None,
        },
    }
}

/// The rows of the first `n` slots of a page, in slot order.
pub open spec fn slot_rows(p: Seq<u8>, id: u32, n: nat) -> Option<Seq<SRow>>
    decreases n,
{
    if n == 0 {
        Some(Seq::<SRow>::empty())
    } else {
        match slot_rows(p, id, (n - 1) as nat) {
            Some(a) => match cell_rows(p, id, n - 1) {
                Some(b) => Some(a + b),
                None => None,
            },
            None => None,
        }
    }
}

/// The rows of a page, or `None` when its layout is broken or a cell does not
/// decode.
pub open spec fn page_rows(p: Seq<u8>, id: u32) -> Option<Seq<SRow>> {
    if page_wf(p) {
        slot_rows(p, id, page_num_slots(p) as nat)
    } else {
        None
    }
}

/// The rows of the chain that starts at page `id`, following at most `fuel`
/// pages; `None` when a page is missing or broken, or the chain does not end
/// within `fuel` pages.
pub open spec fn scan_from(pages: Seq<Seq<u8>>, id: u32, fuel: nat) -> Option<Seq<SRow>>
    decreases fuel,
{
    if id == 0 {
        Some(Seq::<SRow>::empty())
    } else if fuel == 0 || id >= pages.len() {
        None
    } else {
        match page_rows(pages[id as int], id) {
            Some(a) => match scan_from(pages, page_next(pages[id as int]), (fuel - 1) as nat) {
                Some(b) => Some(a + b),
                None => None,
            },
            None => None,
        }
    }
}

/// The rows of a table, as a scan reads them: its chain, followed through at
/// most as many pages as the store holds.
pub open spec fn table_rows(pages: Seq<Seq<u8>>, t: STable) -> Option<Seq<SRow>> {
    scan_from(pages, t.first_page, pages.len())
}

// --- Well-formed chains ----------------------------------------------------------

/// `ids` lists the heap pages of a chain in order: every page exists, is not
/// the catalog page, has a sound layout, links to the next one, and the last
/// links to nothing. No page occurs twice.
pub open spec fn chain_links(pages: Seq<Seq<u8>>, ids: Seq<u32>) -> bool {
    &&& forall|k: int|
        0 <= k < ids.len() ==> 0 < #[trigger] ids[k] < pages.len() && page_wf(pages[ids[k] as int])
            && cells_disjoint(pages[ids[k] as int])
    &&& forall|k: int|
        0 <= k < ids.len() - 1 ==> page_next(pages[#[trigger] ids[k] as int]) == ids[k + 1]
    &&& ids.len() > 0 ==> page_next(pages[ids.last() as int]) == 0
    &&& ids.no_duplicates()
}

/// `ids` is the chain of table `t`.
pub open spec fn chain_of(pages: Seq<Seq<u8>>, t: STable, ids: Seq<u32>) -> bool {
    &&& chain_links(pages, ids)
    &&& ids.len() == 0 ==> t.first_page == 0 && t.last_page == 0
    &&& ids.len() > 0 ==> ids[0] == t.first_page && ids.last() == t.last_page
}

/// The rows of the pages `ids`, in order.
pub open spec fn chain_rows(pages: Seq<Seq<u8>>, ids: Seq<u32>) -> Option<Seq<SRow>>
    decreases ids.len(),
{
    if ids.len() == 0 {
        Some(Seq::<SRow>::empty())
    } else {
        match page_rows(pages[ids[0] as int], ids[0]) {
            Some(a) => match chain_rows(pages, ids.skip(1)) {
                Some(b) => Some(a + b),
                None => None,
            },
            None => None,
        }
    }
}

/// The heap of `t` is sound: it has a chain whose rows all decode.
pub open spec fn heap_ok(pages: Seq<Seq<u8>>, t: STable) -> bool {
    exists|ids: Seq<u32>| chain_of(pages, t, ids) && chain_rows(pages, ids) is Some
}

proof fn lemma_chain_links_skip(pages: Seq<Seq<u8>>, ids: Seq<u32>)
    requires
        chain_links(pages, ids),
        ids.len() > 0,
    ensures
        chain_links(pages, ids.skip(1)),
        ids.len() > 1 ==> page_next(pages[ids[0] as int]) == ids.skip(1)[0],
        ids.len() == 1 ==> page_next(pages[ids[0] as int]) == 0,
{
    let s = ids.skip(1);
    assert forall|k: int| 0 <= k < s.len() implies 0 < #[trigger] s[k] < pages.len() && page_wf(
        pages[s[k] as int],
    ) && cells_disjoint(pages[s[k] as int]) by {
        assert(s[k] == ids[k + 1]);
    }
    assert forall|k: int| 0 <= k < s.len() - 1 implies page_next(pages[#[trigger] s[k] as int])
        == s[k + 1] by {
        assert(s[k] == ids[k + 1]);
    }
    if ids.len() > 1 {
        assert(page_next(pages[ids[0] as int]) == ids[1]);
    }
    assert(s.no_duplicates()) by {
        assert forall|i: int, j: int| 0 <= i < s.len() && 0 <= j < s.len() && i != j implies s[i]
            != s[j] by {
            assert(s[i] == ids[i + 1] && s[j] == ids[j + 1]);
        }
    }
}

/// Following a chain reads exactly the rows of its pages, in order.
pub proof fn lemma_scan_chain(pages: Seq<Seq<u8>>, ids: Seq<u32>, fuel: nat)
    requires
        chain_links(pages, ids),
        ids.len() <= fuel,
    ensures
        scan_from(pages, if ids.len() == 0 { 0 } else { ids[0] }, fuel) == chain_rows(pages, ids),
    decreases ids.len(),
{
    if ids.len() > 0 {
        lemma_chain_links_skip(pages, ids);
        lemma_scan_chain(pages, ids.skip(1), (fuel - 1) as nat);
        assert(0 < ids[0] < pages.len());
    }
}

/// A chain of distinct pages, none of them page 0, is shorter than the store.
pub proof fn lemma_chain_len(pages: Seq<Seq<u8>>, ids: Seq<u32>)
    requires
        chain_links(pages, ids),
    ensures
        ids.len() < pages.len() || ids.len() == 0,
{
    if ids.len() > 0 {
        let f = |x: u32| x as int;
        let m = ids.map_values(f);
        assert forall|i: int, j: int| 0 <= i < m.len() && 0 <= j < m.len() && i != j implies m[i]
            != m[j] by {
            assert(ids[i] != ids[j]);
        }
        assert(m.no_duplicates());
        m.unique_seq_to_set();
        let range = vstd::set_lib::set_int_range(1, pages.len() as int);
        assert forall|x: int| m.to_set().contains(x) implies range.contains(x) by {
            let k = choose|k: int| 0 <= k < m.len() && m[k] == x;
            assert(0 < ids[k] < pages.len());
        }
        vstd::set_lib::lemma_int_range(1, pages.len() as int);
        vstd::set_lib::lemma_len_subset(m.to_set(), range);
    }
}

/// The rows of a table are the rows of its chain.
pub proof fn lemma_table_rows(pages: Seq<Seq<u8>>, t: STable, ids: Seq<u32>)
    requires
        chain_of(pages, t, ids),
    ensures
        table_rows(pages, t) == chain_rows(pages, ids),
{
    lemma_chain_len(pages, ids);
    lemma_scan_chain(pages, ids, pages.len());
}

/// Pages that keep every page of a chain keep the chain and its rows.
pub proof fn lemma_chain_frame(pages: Seq<Seq<u8>>, pages2: Seq<Seq<u8>>, ids: Seq<u32>)
    requires
        chain_links(pages, ids),
        pages.len() <= pages2.len(),
        forall|k: int| 0 <= k < ids.len() ==> pages2[#[trigger] ids[k] as int] == pages[ids[k] as int],
    ensures
        chain_links(pages2, ids),
        chain_rows(pages2, ids) == chain_rows(pages, ids),
    decreases ids.len(),
{
    assert forall|k: int| 0 <= k < ids.len() - 1 implies page_next(pages2[#[trigger] ids[k] as int])
        == ids[k + 1] by {
        assert(page_next(pages[ids[k] as int]) == ids[k + 1]);
    }
    if ids.len() > 0 {
        assert(pages2[ids[ids.len() - 1] as int] == pages[ids[ids.len() - 1] as int]);
        lemma_chain_links_skip(pages, ids);
        let s = ids.skip(1);
        assert forall|k: int| 0 <= k < s.len() implies pages2[#[trigger] s[k] as int]
            == pages[s[k] as int] by {
            assert(s[k] == ids[k + 1]);
        }
        lemma_chain_frame(pages, pages2, s);
        assert(pages2[ids[0] as int] == pages[ids[0] as int]);
    }
}

/// Replacing the last page of a chain by one that holds the same rows and one
/// more adds that row at the end of the chain's rows.
proof fn lemma_chain_grow_last(
    pages: Seq<Seq<u8>>,
    ids: Seq<u32>,
    p2: Seq<u8>,
    extra: Seq<SRow>,
)
    requires
        chain_links(pages, ids),
        ids.len() > 0,
        chain_rows(pages, ids) is Some,
        page_wf(p2),
        cells_disjoint(p2),
        page_next(p2) == 0,
        page_rows(pages[ids.last() as int], ids.last()) is Some,
        page_rows(p2, ids.last()) == Some(
            page_rows(pages[ids.last() as int], ids.last()).unwrap() + extra,
        ),
    ensures
        chain_links(pages.update(ids.last() as int, p2), ids),
        chain_rows(pages.update(ids.last() as int, p2), ids) == Some(
            chain_rows(pages, ids).unwrap() + extra,
        ),
    decreases ids.len(),
{
    let pages2 = pages.update(ids.last() as int, p2);
    let last = ids.last();
    assert forall|k: int| 0 <= k < ids.len() - 1 implies pages2[#[trigger] ids[k] as int]
        == pages[ids[k] as int] by {
        assert(ids[k] != ids[ids.len() - 1]);
    }
    assert forall|k: int| 0 <= k < ids.len() implies 0 < #[trigger] ids[k] < pages2.len() && page_wf(
        pages2[ids[k] as int],
    ) && cells_disjoint(pages2[ids[k] as int]) by {
        if k < ids.len() - 1 {
            assert(pages2[ids[k] as int] == pages[ids[k] as int]);
        }
    }
    assert forall|k: int| 0 <= k < ids.len() - 1 implies page_next(pages2[#[trigger] ids[k] as int])
        == ids[k + 1] by {
        assert(pages2[ids[k] as int] == pages[ids[k] as int]);
        assert(page_next(pages[ids[k] as int]) == ids[k + 1]);
    }
    if ids.len() == 1 {
        assert(ids.skip(1) =~= Seq::<u32>::empty());
        assert(chain_rows(pages2, ids.skip(1)) == Some(Seq::<SRow>::empty()));
        assert(chain_rows(pages, ids.skip(1)) == Some(Seq::<SRow>::empty()));
        assert(ids[0] == last);
        assert(pages2[ids[0] as int] == p2);
        assert(page_rows(p2, last).unwrap() + Seq::<SRow>::empty() =~= page_rows(p2, last).unwrap());
        assert(page_rows(pages[last as int], last).unwrap() + Seq::<SRow>::empty() =~= page_rows(
            pages[last as int],
            last,
        ).unwrap());
    } else {
        lemma_chain_links_skip(pages, ids);
        let s = ids.skip(1);
        assert(s.last() == last);
        assert(s.len() > 0);
        lemma_chain_grow_last(pages, s, p2, extra);
        assert(pages.update(s.last() as int, p2) == pages2);
        assert(pages2[ids[0] as int] == pages[ids[0] as int]);
        let a = page_rows(pages[ids[0] as int], ids[0]).unwrap();
        let b = chain_rows(pages, s).unwrap();
        assert(chain_rows(pages2, s) == Some(b + extra));
        assert(chain_rows(pages2, ids) == Some(a + (b + extra)));
        assert(a + (b + extra) =~= (a + b) + extra);
    }
}

/// Linking a new last page that holds `extra` behind a chain adds `extra` at
/// the end of the chain's rows.
#[verifier::rlimit(30)]
proof fn lemma_chain_append_page(
    pages: Seq<Seq<u8>>,
    ids: Seq<u32>,
    relinked: Seq<u8>,
    fresh: Seq<u8>,
    extra: Seq<SRow>,
)
    requires
        chain_links(pages, ids),
        ids.len() > 0,
        chain_rows(pages, ids) is Some,
        pages.len() < u32::MAX,
        page_wf(relinked),
        cells_disjoint(relinked),
        page_next(relinked) == pages.len(),
        page_rows(relinked, ids.last()) == page_rows(pages[ids.last() as int], ids.last()),
        page_wf(fresh),
        cells_disjoint(fresh),
        page_next(fresh) == 0,
        page_rows(fresh, pages.len() as u32) == Some(extra),
    ensures
        chain_links(
            pages.push(fresh).update(ids.last() as int, relinked),
            ids.push(pages.len() as u32),
        ),
        chain_rows(pages.push(fresh).update(ids.last() as int, relinked), ids.push(pages.len() as u32))
            == Some(chain_rows(pages, ids).unwrap() + extra),
    decreases ids.len(),
{
    let n = pages.len() as u32;
    let pages2 = pages.push(fresh).update(ids.last() as int, relinked);
    let ids2 = ids.push(n);
    let last = ids.last();
    assert forall|k: int| 0 <= k < ids.len() - 1 implies pages2[#[trigger] ids[k] as int]
        == pages[ids[k] as int] by {
        assert(ids[k] != ids[ids.len() - 1]);
    }
    assert(pages2[n as int] == fresh);
    assert forall|k: int| 0 <= k < ids2.len() implies 0 < #[trigger] ids2[k] < pages2.len() && page_wf(
        pages2[ids2[k] as int],
    ) && cells_disjoint(pages2[ids2[k] as int]) by {
        if k < ids.len() - 1 {
            assert(ids2[k] == ids[k]);
            assert(pages2[ids[k] as int] == pages[ids[k] as int]);
        } else if k == ids.len() - 1 {
            assert(ids2[k] == last);
        }
    }
    assert forall|k: int| 0 <= k < ids2.len() - 1 implies page_next(pages2[#[trigger] ids2[k] as int])
        == ids2[k + 1] by {
        if k < ids.len() - 1 {
            assert(ids2[k] == ids[k]);
            assert(pages2[ids[k] as int] == pages[ids[k] as int]);
            assert(page_next(pages[ids[k] as int]) == ids[k + 1]);
        } else {
            assert(ids2[k] == last);
        }
    }
    assert(ids2.no_duplicates()) by {
        assert forall|i: int, j: int|
            0 <= i < ids2.len() && 0 <= j < ids2.len() && i != j implies ids2[i] != ids2[j] by {
            if i < ids.len() && j < ids.len() {
                assert(ids2[i] == ids[i] && ids2[j] == ids[j]);
            } else if i < ids.len() {
                assert(ids[i] < pages.len());
            } else if j < ids.len() {
                assert(ids[j] < pages.len());
            }
        }
    }
    if ids.len() == 1 {
        assert(ids2.skip(1) =~= seq![n]);
        assert(seq![n].skip(1) =~= Seq::<u32>::empty());
        assert(ids.skip(1) =~= Seq::<u32>::empty());
        assert(chain_rows(pages2, seq![n].skip(1)) == Some(Seq::<SRow>::empty()));
        assert(chain_rows(pages2, seq![n]) == Some(extra + Seq::<SRow>::empty()));
        assert(chain_rows(pages, ids.skip(1)) == Some(Seq::<SRow>::empty()));
        assert(ids[0] == last);
        assert(extra + Seq::<SRow>::empty() =~= extra);
        let a = page_rows(pages[last as int], last).unwrap();
        assert(a + Seq::<SRow>::empty() =~= a);
    } else {
        lemma_chain_links_skip(pages, ids);
        let s = ids.skip(1);
        assert(s.last() == last);
        lemma_chain_append_page(pages, s, relinked, fresh, extra);
        assert(ids2.skip(1) =~= s.push(n));
        assert(pages2[ids[0] as int] == pages[ids[0] as int]);
        let a = page_rows(pages[ids[0] as int], ids[0]).unwrap();
        let b = chain_rows(pages, s).unwrap();
        assert(chain_rows(pages2, ids2.skip(1)) == Some(b + extra));
        assert(chain_rows(pages2, ids2) == Some(a + (b + extra)));
        assert(a + (b + extra) =~= (a + b) + extra);
    }
}

// --- Rows of a single page -------------------------------------------------------

/// Pages that agree on the first `n` cells have the same rows in those slots.
proof fn lemma_slot_rows_same(p: Seq<u8>, q: Seq<u8>, id: u32, n: nat)
    requires
        forall|i: int| 0 <= i < n ==> #[trigger] page_cell(p, i) == page_cell(q, i),
    ensures
        slot_rows(p, id, n) == slot_rows(q, id, n),
    decreases n,
{
    if n > 0 {
        lemma_slot_rows_same(p, q, id, (n - 1) as nat);
        assert(page_cell(p, n - 1) == page_cell(q, n - 1));
    }
}

/// Pages with the same cells have the same rows.
pub proof fn lemma_page_rows_same(p: Seq<u8>, q: Seq<u8>, id: u32)
    requires
        same_cells(p, q),
        page_wf(p) == page_wf(q),
    ensures
        page_rows(p, id) == page_rows(q, id),
{
    lemma_slot_rows_same(p, q, id, page_num_slots(p) as nat);
}

/// The rows of an empty page.
proof fn lemma_page_rows_empty(p: Seq<u8>, id: u32)
    requires
        page_wf(p),
        page_num_slots(p) == 0,
    ensures
        page_rows(p, id) == Some(Seq::<SRow>::empty()),
{
}

/// Inserting a cell that decodes to `vs` into a page adds one row at the end
/// of its rows.
proof fn lemma_page_rows_insert(p: Seq<u8>, q: Seq<u8>, id: u32, vs: Seq<SValue>)
    requires
        page_wf(p),
        page_wf(q),
        page_rows(p, id) is Some,
        page_num_slots(q) == page_num_slots(p) + 1,
        forall|i: int| i != page_num_slots(p) ==> #[trigger] page_cell(q, i) == page_cell(p, i),
        page_cell(q, page_num_slots(p)) is Some,
        parse_row(page_cell(q, page_num_slots(p)).unwrap()) == Some(vs),
    ensures
        page_rows(q, id) == Some(
            page_rows(p, id).unwrap() + seq![
                (RowLocation { page_id: id, slot: page_num_slots(p) as usize }, vs),
            ],
        ),
{
    let n = page_num_slots(p) as nat;
    lemma_slot_rows_same(p, q, id, n);
}

// --- Operations ----------------------------------------------------------------

/// A page-sized buffer of zeros.
fn page_buffer() -> (b: Vec<u8>)
    ensures
        b@.len() == PAGE_SIZE,
{
    let mut b: Vec<u8> = Vec::new();
    let mut i: usize = 0;
    while i < PAGE_SIZE
        invariant
            i <= PAGE_SIZE,
            b@.len() == i,
        decreases PAGE_SIZE - i,
    {
        b.push(0);
        i = i + 1;
    }
    b
}

fn read_page<S: Storage + ?Sized>(storage: &S, page_id: PageId) -> (r: Result<Vec<u8>>)
    requires
        pages_wf(storage.page_image()),
    ensures
        r is Ok <==> page_id < storage.page_image().len(),
        r matches Ok(b) ==> b@ == storage.page_image()[page_id as int],
        r matches Err(e) ==> e is Storage,
{
    let mut buf = page_buffer();
    storage.read_page(page_id, buf.as_mut_slice())?;
    Ok(buf)
}

/// Scans every live row in a table, in physical order.
///
/// A page id outside the store, a page whose layout is broken, a cell that
/// does not decode, or a chain that visits more pages than the store holds
/// is reported as a storage error.
pub fn scan<S: Storage + ?Sized>(storage: &S, table: &TableSchema) -> (r: Result<Vec<LocatedRow>>)
    requires
        pages_wf(storage.page_image()),
    ensures
        match table_rows(storage.page_image(), table@) {
            Some(rows) => r matches Ok(v) && located_view(v@) == rows,
            None => r matches Err(e) && e is Storage,
        },
{
    let ghost pages = storage.page_image();
    let count = storage.page_count();
    let mut out: Vec<LocatedRow> = Vec::new();
    let mut page_id = table.first_page;
    let mut fuel: u32 = count;
    while page_id != 0
        invariant
            pages == storage.page_image(),
            pages_wf(pages),
            fuel <= count,
            count == pages.len(),
            table_rows(pages, table@) == match scan_from(pages, page_id, fuel as nat) {
                Some(rest) => Some(located_view(out@) + rest),
                None => None,
            },
        decreases fuel,
    {
        if fuel == 0 {
            return Err(Error::Storage(text("corrupt image: page chain of a table does not terminate")));
        }
        let buf = read_page(storage, page_id)?;
        let page = SlottedPage::new(buf);
        if !page.layout_ok() {
            return Err(Error::Storage(text("corrupt page: a cell is out of bounds")));
        }
        let n = page.num_slots();
        let ghost p = page@;
        let ghost before = located_view(out@);
        let mut slot: usize = 0;
        while slot < n
            invariant
                p == page@,
                page_wf(p),
                n == page_num_slots(p),
                p == pages[page_id as int],
                pages == storage.page_image(),
                0 < page_id < pages.len(),
                0 < fuel <= count,
                table_rows(pages, table@) == match scan_from(pages, page_id, fuel as nat) {
                    Some(rest) => Some(before + rest),
                    None => None,
                },
                slot <= n,
                slot_rows(p, page_id, slot as nat) matches Some(a) && located_view(out@) == before
                    + a,
            decreases n - slot,
        {
            let ghost prev = located_view(out@);
            proof {
                crate::page::lemma_wf_cell_readable(page@, slot as int);
            }
            if let Some(cell) = page.cell(slot) {
                let values = match decode_row(cell) {
                    Ok(v) => v,
                    Err(e) => {
                        proof {
                            assert(cell_rows(p, page_id, slot as int) is None);
                            assert(slot_rows(p, page_id, (slot + 1) as nat) is None);
                            lemma_slot_rows_fail(p, page_id, (slot + 1) as nat, n as nat);
                            assert(page_rows(p, page_id) is None);
                            assert(scan_from(pages, page_id, fuel as nat) is None);
                        }
                        return Err(e);
                    },
                };
                out.push(LocatedRow { location: RowLocation { page_id, slot }, values });
                proof {
                    let a = slot_rows(p, page_id, slot as nat).unwrap();
                    assert(located_view(out@) =~= prev + seq![
                        (RowLocation { page_id, slot }, values_view(values@)),
                    ]);
                    assert(before + a + seq![
                        (RowLocation { page_id, slot }, values_view(values@)),
                    ] =~= before + (a + seq![
                        (RowLocation { page_id, slot }, values_view(values@)),
                    ]));
                }
            } else {
                proof {
                    let a = slot_rows(p, page_id, slot as nat).unwrap();
                    assert(a + Seq::<SRow>::empty() =~= a);
                }
            }
            slot = slot + 1;
        }
        let ghost old_id = page_id;
        page_id = page.next();
        fuel = fuel - 1;
        proof {
            let a = slot_rows(p, old_id, n as nat).unwrap();
            assert(page_rows(p, old_id) == Some(a));
            assert(p == pages[old_id as int]);
            match scan_from(pages, page_id, fuel as nat) {
                Some(rest) => {
                    assert(before + (a + rest) =~= located_view(out@) + rest);
                },
                None => {},
            }
        }
    }
    proof {
        assert(located_view(out@) + Seq::<SRow>::empty() =~= located_view(out@));
    }
    Ok(out)
}

// --- Chains are determined by their first page ------------------------------------

proof fn lemma_chain_unique(pages: Seq<Seq<u8>>, a: Seq<u32>, b: Seq<u32>)
    requires
        chain_links(pages, a),
        chain_links(pages, b),
        a.len() > 0,
        b.len() > 0,
        a[0] == b[0],
    ensures
        a == b,
    decreases a.len(),
{
    lemma_chain_links_skip(pages, a);
    lemma_chain_links_skip(pages, b);
    if a.len() == 1 {
        if b.len() > 1 {
            assert(0 < b.skip(1)[0]);
        }
        assert(a =~= b);
    } else {
        if b.len() == 1 {
            assert(0 < a.skip(1)[0]);
        }
        lemma_chain_unique(pages, a.skip(1), b.skip(1));
        assert(a =~= seq![a[0]] + a.skip(1));
        assert(b =~= seq![b[0]] + b.skip(1));
    }
}

/// A table has at most one chain.
pub proof fn lemma_chain_of_unique(pages: Seq<Seq<u8>>, t: STable, a: Seq<u32>, b: Seq<u32>)
    requires
        chain_of(pages, t, a),
        chain_of(pages, t, b),
    ensures
        a == b,
{
    if a.len() > 0 && b.len() > 0 {
        lemma_chain_unique(pages, a, b);
    } else if a.len() > 0 {
        assert(0 < a[0]);
    } else if b.len() > 0 {
        assert(0 < b[0]);
    } else {
        assert(a =~= b);
    }
}

/// The pages of the heap of `t`, in chain order.
pub open spec fn heap_chain(pages: Seq<Seq<u8>>, t: STable) -> Seq<u32> {
    choose|ids: Seq<u32>| chain_of(pages, t, ids) && chain_rows(pages, ids) is Some
}

pub proof fn lemma_heap_chain(pages: Seq<Seq<u8>>, t: STable)
    requires
        heap_ok(pages, t),
    ensures
        chain_of(pages, t, heap_chain(pages, t)),
        chain_rows(pages, heap_chain(pages, t)) is Some,
        table_rows(pages, t) == chain_rows(pages, heap_chain(pages, t)),
        forall|ids: Seq<u32>| #[trigger] chain_of(pages, t, ids) ==> ids == heap_chain(pages, t),
{
    let h = heap_chain(pages, t);
    lemma_table_rows(pages, t, h);
    assert forall|ids: Seq<u32>| #[trigger] chain_of(pages, t, ids) implies ids == h by {
        lemma_chain_of_unique(pages, t, ids, h);
    }
}

// --- Which rows a page holds -------------------------------------------------------

/// The row `x` is stored in page `p` (page id `id`): its slot holds a cell
/// that decodes to its values.
pub open spec fn stored_in(p: Seq<u8>, id: u32, x: SRow) -> bool {
    &&& x.0.page_id == id
    &&& page_cell(p, x.0.slot as int) matches Some(c) && parse_row(c) == Some(x.1)
}

proof fn lemma_concat_contains<A>(a: Seq<A>, b: Seq<A>, x: A)
    ensures
        (a + b).contains(x) <==> a.contains(x) || b.contains(x),
{
    if a.contains(x) {
        let k = choose|k: int| 0 <= k < a.len() && a[k] == x;
        assert((a + b)[k] == x);
    }
    if b.contains(x) {
        let k = choose|k: int| 0 <= k < b.len() && b[k] == x;
        assert((a + b)[a.len() + k] == x);
    }
    if (a + b).contains(x) {
        let k = choose|k: int| 0 <= k < (a + b).len() && (a + b)[k] == x;
        if k < a.len() {
            assert(a[k] == x);
        } else {
            assert(b[k - a.len()] == x);
        }
    }
}

proof fn lemma_slot_rows_member(p: Seq<u8>, id: u32, n: nat, x: SRow)
    requires
        slot_rows(p, id, n) is Some,
        n <= page_num_slots(p),
    ensures
        slot_rows(p, id, n).unwrap().contains(x) <==> stored_in(p, id, x) && (x.0.slot as int) < n,
    decreases n,
{
    if n > 0 {
        let m = (n - 1) as nat;
        lemma_slot_rows_member(p, id, m, x);
        let a = slot_rows(p, id, m).unwrap();
        let b = cell_rows(p, id, m as int).unwrap();
        lemma_concat_contains(a, b, x);
        if b.contains(x) {
            assert(b[0] == x);
        }
        if stored_in(p, id, x) && x.0.slot as int == m {
            assert(x.0 == RowLocation { page_id: id, slot: m as usize });
            assert(b[0] == x);
        }
    }
}

/// A page whose rows decode holds exactly the rows its cells decode to.
pub proof fn lemma_page_rows_member(p: Seq<u8>, id: u32, x: SRow)
    requires
        page_rows(p, id) is Some,
    ensures
        page_rows(p, id).unwrap().contains(x) <==> stored_in(p, id, x),
{
    lemma_slot_rows_member(p, id, page_num_slots(p) as nat, x);
}

/// A chain whose rows decode holds exactly the rows stored in its pages.
pub proof fn lemma_chain_rows_member(pages: Seq<Seq<u8>>, ids: Seq<u32>, x: SRow)
    requires
        chain_links(pages, ids),
        chain_rows(pages, ids) is Some,
    ensures
        chain_rows(pages, ids).unwrap().contains(x) <==> ids.contains(x.0.page_id) && stored_in(
            pages[x.0.page_id as int],
            x.0.page_id,
            x,
        ),
    decreases ids.len(),
{
    if ids.len() > 0 {
        lemma_chain_links_skip(pages, ids);
        lemma_chain_rows_member(pages, ids.skip(1), x);
        let a = page_rows(pages[ids[0] as int], ids[0]).unwrap();
        let b = chain_rows(pages, ids.skip(1)).unwrap();
        lemma_concat_contains(a, b, x);
        lemma_page_rows_member(pages[ids[0] as int], ids[0], x);
        if ids.contains(x.0.page_id) {
            let k = choose|k: int| 0 <= k < ids.len() && ids[k] == x.0.page_id;
            if k > 0 {
                assert(ids.skip(1)[k - 1] == x.0.page_id);
            }
        }
        if ids.skip(1).contains(x.0.page_id) {
            let k = choose|k: int| 0 <= k < ids.skip(1).len() && ids.skip(1)[k] == x.0.page_id;
            assert(ids[k + 1] == x.0.page_id);
        }
    }
}

proof fn lemma_slot_rows_some(p: Seq<u8>, id: u32, n: nat)
    requires
        forall|i: int| 0 <= i < n ==> (#[trigger] cell_rows(p, id, i)) is Some,
    ensures
        slot_rows(p, id, n) is Some,
    decreases n,
{
    if n > 0 {
        lemma_slot_rows_some(p, id, (n - 1) as nat);
        assert(cell_rows(p, id, n - 1) is Some);
    }
}

proof fn lemma_slot_rows_cell(p: Seq<u8>, id: u32, n: nat, i: int)
    requires
        slot_rows(p, id, n) is Some,
        0 <= i < n,
    ensures
        cell_rows(p, id, i) is Some,
    decreases n,
{
    if i < n - 1 {
        lemma_slot_rows_cell(p, id, (n - 1) as nat, i);
    }
}

/// A page whose cells are cells of a page whose rows decode, or deleted,
/// has rows that decode too.
pub proof fn lemma_page_rows_fewer(p: Seq<u8>, q: Seq<u8>, id: u32)
    requires
        page_rows(p, id) is Some,
        page_wf(q),
        page_num_slots(q) <= page_num_slots(p),
        forall|i: int| #[trigger] page_cell(q, i) is None || page_cell(q, i) == page_cell(p, i),
    ensures
        page_rows(q, id) is Some,
{
    let n = page_num_slots(q) as nat;
    assert forall|i: int| 0 <= i < n implies (#[trigger] cell_rows(q, id, i)) is Some by {
        if page_cell(q, i) is Some {
            lemma_slot_rows_cell(p, id, page_num_slots(p) as nat, i);
        }
    }
    lemma_slot_rows_some(q, id, n);
}

/// A page each of whose cells is deleted, a cell of a page whose rows
/// decode, or a cell that decodes, has rows that decode.
pub proof fn lemma_page_rows_decoding(p: Seq<u8>, q: Seq<u8>, id: u32)
    requires
        page_rows(p, id) is Some,
        page_wf(q),
        forall|i: int|
            0 <= i < page_num_slots(q) ==> #[trigger] page_cell(q, i) is None || page_cell(q, i)
                == page_cell(p, i) || parse_row(page_cell(q, i).unwrap()) is Some,
    ensures
        page_rows(q, id) is Some,
{
    let n = page_num_slots(q) as nat;
    assert forall|i: int| 0 <= i < n implies (#[trigger] cell_rows(q, id, i)) is Some by {
        if page_cell(q, i) is Some && page_cell(q, i) == page_cell(p, i) {
            if i < page_num_slots(p) {
                lemma_slot_rows_cell(p, id, page_num_slots(p) as nat, i);
            }
        }
    }
    lemma_slot_rows_some(q, id, n);
}

// --- Finding a table's chain ---------------------------------------------------------

/// The pages met by following links from page `id` until a link to page 0,
/// visiting at most `fuel` pages; `None` when a page is missing or the walk
/// does not end in time.
pub open spec fn walk(pages: Seq<Seq<u8>>, id: u32, fuel: nat) -> Option<Seq<u32>>
    decreases fuel,
{
    if id == 0 {
        Some(Seq::<u32>::empty())
    } else if fuel == 0 || id >= pages.len() {
        None
    } else {
        match walk(pages, page_next(pages[id as int]), (fuel - 1) as nat) {
            Some(rest) => Some(seq![id] + rest),
            None => None,
        }
    }
}

/// Walking from the first page of a chain finds the chain.
pub proof fn lemma_walk_chain(pages: Seq<Seq<u8>>, ids: Seq<u32>, fuel: nat)
    requires
        chain_links(pages, ids),
        ids.len() <= fuel,
    ensures
        walk(pages, if ids.len() == 0 { 0 } else { ids[0] }, fuel) == Some(ids),
    decreases ids.len(),
{
    if ids.len() > 0 {
        lemma_chain_links_skip(pages, ids);
        lemma_walk_chain(pages, ids.skip(1), (fuel - 1) as nat);
        assert(0 < ids[0] < pages.len());
        assert(seq![ids[0]] + ids.skip(1) =~= ids);
    }
}

/// What a walk finds is linked page to page and ends with a link to page 0.
pub proof fn lemma_walk_links(pages: Seq<Seq<u8>>, id: u32, fuel: nat)
    requires
        walk(pages, id, fuel) is Some,
    ensures
        ({
            let ids = walk(pages, id, fuel).unwrap();
            &&& ids.len() == 0 <==> id == 0
            &&& ids.len() > 0 ==> ids[0] == id && page_next(pages[ids.last() as int]) == 0
            &&& forall|k: int| 0 <= k < ids.len() ==> 0 < #[trigger] ids[k] < pages.len()
            &&& forall|k: int|
                0 <= k < ids.len() - 1 ==> page_next(pages[#[trigger] ids[k] as int]) == ids[k + 1]
        }),
    decreases fuel,
{
    if id != 0 {
        let next = page_next(pages[id as int]);
        lemma_walk_links(pages, next, (fuel - 1) as nat);
        let rest = walk(pages, next, (fuel - 1) as nat).unwrap();
        let ids = walk(pages, id, fuel).unwrap();
        assert(ids == seq![id] + rest);
        assert forall|k: int| 0 <= k < ids.len() implies 0 < #[trigger] ids[k] < pages.len() by {
            if k > 0 {
                assert(ids[k] == rest[k - 1]);
            }
        }
        assert forall|k: int| 0 <= k < ids.len() - 1 implies page_next(pages[#[trigger] ids[k] as int])
            == ids[k + 1] by {
            if k > 0 {
                assert(ids[k] == rest[k - 1]);
                assert(ids[k + 1] == rest[k]);
            } else {
                assert(ids[1] == rest[0]);
            }
        }
        if rest.len() > 0 {
            assert(ids.last() == rest.last());
        }
    }
}

/// A chain whose pages' rows all decode has rows that decode.
pub proof fn lemma_chain_rows_all(pages: Seq<Seq<u8>>, ids: Seq<u32>)
    requires
        forall|k: int| 0 <= k < ids.len() ==> #[trigger] page_rows(pages[ids[k] as int], ids[k]) is Some,
    ensures
        chain_rows(pages, ids) is Some,
    decreases ids.len(),
{
    if ids.len() > 0 {
        assert forall|k: int| 0 <= k < ids.skip(1).len() implies #[trigger] page_rows(
            pages[ids.skip(1)[k] as int],
            ids.skip(1)[k],
        ) is Some by {
            assert(ids.skip(1)[k] == ids[k + 1]);
        }
        lemma_chain_rows_all(pages, ids.skip(1));
        assert(page_rows(pages[ids[0] as int], ids[0]) is Some);
    }
}

/// Whether the rows of a page with a sound layout all decode.
pub fn page_rows_ok(page: &SlottedPage, id: u32) -> (b: bool)
    requires
        page_wf(page@),
    ensures
        b == (page_rows(page@, id) is Some),
{
    let ghost p = page@;
    let n = page.num_slots();
    let mut slot: usize = 0;
    while slot < n
        invariant
            p == page@,
            page_wf(p),
            n == page_num_slots(p),
            slot <= n,
            slot_rows(p, id, slot as nat) is Some,
        decreases n - slot,
    {
        proof {
            crate::page::lemma_wf_cell_readable(page@, slot as int);
        }
        if let Some(cell) = page.cell(slot) {
            if decode_row(cell).is_err() {
                proof {
                    assert(cell_rows(p, id, slot as int) is None);
                    assert(slot_rows(p, id, (slot + 1) as nat) is None);
                    lemma_slot_rows_fail(p, id, (slot + 1) as nat, n as nat);
                }
                return false;
            }
        }
        slot = slot + 1;
    }
    true
}

/// Whether page `id` exists, has a sound layout, keeps its cells apart and
/// holds rows that decode.
pub fn page_sound<S: Storage + ?Sized>(storage: &S, id: PageId) -> (b: bool)
    requires
        pages_wf(storage.page_image()),
    ensures
        b == (id < storage.page_image().len() && page_wf(storage.page_image()[id as int])
            && cells_disjoint(storage.page_image()[id as int]) && page_rows(
            storage.page_image()[id as int],
            id,
        ) is Some),
{
    let buf = match read_page(storage, id) {
        Ok(b) => b,
        Err(_) => {
            return false;
        },
    };
    let page = SlottedPage::new(buf);
    if !page.layout_ok() {
        return false;
    }
    if !page.cells_disjoint_ok() {
        return false;
    }
    page_rows_ok(&page, id)
}

/// The pages met by following links from page `first`, through at most as
/// many pages as the store holds.
pub fn chain_walk<S: Storage + ?Sized>(storage: &S, first: PageId) -> (r: Option<Vec<PageId>>)
    requires
        pages_wf(storage.page_image()),
    ensures
        match walk(storage.page_image(), first, storage.page_image().len()) {
            Some(ids) => r matches Some(v) && v@ == ids,
            None => r is None,
        },
{
    let ghost pages = storage.page_image();
    let count = storage.page_count();
    let mut ids: Vec<PageId> = Vec::new();
    let mut id = first;
    let mut fuel: u32 = count;
    while id != 0
        invariant
            pages == storage.page_image(),
            pages_wf(pages),
            count == pages.len(),
            fuel <= count,
            walk(pages, first, count as nat) == match walk(pages, id, fuel as nat) {
                Some(rest) => Some(ids@ + rest),
                None => None,
            },
        decreases fuel,
    {
        if fuel == 0 {
            return None;
        }
        let buf = match read_page(storage, id) {
            Ok(b) => b,
            Err(_) => {
                return None;
            },
        };
        let page = SlottedPage::new(buf);
        let next = page.next();
        proof {
            match walk(pages, next, (fuel - 1) as nat) {
                Some(rest) => {
                    assert(ids@ + (seq![id] + rest) =~= ids@.push(id) + rest);
                },
                None => {},
            }
        }
        ids.push(id);
        id = next;
        fuel = fuel - 1;
    }
    proof {
        assert(ids@ + Seq::<u32>::empty() =~= ids@);
    }
    Some(ids)
}

proof fn lemma_slot_rows_locs(p: Seq<u8>, id: u32, n: nat)
    requires
        slot_rows(p, id, n) is Some,
        n <= page_num_slots(p),
    ensures
        ({
            let rows = slot_rows(p, id, n).unwrap();
            &&& forall|a: int| 0 <= a < rows.len() ==> (#[trigger] rows[a]).0.page_id == id && (rows[a].0.slot as int) < n
            &&& forall|a: int, b: int|
                0 <= a < b < rows.len() ==> (#[trigger] rows[a]).0.slot < (#[trigger] rows[b]).0.slot
        }),
    decreases n,
{
    if n > 0 {
        let m = (n - 1) as nat;
        lemma_slot_rows_locs(p, id, m);
        let a0 = slot_rows(p, id, m).unwrap();
        let b0 = cell_rows(p, id, m as int).unwrap();
        let rows = a0 + b0;
        assert forall|a: int| 0 <= a < rows.len() implies (#[trigger] rows[a]).0.page_id == id && (
        rows[a].0.slot as int) < n by {
            if a >= a0.len() {
                assert(rows[a] == b0[a - a0.len()]);
            } else {
                assert(rows[a] == a0[a]);
            }
        }
        assert forall|a: int, b: int| 0 <= a < b < rows.len() implies (#[trigger] rows[a]).0.slot < (
        #[trigger] rows[b]).0.slot by {
            if b >= a0.len() {
                assert(rows[b] == b0[b - a0.len()]);
                if a < a0.len() {
                    assert(rows[a] == a0[a]);
                }
            } else {
                assert(rows[a] == a0[a]);
                assert(rows[b] == a0[b]);
            }
        }
    }
}

/// The rows of a sound heap sit at distinct locations, each on a page of the
/// chain.
pub proof fn lemma_chain_rows_locs(pages: Seq<Seq<u8>>, ids: Seq<u32>)
    requires
        chain_links(pages, ids),
        chain_rows(pages, ids) is Some,
    ensures
        ({
            let rows = chain_rows(pages, ids).unwrap();
            &&& forall|a: int| 0 <= a < rows.len() ==> ids.contains(#[trigger] rows[a].0.page_id)
            &&& forall|a: int, b: int|
                0 <= a < rows.len() && 0 <= b < rows.len() && a != b ==> (#[trigger] rows[a]).0 != (
                #[trigger] rows[b]).0
        }),
    decreases ids.len(),
{
    if ids.len() > 0 {
        lemma_chain_links_skip(pages, ids);
        lemma_chain_rows_locs(pages, ids.skip(1));
        let p = pages[ids[0] as int];
        lemma_slot_rows_locs(p, ids[0], page_num_slots(p) as nat);
        let a0 = page_rows(p, ids[0]).unwrap();
        let b0 = chain_rows(pages, ids.skip(1)).unwrap();
        let rows = a0 + b0;
        assert(!ids.skip(1).contains(ids[0])) by {
            if ids.skip(1).contains(ids[0]) {
                let q = choose|q: int| 0 <= q < ids.skip(1).len() && ids.skip(1)[q] == ids[0];
                assert(ids[q + 1] == ids[0]);
            }
        }
        assert forall|a: int| 0 <= a < rows.len() implies ids.contains(#[trigger] rows[a].0.page_id) by {
            if a < a0.len() {
                assert(rows[a] == a0[a]);
                assert(ids[0] == rows[a].0.page_id);
            } else {
                assert(rows[a] == b0[a - a0.len()]);
                let x = rows[a].0.page_id;
                assert(ids.skip(1).contains(x));
                let q = choose|q: int| 0 <= q < ids.skip(1).len() && ids.skip(1)[q] == x;
                assert(ids[q + 1] == x);
            }
        }
        assert forall|a: int, b: int|
            0 <= a < rows.len() && 0 <= b < rows.len() && a != b implies (#[trigger] rows[a]).0 != (
            #[trigger] rows[b]).0 by {
            if a < a0.len() && b < a0.len() {
                assert(rows[a] == a0[a] && rows[b] == a0[b]);
                if a < b {
                    assert(a0[a].0.slot < a0[b].0.slot);
                } else {
                    assert(a0[b].0.slot < a0[a].0.slot);
                }
            } else if a >= a0.len() && b >= a0.len() {
                assert(rows[a] == b0[a - a0.len()] && rows[b] == b0[b - a0.len()]);
            } else if a < a0.len() {
                assert(rows[a] == a0[a] && rows[b] == b0[b - a0.len()]);
                assert(ids.skip(1).contains(rows[b].0.page_id));
            } else {
                assert(rows[b] == a0[b] && rows[a] == b0[a - a0.len()]);
                assert(ids.skip(1).contains(rows[a].0.page_id));
            }
        }
    }
}

// --- Keeping some of the rows --------------------------------------------------------

/// Holds of the rows stored anywhere but at `loc`.
pub open spec fn not_at(loc: RowLocation) -> spec_fn(SRow) -> bool {
    |x: SRow| x.0 != loc
}

/// The rows for which `keep` holds, in order.
pub open spec fn sieve(rows: Seq<SRow>, keep: spec_fn(SRow) -> bool) -> Seq<SRow>
    decreases rows.len(),
{
    if rows.len() == 0 {
        rows
    } else {
        let r = sieve(rows.drop_last(), keep);
        if keep(rows.last()) {
            r.push(rows.last())
        } else {
            r
        }
    }
}

pub proof fn lemma_sieve_add(a: Seq<SRow>, b: Seq<SRow>, keep: spec_fn(SRow) -> bool)
    ensures
        sieve(a + b, keep) == sieve(a, keep) + sieve(b, keep),
    decreases b.len(),
{
    if b.len() == 0 {
        assert(a + b =~= a);
        assert(sieve(a, keep) + sieve(b, keep) =~= sieve(a, keep));
    } else {
        lemma_sieve_add(a, b.drop_last(), keep);
        assert((a + b).drop_last() =~= a + b.drop_last());
        assert((a + b).last() == b.last());
        if keep(b.last()) {
            assert(sieve(a, keep) + sieve(b.drop_last(), keep).push(b.last()) =~= (sieve(a, keep)
                + sieve(b.drop_last(), keep)).push(b.last()));
        }
    }
}

pub proof fn lemma_sieve_same(rows: Seq<SRow>, k1: spec_fn(SRow) -> bool, k2: spec_fn(SRow) -> bool)
    requires
        forall|i: int| 0 <= i < rows.len() ==> k1(#[trigger] rows[i]) == k2(rows[i]),
    ensures
        sieve(rows, k1) == sieve(rows, k2),
    decreases rows.len(),
{
    if rows.len() > 0 {
        assert forall|i: int| 0 <= i < rows.drop_last().len() implies k1(
            #[trigger] rows.drop_last()[i],
        ) == k2(rows.drop_last()[i]) by {
            assert(rows.drop_last()[i] == rows[i]);
        }
        lemma_sieve_same(rows.drop_last(), k1, k2);
        assert(k1(rows[rows.len() - 1]) == k2(rows[rows.len() - 1]));
    }
}

pub proof fn lemma_sieve_all(rows: Seq<SRow>, keep: spec_fn(SRow) -> bool)
    requires
        forall|i: int| 0 <= i < rows.len() ==> keep(#[trigger] rows[i]),
    ensures
        sieve(rows, keep) == rows,
    decreases rows.len(),
{
    if rows.len() > 0 {
        assert forall|i: int| 0 <= i < rows.drop_last().len() implies keep(
            #[trigger] rows.drop_last()[i],
        ) by {
            assert(rows.drop_last()[i] == rows[i]);
        }
        lemma_sieve_all(rows.drop_last(), keep);
        assert(keep(rows[rows.len() - 1]));
        assert(rows.drop_last().push(rows.last()) =~= rows);
    }
}

pub proof fn lemma_sieve_twice(
    rows: Seq<SRow>,
    k1: spec_fn(SRow) -> bool,
    k2: spec_fn(SRow) -> bool,
    both: spec_fn(SRow) -> bool,
)
    requires
        forall|x: SRow| #[trigger] both(x) == (k1(x) && k2(x)),
    ensures
        sieve(sieve(rows, k1), k2) == sieve(rows, both),
    decreases rows.len(),
{
    if rows.len() > 0 {
        lemma_sieve_twice(rows.drop_last(), k1, k2, both);
        let r = sieve(rows.drop_last(), k1);
        if k1(rows.last()) {
            assert(r.push(rows.last()).drop_last() =~= r);
        }
    }
}

pub proof fn lemma_sieve_contains(rows: Seq<SRow>, keep: spec_fn(SRow) -> bool, x: SRow)
    ensures
        sieve(rows, keep).contains(x) <==> rows.contains(x) && keep(x),
    decreases rows.len(),
{
    if rows.len() > 0 {
        lemma_sieve_contains(rows.drop_last(), keep, x);
        let r = sieve(rows.drop_last(), keep);
        lemma_concat_contains(rows.drop_last(), seq![rows.last()], x);
        assert(rows.drop_last() + seq![rows.last()] =~= rows);
        if keep(rows.last()) {
            lemma_concat_contains(r, seq![rows.last()], x);
            assert(r + seq![rows.last()] =~= r.push(rows.last()));
        }
        if seq![rows.last()].contains(x) {
            assert(seq![rows.last()][0] == x);
        }
    }
}

/// The rows of a page after the cell in slot `s` was deleted: those of the
/// page before, but the one at that location.
proof fn lemma_slot_rows_drop(p: Seq<u8>, q: Seq<u8>, id: u32, s: int, n: nat)
    requires
        slot_rows(p, id, n) is Some,
        n <= page_num_slots(p),
        0 <= s <= usize::MAX,
        page_cell(q, s) is None,
        forall|i: int| i != s ==> #[trigger] page_cell(q, i) == page_cell(p, i),
    ensures
        slot_rows(q, id, n) == Some(
            sieve(
                slot_rows(p, id, n).unwrap(),
                |x: SRow| x.0 != RowLocation { page_id: id, slot: s as usize },
            ),
        ),
    decreases n,
{
    let keep = |x: SRow| x.0 != RowLocation { page_id: id, slot: s as usize };
    if n > 0 {
        let m = (n - 1) as nat;
        lemma_slot_rows_drop(p, q, id, s, m);
        let a = slot_rows(p, id, m).unwrap();
        let b = cell_rows(p, id, m as int).unwrap();
        lemma_sieve_add(a, b, keep);
        if m as int == s {
            if b.len() > 0 {
                assert(sieve(b, keep) =~= Seq::<SRow>::empty()) by {
                    assert(b.drop_last() =~= Seq::<SRow>::empty());
                }
            }
            assert(sieve(a, keep) + sieve(b, keep) =~= sieve(a, keep));
        } else {
            assert(page_cell(q, m as int) == page_cell(p, m as int));
            if b.len() > 0 {
                assert(b[0].0 == RowLocation { page_id: id, slot: m as usize });
                assert(m as usize != s as usize);
                assert(keep(b[0]));
            }
            lemma_sieve_all(b, keep);
        }
    }
}

/// The rows of a chain after the cell at `loc` on one of its pages was
/// deleted: those of the chain before, but the one at that location.
pub proof fn lemma_chain_rows_drop(pages: Seq<Seq<u8>>, ids: Seq<u32>, loc: RowLocation, p2: Seq<u8>)
    requires
        chain_links(pages, ids),
        chain_rows(pages, ids) is Some,
        ids.contains(loc.page_id),
        page_wf(p2),
        page_num_slots(p2) == page_num_slots(pages[loc.page_id as int]),
        page_cell(p2, loc.slot as int) is None,
        forall|i: int| i != loc.slot ==> #[trigger] page_cell(p2, i) == page_cell(
            pages[loc.page_id as int],
            i,
        ),
    ensures
        chain_rows(pages.update(loc.page_id as int, p2), ids) == Some(
            sieve(chain_rows(pages, ids).unwrap(), not_at(loc)),
        ),
    decreases ids.len(),
{
    let keep = not_at(loc);
    let pages2 = pages.update(loc.page_id as int, p2);
    lemma_chain_links_skip(pages, ids);
    let rest = ids.skip(1);
    let a = page_rows(pages[ids[0] as int], ids[0]).unwrap();
    let b = chain_rows(pages, rest).unwrap();
    lemma_sieve_add(a, b, keep);
    lemma_chain_rows_locs(pages, rest);
    if ids[0] == loc.page_id {
        let p = pages[loc.page_id as int];
        assert(!rest.contains(ids[0])) by {
            if rest.contains(ids[0]) {
                let q = choose|q: int| 0 <= q < rest.len() && rest[q] == ids[0];
                assert(ids[q + 1] == ids[0]);
            }
        }
        lemma_slot_rows_drop(p, p2, loc.page_id, loc.slot as int, page_num_slots(p) as nat);
        assert(RowLocation { page_id: loc.page_id, slot: loc.slot as int as usize } == loc);
        lemma_sieve_same(
            a,
            keep,
            |x: SRow| x.0 != RowLocation { page_id: loc.page_id, slot: loc.slot as int as usize },
        );
        assert(pages2[ids[0] as int] == p2);
        assert forall|k: int| 0 <= k < rest.len() implies pages2[#[trigger] rest[k] as int]
            == pages[rest[k] as int] by {
            assert(rest[k] != loc.page_id);
        }
        lemma_chain_frame(pages, pages2, rest);
        assert forall|i: int| 0 <= i < b.len() implies keep(#[trigger] b[i]) by {
            assert(rest.contains(b[i].0.page_id));
        }
        lemma_sieve_all(b, keep);
    } else {
        assert(rest.contains(loc.page_id)) by {
            let q = choose|q: int| 0 <= q < ids.len() && ids[q] == loc.page_id;
            assert(rest[q - 1] == loc.page_id);
        }
        lemma_chain_rows_drop(pages, rest, loc, p2);
        assert(0 < ids[0] < pages.len());
        assert(pages2[ids[0] as int] == pages[ids[0] as int]);
        lemma_slot_rows_locs(pages[ids[0] as int], ids[0], page_num_slots(pages[ids[0] as int]) as nat);
        assert forall|i: int| 0 <= i < a.len() implies keep(#[trigger] a[i]) by {
            assert(a[i].0.page_id == ids[0]);
        }
        lemma_sieve_all(a, keep);
    }
}

/// `rows` with the row at `loc` holding `vs` in place of its values.
pub open spec fn renew(rows: Seq<SRow>, loc: RowLocation, vs: Seq<SValue>) -> Seq<SRow> {
    Seq::new(rows.len(), |j: int| if rows[j].0 == loc { (loc, vs) } else { rows[j] })
}

proof fn lemma_renew_add(a: Seq<SRow>, b: Seq<SRow>, loc: RowLocation, vs: Seq<SValue>)
    ensures
        renew(a + b, loc, vs) == renew(a, loc, vs) + renew(b, loc, vs),
{
    assert(renew(a + b, loc, vs) =~= renew(a, loc, vs) + renew(b, loc, vs));
}

/// The rows of a page after the cell in slot `s` was rewritten in place with
/// the encoding of `vs`.
proof fn lemma_slot_rows_renew(p: Seq<u8>, q: Seq<u8>, id: u32, s: int, n: nat, vs: Seq<SValue>)
    requires
        slot_rows(p, id, n) is Some,
        n <= page_num_slots(p),
        0 <= s <= usize::MAX,
        page_cell(p, s) is Some,
        page_cell(q, s) matches Some(c) && parse_row(c) == Some(vs),
        forall|i: int| i != s ==> #[trigger] page_cell(q, i) == page_cell(p, i),
    ensures
        slot_rows(q, id, n) == Some(
            renew(slot_rows(p, id, n).unwrap(), RowLocation { page_id: id, slot: s as usize }, vs),
        ),
    decreases n,
{
    let loc = RowLocation { page_id: id, slot: s as usize };
    if n == 0 {
        assert(renew(Seq::<SRow>::empty(), loc, vs) =~= Seq::<SRow>::empty());
    } else {
        let m = (n - 1) as nat;
        lemma_slot_rows_renew(p, q, id, s, m, vs);
        let a = slot_rows(p, id, m).unwrap();
        let b = cell_rows(p, id, m as int).unwrap();
        lemma_renew_add(a, b, loc, vs);
        if m as int == s {
            assert(renew(b, loc, vs) =~= cell_rows(q, id, m as int).unwrap());
        } else {
            assert(page_cell(q, m as int) == page_cell(p, m as int));
            if b.len() > 0 {
                assert(b[0].0 == RowLocation { page_id: id, slot: m as usize });
                assert(m as usize != s as usize);
            }
            assert(renew(b, loc, vs) =~= b);
        }
    }
}

/// The rows of a chain after the cell at `loc` on one of its pages was
/// rewritten in place with the encoding of `vs`.
pub proof fn lemma_chain_rows_renew(
    pages: Seq<Seq<u8>>,
    ids: Seq<u32>,
    loc: RowLocation,
    p2: Seq<u8>,
    vs: Seq<SValue>,
)
    requires
        chain_links(pages, ids),
        chain_rows(pages, ids) is Some,
        ids.contains(loc.page_id),
        page_wf(p2),
        page_num_slots(p2) == page_num_slots(pages[loc.page_id as int]),
        page_cell(pages[loc.page_id as int], loc.slot as int) is Some,
        page_cell(p2, loc.slot as int) matches Some(c) && parse_row(c) == Some(vs),
        forall|i: int| i != loc.slot ==> #[trigger] page_cell(p2, i) == page_cell(
            pages[loc.page_id as int],
            i,
        ),
    ensures
        chain_rows(pages.update(loc.page_id as int, p2), ids) == Some(
            renew(chain_rows(pages, ids).unwrap(), loc, vs),
        ),
    decreases ids.len(),
{
    let pages2 = pages.update(loc.page_id as int, p2);
    lemma_chain_links_skip(pages, ids);
    let rest = ids.skip(1);
    let a = page_rows(pages[ids[0] as int], ids[0]).unwrap();
    let b = chain_rows(pages, rest).unwrap();
    lemma_renew_add(a, b, loc, vs);
    lemma_chain_rows_locs(pages, rest);
    if ids[0] == loc.page_id {
        let p = pages[loc.page_id as int];
        assert(!rest.contains(ids[0])) by {
            if rest.contains(ids[0]) {
                let q = choose|q: int| 0 <= q < rest.len() && rest[q] == ids[0];
                assert(ids[q + 1] == ids[0]);
            }
        }
        lemma_slot_rows_renew(p, p2, loc.page_id, loc.slot as int, page_num_slots(p) as nat, vs);
        assert(RowLocation { page_id: loc.page_id, slot: loc.slot as int as usize } == loc);
        assert(pages2[ids[0] as int] == p2);
        assert forall|k: int| 0 <= k < rest.len() implies pages2[#[trigger] rest[k] as int]
            == pages[rest[k] as int] by {
            assert(rest[k] != loc.page_id);
        }
        lemma_chain_frame(pages, pages2, rest);
        assert forall|j: int| 0 <= j < b.len() implies b[j].0 != loc by {
            assert(rest.contains(b[j].0.page_id));
        }
        assert(renew(b, loc, vs) =~= b);
    } else {
        assert(rest.contains(loc.page_id)) by {
            let q = choose|q: int| 0 <= q < ids.len() && ids[q] == loc.page_id;
            assert(rest[q - 1] == loc.page_id);
        }
        lemma_chain_rows_renew(pages, rest, loc, p2, vs);
        assert(0 < ids[0] < pages.len());
        assert(pages2[ids[0] as int] == pages[ids[0] as int]);
        lemma_slot_rows_locs(pages[ids[0] as int], ids[0], page_num_slots(pages[ids[0] as int]) as nat);
        assert forall|j: int| 0 <= j < a.len() implies a[j].0 != loc by {
            assert(a[j].0.page_id == ids[0]);
        }
        assert(renew(a, loc, vs) =~= a);
    }
}

/// The rows of every page of a chain whose rows all decode, decode.
pub proof fn lemma_chain_rows_some(pages: Seq<Seq<u8>>, ids: Seq<u32>, k: int)
    requires
        chain_rows(pages, ids) is Some,
        0 <= k < ids.len(),
    ensures
        page_rows(pages[ids[k] as int], ids[k]) is Some,
    decreases ids.len(),
{
    if k > 0 {
        lemma_chain_rows_some(pages, ids.skip(1), k - 1);
        assert(ids.skip(1)[k - 1] == ids[k]);
    }
}

/// What inserting a row into table `t` needs from the store besides room
/// for the row: a fresh page when the table has none or its last page is
/// too full.
pub open spec fn insert_needs_page(pages: Seq<Seq<u8>>, t: STable, cell_len: int) -> bool {
    t.first_page == 0 || page_free_space(pages[t.last_page as int]) < cell_len + SLOT_SIZE
}

/// A page holding one row, the rows it reads back.
proof fn lemma_fresh_page_rows(p0: Seq<u8>, p: Seq<u8>, id: u32, vs: Seq<SValue>)
    requires
        page_wf(p0),
        page_num_slots(p0) == 0,
        page_wf(p),
        page_num_slots(p) == 1,
        forall|i: int| i != 0 ==> #[trigger] page_cell(p, i) == page_cell(p0, i),
        page_cell(p, 0) == Some(enc_row(vs)),
        row_encodable(vs),
    ensures
        page_rows(p, id) == Some(seq![(RowLocation { page_id: id, slot: 0 }, vs)]),
{
    lemma_row_roundtrip(vs, Seq::<u8>::empty());
    assert(enc_row(vs) + Seq::<u8>::empty() =~= enc_row(vs));
    lemma_page_rows_empty(p0, id);
    lemma_page_rows_insert(p0, p, id, vs);
    assert(Seq::<SRow>::empty() + seq![(RowLocation { page_id: id, slot: 0 }, vs)] =~= seq![
        (RowLocation { page_id: id, slot: 0 }, vs),
    ]);
}

/// Appends a row to the table's heap, allocating pages as needed.
///
/// Fails with a storage error, changing nothing, when the encoded row can
/// never fit a page, or when a page is needed and the store cannot grow.
pub fn insert_row<S: Storage + ?Sized>(
    storage: &mut S,
    table: &mut TableSchema,
    values: &[Value],
) -> (r: Result<RowLocation>)
    requires
        pages_wf(old(storage).page_image()),
        enc_row(values_view(values@)).len() <= PAGE_SIZE - 12 ==> old(storage).page_image().len() > 0
            && heap_ok(old(storage).page_image(), old(table)@),
    ensures
        pages_wf(final(storage).page_image()),
        final(table)@.name == old(table)@.name,
        final(table)@.columns == old(table)@.columns,
        ({
            let pages = old(storage).page_image();
            let vs = values_view(values@);
            let len = enc_row(vs).len() as int;
            r is Ok <==> len <= PAGE_SIZE - 12 && (!insert_needs_page(pages, old(table)@, len)
                || pages.len() < u32::MAX)
        }),
        r matches Err(e) ==> e is Storage && final(storage).page_image() == old(
            storage,
        ).page_image() && final(table)@ == old(table)@,
        crate::page::too_large_reported(enc_row(values_view(values@)).len(), r),
        r matches Ok(loc) ==> {
            let pages = old(storage).page_image();
            let pages2 = final(storage).page_image();
            &&& heap_ok(pages2, final(table)@)
            &&& table_rows(pages2, final(table)@) == Some(
                table_rows(pages, old(table)@).unwrap() + seq![(loc, values_view(values@))],
            )
            &&& pages.len() <= pages2.len() <= pages.len() + 1
            &&& (heap_chain(pages2, final(table)@) == heap_chain(pages, old(table)@) || heap_chain(
                pages2,
                final(table)@,
            ) == heap_chain(pages, old(table)@).push(pages.len() as u32))
            &&& forall|id: int|
                0 <= id < pages.len() && id != old(table)@.last_page ==> #[trigger] pages2[id]
                    == pages[id]
            &&& loc.page_id == final(table)@.last_page
            &&& final(table)@.first_page != 0
            &&& old(table)@.first_page != 0 ==> final(table)@.first_page == old(table)@.first_page
            &&& page_cell(pages2[loc.page_id as int], loc.slot as int) == Some(enc_row(values_view(values@)))
        },
{
    proof {
        reveal(crate::page::too_large_reported);
    }
    let ghost pages = storage.page_image();
    let ghost t0 = table@;
    let ghost vs = values_view(values@);
    let ghost ids = choose|ids: Seq<u32>| chain_of(pages, t0, ids) && chain_rows(pages, ids) is Some;
    let cell_len = match crate::record::row_len_within(values, crate::page::max_cell_size()) {
        Some(n) => n,
        None => {
            let e = match crate::record::row_len(values) {
            Some(n) => crate::page::record_too_large(n),
            None => Error::Storage(text("record exceeds maximum cell size")),
        };
        proof {
            reveal(crate::page::too_large_reported);
        }
        return Err(e);
        },
    };
    proof {
        lemma_table_rows(pages, t0, ids);
    }
    let cell = encode_row(values);
    proof {
        lemma_row_roundtrip(vs, Seq::<u8>::empty());
        assert(enc_row(vs) + Seq::<u8>::empty() =~= enc_row(vs));
    }
    if table.first_page == 0 {
        let page_id = storage.allocate_page()?;
        let mut page = SlottedPage::format(page_buffer());
        let ghost p0 = page@;
        let slot = match page.insert(cell.as_slice()) {
            Some(slot) => slot,
            None => {
                return Err(Error::Storage(text("row does not fit in an empty page")));
            },
        };
        storage.write_page(page_id, page.as_bytes())?;
        table.first_page = page_id;
        table.last_page = page_id;
        proof {
            let pages2 = storage.page_image();
            assert(pages2 == pages.push(page@));
            lemma_fresh_page_rows(p0, page@, page_id, vs);
            let ids2 = seq![page_id];
            assert(chain_links(pages2, ids2));
            assert(ids2.skip(1) =~= Seq::<u32>::empty());
            assert(chain_rows(pages2, ids2.skip(1)) == Some(Seq::<SRow>::empty()));
            let extra = seq![(RowLocation { page_id, slot: 0 }, vs)];
            assert(extra + Seq::<SRow>::empty() =~= extra);
            assert(chain_of(pages2, table@, ids2));
            lemma_table_rows(pages2, table@, ids2);
            assert(ids.len() == 0);
            assert(Seq::<SRow>::empty() + extra =~= extra);
            lemma_heap_chain(pages, t0);
            lemma_heap_chain(pages2, table@);
            assert(ids.push(page_id) =~= ids2);
        }
        return Ok(RowLocation { page_id, slot });
    }
    let last = table.last_page;
    proof {
        assert(ids.len() > 0);
        assert(ids[ids.len() - 1] == last);
        assert(0 < ids[ids.len() - 1] < pages.len());
        lemma_chain_rows_some(pages, ids, ids.len() - 1);
    }
    let buf = read_page(storage, last)?;
    let mut page = SlottedPage::new(buf);
    let ghost old_page = page@;
    if let Some(slot) = page.insert(cell.as_slice()) {
        storage.write_page(last, page.as_bytes())?;
        proof {
            let extra = seq![(RowLocation { page_id: last, slot }, vs)];
            lemma_page_rows_insert(old_page, page@, last, vs);
            lemma_chain_grow_last(pages, ids, page@, extra);
            let pages2 = storage.page_image();
            assert(chain_of(pages2, table@, ids));
            lemma_table_rows(pages2, table@, ids);
            lemma_heap_chain(pages, t0);
            lemma_heap_chain(pages2, table@);
        }
        return Ok(RowLocation { page_id: last, slot });
    }
    let new_id = storage.allocate_page()?;
    let mut fresh = SlottedPage::format(page_buffer());
    let ghost p0 = fresh@;
    let slot = match fresh.insert(cell.as_slice()) {
        Some(slot) => slot,
        None => {
            return Err(Error::Storage(text("row does not fit in an empty page")));
        },
    };
    storage.write_page(new_id, fresh.as_bytes())?;
    let ghost pages1 = storage.page_image();
    proof {
        assert(pages1 == pages.push(fresh@));
        assert(pages1[last as int] == pages[last as int]);
    }
    let prev = read_page(storage, last)?;
    let mut prev_page = SlottedPage::new(prev);
    prev_page.set_next(new_id);
    storage.write_page(last, prev_page.as_bytes())?;
    table.last_page = new_id;
    proof {
        let extra = seq![(RowLocation { page_id: new_id, slot: 0 }, vs)];
        lemma_fresh_page_rows(p0, fresh@, new_id, vs);
        lemma_page_rows_same(old_page, prev_page@, last);
        lemma_chain_append_page(pages, ids, prev_page@, fresh@, extra);
        let pages2 = storage.page_image();
        let ids2 = ids.push(new_id);
        assert(pages2 == pages.push(fresh@).update(last as int, prev_page@));
        assert(chain_of(pages2, table@, ids2));
        lemma_table_rows(pages2, table@, ids2);
        lemma_heap_chain(pages, t0);
        lemma_heap_chain(pages2, table@);
    }
    Ok(RowLocation { page_id: new_id, slot })
}

/// A page that keeps its layout, its link and readable rows can replace a
/// page of any chain without breaking it.
pub proof fn lemma_chain_replace_page(pages: Seq<Seq<u8>>, ids: Seq<u32>, id: int, p2: Seq<u8>)
    requires
        chain_links(pages, ids),
        chain_rows(pages, ids) is Some,
        0 <= id < pages.len(),
        page_wf(p2),
        cells_disjoint(p2),
        page_next(p2) == page_next(pages[id]),
        page_rows(p2, id as u32) is Some,
    ensures
        chain_links(pages.update(id, p2), ids),
        chain_rows(pages.update(id, p2), ids) is Some,
        !ids.contains(id as u32) ==> chain_rows(pages.update(id, p2), ids) == chain_rows(pages, ids),
    decreases ids.len(),
{
    let pages2 = pages.update(id, p2);
    assert forall|k: int| 0 <= k < ids.len() implies 0 < #[trigger] ids[k] < pages2.len() && page_wf(
        pages2[ids[k] as int],
    ) && cells_disjoint(pages2[ids[k] as int]) by {}
    assert forall|k: int| 0 <= k < ids.len() - 1 implies page_next(pages2[#[trigger] ids[k] as int])
        == ids[k + 1] by {
        assert(page_next(pages[ids[k] as int]) == ids[k + 1]);
    }
    if ids.len() > 0 {
        assert(ids[ids.len() - 1] == ids.last());
        lemma_chain_links_skip(pages, ids);
        lemma_chain_replace_page(pages, ids.skip(1), id, p2);
        if !ids.contains(id as u32) {
            assert forall|k: int| 0 <= k < ids.skip(1).len() implies ids.skip(1)[k] != id as u32 by {
                assert(ids.skip(1)[k] == ids[k + 1]);
            }
            assert(!ids.skip(1).contains(id as u32));
            assert(ids[0] != id as u32);
        }
        if ids[0] == id {
            assert(pages2[ids[0] as int] == p2);
        }
    }
}

/// Whether page `p` can take the new cell of the row in slot `slot`: in
/// place, when the old cell has its length, or else in a new slot.
pub open spec fn room_for_update(p: Seq<u8>, slot: int, cell: Seq<u8>) -> bool {
    ||| page_cell(p, slot) matches Some(c) && c.len() == cell.len()
    ||| cell.len() + SLOT_SIZE <= page_free_space(p)
}

/// Replaces the row at `location` with new values (may relocate within page).
///
/// When the new cell has the length of the old one it is overwritten in
/// place; otherwise the old cell is deleted and the new one appended to the
/// page. When the page has no room for the new cell, nothing changes and a
/// storage error is returned, so the row is never lost.
pub fn update_row<S: Storage + ?Sized>(
    storage: &mut S,
    location: RowLocation,
    values: &[Value],
) -> (r: Result<()>)
    requires
        pages_wf(old(storage).page_image()),
        location.page_id < old(storage).page_image().len() ==> {
            &&& page_wf(old(storage).page_image()[location.page_id as int])
            &&& cells_disjoint(old(storage).page_image()[location.page_id as int])
            &&& location.slot < page_num_slots(old(storage).page_image()[location.page_id as int])
        },
    ensures
        pages_wf(final(storage).page_image()),
        r is Ok <==> enc_row(values_view(values@)).len() <= PAGE_SIZE - 12
            && location.page_id < old(storage).page_image().len() && room_for_update(
            old(storage).page_image()[location.page_id as int],
            location.slot as int,
            enc_row(values_view(values@)),
        ),
        r is Ok ==> row_encodable(values_view(values@)),
        r is Err ==> final(storage).page_image() == old(storage).page_image(),
        r matches Err(e) ==> e is Storage,
        crate::page::too_large_reported(enc_row(values_view(values@)).len(), r),
        r is Ok ==> ({
            let pages = old(storage).page_image();
            let id = location.page_id as int;
            let slot = location.slot as int;
            let p = pages[id];
            let cell = enc_row(values_view(values@));
            let p2 = final(storage).page_image()[id];
            &&& final(storage).page_image() == pages.update(id, p2)
            &&& page_wf(p2)
            &&& cells_disjoint(p2)
            &&& page_next(p2) == page_next(p)
            &&& if page_cell(p, slot) is Some && page_cell(p, slot).unwrap().len() == cell.len() {
                &&& page_num_slots(p2) == page_num_slots(p)
                &&& page_cell(p2, slot) == Some(cell)
                &&& forall|i: int| i != slot ==> #[trigger] page_cell(p2, i) == page_cell(p, i)
            } else {
                &&& page_cell(p2, slot) is None
                &&& page_num_slots(p2) == page_num_slots(p) + 1
                &&& page_cell(p2, page_num_slots(p)) == Some(cell)
                &&& forall|i: int|
                    i != slot && i != page_num_slots(p) ==> #[trigger] page_cell(p2, i)
                        == page_cell(p, i)
            }
        }),
{
    proof {
        reveal(crate::page::too_large_reported);
    }
    if crate::record::row_len_within(values, crate::page::max_cell_size()).is_none() {
        let e = match crate::record::row_len(values) {
            Some(n) => crate::page::record_too_large(n),
            None => Error::Storage(text("record exceeds maximum cell size")),
        };
        proof {
            reveal(crate::page::too_large_reported);
        }
        return Err(e);
    }
    let cell = encode_row(values);
    let buf = read_page(storage, location.page_id)?;
    let mut page = SlottedPage::new(buf);
    let ghost p = page@;
    proof {
        crate::page::lemma_wf_cell_readable(page@, location.slot as int);
    }
    let in_place = match page.cell(location.slot) {
        Some(c) => c.len() == cell.len(),
        None => false,
    };
    if !in_place && cell.len() + SLOT_SIZE > page.free_space() {
        return Err(Error::Storage(text("no room on the page for the updated row")));
    }
    let _ = page.update(location.slot, cell.as_slice());
    storage.write_page(location.page_id, page.as_bytes())?;
    proof {
        let p2 = page@;
        assert(storage.page_image() == old(storage).page_image().update(
            location.page_id as int,
            p2,
        ));
    }
    Ok(())
}

/// Deletes the row at `location` (tombstone).
pub fn delete_row<S: Storage + ?Sized>(storage: &mut S, location: RowLocation) -> (r: Result<()>)
    requires
        pages_wf(old(storage).page_image()),
        location.page_id < old(storage).page_image().len() ==> page_wf(
            old(storage).page_image()[location.page_id as int],
        ),
    ensures
        pages_wf(final(storage).page_image()),
        r is Ok <==> location.page_id < old(storage).page_image().len(),
        r matches Err(e) ==> e is Storage && final(storage).page_image() == old(storage).page_image(),
        r is Ok ==> ({
            let pages = old(storage).page_image();
            let p = pages[location.page_id as int];
            let p2 = final(storage).page_image()[location.page_id as int];
            &&& final(storage).page_image() == pages.update(location.page_id as int, p2)
            &&& page_wf(p2)
            &&& cells_disjoint(p) ==> cells_disjoint(p2)
            &&& page_next(p2) == page_next(p)
            &&& page_num_slots(p2) == page_num_slots(p)
            &&& page_cell(p2, location.slot as int) is None
            &&& forall|i: int| i != location.slot ==> #[trigger] page_cell(p2, i) == page_cell(p, i)
        }),
{
    let buf = read_page(storage, location.page_id)?;
    let mut page = SlottedPage::new(buf);
    page.delete(location.slot);
    storage.write_page(location.page_id, page.as_bytes())
}

proof fn lemma_slot_rows_fail(p: Seq<u8>, id: u32, i: nat, n: nat)
    requires
        i <= n,
        slot_rows(p, id, i) is None,
    ensures
        slot_rows(p, id, n) is None,
    decreases n - i,
{
    if i < n {
        lemma_slot_rows_fail(p, id, i, (n - 1) as nat);
    }
}

} // verus!
