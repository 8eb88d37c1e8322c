//! The [`Database`] facade: the primary entry point of the engine.
//!
//! A `Database` owns an in-memory page image ([`MemoryStorage`]) and the
//! catalog. Callers run SQL through [`Database::execute`]. Persistence is
//! handled by exporting the raw page image ([`Database::export_image`]) and
//! reloading it with [`Database::open_image`]; the browser layer stores that
//! image in OPFS.

use crate::catalog::{
    catalog_encodable, enc_catalog, lemma_catalog_roundtrip, parse_catalog, tables_view, Catalog,
    STable, TableSchema,
};
use crate::error::{text, Error, Result};
use crate::executor::{
    self, bind_all, executed, heaps_sound, keys_ok, store_ok, table_keys_ok, ExecResult,
};
use crate::heap::{heap_chain, heap_ok, lemma_heap_chain, table_rows};
use crate::record::values_view;
use crate::sql::ast::SStatement;
use crate::sql::parser::{parse, parse_sql};
use crate::storage::{
    image_pages, image_wf, lemma_image_pages_wf, pages_wf, MemoryStorage, PageId, Storage, PAGE_SIZE,
};
use crate::value::Value;
use vstd::prelude::*;

verus! {

const CATALOG_PAGE: PageId = 0;

/// An image a database can be opened from: a whole number of pages, the
/// first holding a catalog whose tables' heaps are sound.
pub open spec fn valid_image(bytes: Seq<u8>) -> bool {
    &&& image_wf(bytes)
    &&& image_pages(bytes).len() > 0
    &&& parse_catalog(image_pages(bytes)[0]) matches Some(ts) && store_ok(ts, image_pages(bytes))
}

/// The tables the catalog page of an image lists.
pub open spec fn image_tables(bytes: Seq<u8>) -> Seq<STable> {
    parse_catalog(image_pages(bytes)[0]).unwrap()
}

/// `pages2` is `pages` with at most the catalog page rewritten.
pub open spec fn heaps_kept(pages: Seq<Seq<u8>>, pages2: Seq<Seq<u8>>) -> bool {
    &&& pages2.len() == pages.len()
    &&& forall|q: int| 0 < q < pages.len() ==> #[trigger] pages2[q] == pages[q]
}

/// What the statement returned, `r0`, is what comes back, but for a statement
/// after which the catalog no longer fits its page: then a catalog error.
pub open spec fn flushed(r0: Result<ExecResult>, r: Result<ExecResult>, ts2: Seq<STable>) -> bool {
    ||| r == r0
    ||| r0 is Ok && (r matches Err(e) && e is Catalog) && enc_catalog(ts2).len() > PAGE_SIZE
}

/// What running a bound statement on a database did: the statement ran as
/// `executed` says, leaving pages `mid` and result `r0`, after which the
/// catalog page was rewritten if the statement changed rows or tables; after
/// any other outcome nothing more changed.
pub open spec fn ran(
    ts: Seq<STable>,
    pages: Seq<Seq<u8>>,
    st: crate::sql::ast::SStatement,
    ts2: Seq<STable>,
    pages2: Seq<Seq<u8>>,
    r: Result<ExecResult>,
) -> bool {
    exists|mid: Seq<Seq<u8>>, r0: Result<ExecResult>|
        {
            &&& executed(ts, pages, st, ts2, mid, r0)
            &&& heaps_kept(mid, pages2)
            &&& flushed(r0, r, ts2)
            &&& !(r0 matches Ok(x) && x@ is Affected) ==> pages2 == mid && r == r0
        }
}

/// The image of a new database: one page holding the empty catalog, the rest
/// of the page zero.
pub open spec fn empty_image() -> Seq<u8> {
    let cat = enc_catalog(Seq::<STable>::empty());
    cat + Seq::new((PAGE_SIZE - cat.len()) as nat, |i: int| 0u8)
}

/// An embedded leafdb database backed by an in-memory page image.
pub struct Database {
    storage: MemoryStorage,
    catalog: Catalog,
}

impl Database {
    /// The tables of the database.
    pub closed spec fn schema(&self) -> Seq<STable> {
        self.catalog@
    }

    /// The pages of the database.
    pub closed spec fn pages(&self) -> Seq<Seq<u8>> {
        self.storage.page_image()
    }

    /// The raw image of the database.
    pub closed spec fn image_bytes(&self) -> Seq<u8> {
        self.storage.bytes()
    }

    /// The heaps of the tables are sound.
    pub closed spec fn wf(&self) -> bool {
        &&& store_ok(self.catalog@, self.storage.page_image())
        &&& self.storage.page_image() == image_pages(self.storage.bytes())
        &&& image_wf(self.storage.bytes())
    }

    /// Every table with a primary key holds set, pairwise different keys.
    pub closed spec fn keys_ok(&self) -> bool {
        keys_ok(self.catalog@, self.storage.page_image())
    }

    /// The catalog page holds the catalog.
    pub closed spec fn synced(&self) -> bool {
        parse_catalog(self.storage.page_image()[0]) == Some(self.catalog@)
    }

    /// Creates a brand-new, empty database: one page holding an empty catalog.
    pub fn create() -> (r: Result<Database>)
        ensures
            r matches Ok(db) && db.wf() && db.synced() && db.keys_ok() && db.schema() == Seq::<
                STable,
            >::empty() && db.pages().len() == 1 && db.image_bytes() == empty_image(),
    {
        let mut storage = MemoryStorage::new();
        proof {
            lemma_image_pages_wf(storage.bytes());
        }
        let page = storage.allocate_page()?;
        let catalog = Catalog::new();
        proof {
            let e = Seq::<STable>::empty();
            vstd::bytes::lemma_auto_spec_u32_to_from_le_bytes();
            assert(crate::catalog::enc_tables(e) =~= Seq::<u8>::empty());
            assert(enc_catalog(e).len() == 8);
        }
        let buf = catalog.to_page()?;
        storage.write_page(page, buf.as_slice())?;
        let db = Database { storage, catalog };
        proof {
            use_type_invariant(&db.storage);
            let ts = catalog@;
            lemma_catalog_roundtrip(ts, buf@.skip(enc_catalog(ts).len() as int));
            assert(buf@ =~= enc_catalog(ts) + buf@.skip(enc_catalog(ts).len() as int));
            assert(db.storage.page_image()[0] == buf@);
            let bytes = db.storage.bytes();
            assert(bytes.len() == PAGE_SIZE) by {
                assert(image_pages(bytes).len() == 1);
                vstd::arithmetic::div_mod::lemma_fundamental_div_mod(bytes.len() as int, PAGE_SIZE as int);
            }
            assert(bytes =~= image_pages(bytes)[0]);
            assert(buf@ =~= empty_image());
        }
        Ok(db)
    }

    /// Reopens a database from a previously exported page image.
    ///
    /// Fails with a storage error when the image is not a whole number of
    /// pages, has no catalog page, or its catalog or heaps are corrupt.
    pub fn open_image(image: Vec<u8>) -> (r: Result<Database>)
        ensures
            r is Ok <==> valid_image(image@),
            r matches Ok(db) ==> db.wf() && db.synced() && db.image_bytes() == image@
                && db.schema() == image_tables(image@),
            r matches Err(e) ==> e is Storage,
    {
        if image.len() / PAGE_SIZE > 0xFFFF_FFFF {
            return Err(Error::Storage(text("image has too many pages")));
        }
        let storage = MemoryStorage::from_image(image)?;
        proof {
            use_type_invariant(&storage);
            lemma_image_pages_wf(storage.bytes());
        }
        let mut buf: Vec<u8> = Vec::new();
        let mut i: usize = 0;
        while i < PAGE_SIZE
            invariant
                i <= PAGE_SIZE,
                buf@.len() == i,
            decreases PAGE_SIZE - i,
        {
            buf.push(0u8);
            i = i + 1;
        }
        storage.read_page(CATALOG_PAGE, buf.as_mut_slice())?;
        let catalog = Catalog::from_page(buf.as_slice())?;
        if !heaps_sound(&catalog, &storage) {
            return Err(Error::Storage(text("corrupt image: a table's pages are unsound")));
        }
        Ok(Database { storage, catalog })
    }

    /// Opens from an image if provided and non-empty, otherwise creates fresh.
    pub fn open_or_create(image: Option<Vec<u8>>) -> (r: Result<Database>)
        ensures
            match image {
                Some(bytes) if bytes@.len() > 0 => {
                    &&& r is Ok <==> valid_image(bytes@)
                    &&& r matches Ok(db) ==> db.wf() && db.synced() && db.image_bytes() == bytes@
                        && db.schema() == image_tables(bytes@)
                    &&& r matches Err(e) ==> e is Storage
                },
                _ => r matches Ok(db) && db.wf() && db.synced() && db.keys_ok() && db.schema()
                    == Seq::<STable>::empty() && db.pages().len() == 1,
            },
    {
        match image {
            Some(bytes) => {
                if bytes.len() > 0 {
                    Database::open_image(bytes)
                } else {
                    Database::create()
                }
            },
            None => Database::create(),
        }
    }

    /// Executes a single SQL statement with positional parameters.
    ///
    /// A statement that may have changed the catalog rewrites the catalog
    /// page; when the catalog no longer fits a page, that fails with a
    /// catalog error, after the statement took effect.
    pub fn execute(&mut self, sql: &str, params: &[Value]) -> (r: Result<ExecResult>)
        requires
            old(self).wf(),
        ensures
            final(self).wf(),
            match parse_sql(sql@) {
                None => r matches Err(e) && e is Parse && final(self).schema() == old(self).schema()
                    && final(self).pages() == old(self).pages(),
                Some(st) => match bind_all(st, values_view(params@)) {
                    None => r matches Err(e) && e is Parameter && final(self).schema() == old(
                        self,
                    ).schema() && final(self).pages() == old(self).pages(),
                    Some(b) => ran(
                        old(self).schema(),
                        old(self).pages(),
                        b,
                        final(self).schema(),
                        final(self).pages(),
                        r,
                    ),
                },
            },
            old(self).keys_ok() ==> final(self).keys_ok(),
            r matches Ok(x) && x@ is Affected ==> final(self).synced(),
            r matches Ok(x) && x@ is Rows ==> final(self).schema() == old(self).schema()
                && final(self).pages() == old(self).pages(),
            final(self).pages() == old(self).pages() ==> final(self).image_bytes() == old(
                self,
            ).image_bytes(),
            parse_sql(sql@) matches Some(SStatement::Select(_)) ==> final(self).schema() == old(
                self,
            ).schema() && final(self).image_bytes() == old(self).image_bytes(),
    {
        proof {
            use_type_invariant(&self.storage);
            lemma_image_pages_wf(self.storage.bytes());
        }
        let ghost before = *self;
        let stmt = parse(sql)?;
        let ghost ts = self.catalog@;
        let ghost pages = self.storage.page_image();
        let ghost b = bind_all(stmt@, values_view(params@));
        let result = executor::execute(&mut self.catalog, &mut self.storage, stmt, params);
        let ghost mid = self.storage.page_image();
        let ghost r0 = result;
        proof {
            use_type_invariant(&self.storage);
            lemma_image_pages_wf(self.storage.bytes());
            assert(heaps_kept(mid, mid));
        }
        let result = match result {
            Ok(x) => x,
            Err(e) => {
                proof {
                    if let Some(bb) = b {
                        assert(executed(ts, pages, bb, self.catalog@, mid, r0));
                        assert(flushed(r0, Err(e), self.catalog@));
                        assert(ran(ts, pages, bb, self.catalog@, self.storage.page_image(), Err(e)));
                    }
                    let ghost_after = *self;
                    if self.pages() == before.pages() {
                        lemma_same_pages_same_image(before, ghost_after);
                    }
                    if parse_sql(sql@) matches Some(st) && st is Select {
                        lemma_select_read_only(ts, pages, stmt@, values_view(params@), self.catalog@, self.storage.page_image(), Err(e));
                        lemma_same_pages_same_image(before, ghost_after);
                    }
                }
                return Err(e);
            },
        };
        if result.is_mutation() {
            let written = self.flush_catalog();
            match written {
                Ok(()) => {},
                Err(e) => {
                    proof {
                        if let Some(bb) = b {
                            assert(executed(ts, pages, bb, self.catalog@, mid, r0));
                            assert(flushed(r0, Err(e), self.catalog@));
                            assert(ran(ts, pages, bb, self.catalog@, self.storage.page_image(), Err(e)));
                        }
                    let ghost_after = *self;
                    if self.pages() == before.pages() {
                        lemma_same_pages_same_image(before, ghost_after);
                    }
                    if parse_sql(sql@) matches Some(st) && st is Select {
                        lemma_select_read_only(ts, pages, stmt@, values_view(params@), self.catalog@, self.storage.page_image(), Err(e));
                        lemma_same_pages_same_image(before, ghost_after);
                    }
                    }
                    return Err(e);
                },
            }
        }
        proof {
            if let Some(bb) = b {
                assert(executed(ts, pages, bb, self.catalog@, mid, r0));
                assert(flushed(r0, Ok(result), self.catalog@));
                assert(ran(ts, pages, bb, self.catalog@, self.storage.page_image(), Ok(result)));
            }
                    let ghost_after = *self;
                    if self.pages() == before.pages() {
                        lemma_same_pages_same_image(before, ghost_after);
                    }
                    if parse_sql(sql@) matches Some(st) && st is Select {
                        lemma_select_read_only(ts, pages, stmt@, values_view(params@), self.catalog@, self.storage.page_image(), Ok(result));
                        lemma_same_pages_same_image(before, ghost_after);
                    }
        }
        Ok(result)
    }

    /// Executes a statement that takes no parameters.
    pub fn execute_str(&mut self, sql: &str) -> (r: Result<ExecResult>)
        requires
            old(self).wf(),
        ensures
            final(self).wf(),
            match parse_sql(sql@) {
                None => r matches Err(e) && e is Parse && final(self).schema() == old(self).schema()
                    && final(self).pages() == old(self).pages(),
                Some(st) => match bind_all(st, Seq::<crate::value::SValue>::empty()) {
                    None => r matches Err(e) && e is Parameter && final(self).schema() == old(
                        self,
                    ).schema() && final(self).pages() == old(self).pages(),
                    Some(b) => ran(
                        old(self).schema(),
                        old(self).pages(),
                        b,
                        final(self).schema(),
                        final(self).pages(),
                        r,
                    ),
                },
            },
            old(self).keys_ok() ==> final(self).keys_ok(),
            r matches Ok(x) && x@ is Affected ==> final(self).synced(),
            r matches Ok(x) && x@ is Rows ==> final(self).schema() == old(self).schema()
                && final(self).pages() == old(self).pages(),
            final(self).pages() == old(self).pages() ==> final(self).image_bytes() == old(
                self,
            ).image_bytes(),
            parse_sql(sql@) matches Some(SStatement::Select(_)) ==> final(self).schema() == old(
                self,
            ).schema() && final(self).image_bytes() == old(self).image_bytes(),
    {
        let none: [Value; 0] = [];
        proof {
            assert(values_view(none@) =~= Seq::<crate::value::SValue>::empty());
        }
        self.execute(sql, &none)
    }

    /// Serializes the full database into a page image for persistence.
    pub fn export_image(&self) -> (v: Vec<u8>)
        ensures
            v@ == self.image_bytes(),
            self.wf() ==> image_pages(v@) == self.pages(),
    {
        self.storage.image()
    }

    /// Returns the schemas of all tables.
    pub fn tables(&self) -> (ts: &[TableSchema])
        ensures
            tables_view(ts@) == self.schema(),
    {
        self.catalog.tables()
    }

    /// Rewrites the catalog page from the in-memory catalog.
    fn flush_catalog(&mut self) -> (r: Result<()>)
        requires
            old(self).wf(),
        ensures
            final(self).wf(),
            final(self).schema() == old(self).schema(),
            heaps_kept(old(self).pages(), final(self).pages()),
            r is Ok <==> enc_catalog(old(self).schema()).len() <= PAGE_SIZE,
            r is Ok ==> final(self).synced(),
            r matches Err(e) ==> e is Catalog && final(self).pages() == old(self).pages(),
            old(self).keys_ok() ==> final(self).keys_ok(),
    {
        proof {
            use_type_invariant(&self.storage);
            lemma_image_pages_wf(self.storage.bytes());
        }
        let ghost ts = self.catalog@;
        let ghost pages = self.storage.page_image();
        let page = self.catalog.to_page()?;
        let _ = self.storage.write_page(CATALOG_PAGE, page.as_slice());
        proof {
            use_type_invariant(&self.storage);
            let pages2 = self.storage.page_image();
            assert(pages2 == pages.update(0, page@));
            lemma_catalog_kept_heaps(ts, pages, page@);
            if keys_ok(ts, pages) {
                assert forall|j: int| 0 <= j < ts.len() implies #[trigger] table_keys_ok(ts[j], pages2) by {
                    assert(table_keys_ok(ts[j], pages));
                    assert(table_rows(pages2, ts[j]) == table_rows(pages, ts[j]));
                }
            }
            lemma_catalog_roundtrip(ts, page@.skip(enc_catalog(ts).len() as int));
            assert(page@ =~= enc_catalog(ts) + page@.skip(enc_catalog(ts).len() as int));
        }
        Ok(())
    }
}

/// Rewriting the catalog page keeps the store sound.
proof fn lemma_catalog_kept_heaps(ts: Seq<STable>, pages: Seq<Seq<u8>>, p0: Seq<u8>)
    requires
        store_ok(ts, pages),
        p0.len() == PAGE_SIZE,
    ensures
        store_ok(ts, pages.update(0, p0)),
        heaps_kept(pages, pages.update(0, p0)),
        forall|j: int|
            0 <= j < ts.len() ==> #[trigger] table_rows(pages.update(0, p0), ts[j]) == table_rows(
                pages,
                ts[j],
            ),
{
    let pages2 = pages.update(0, p0);
    assert forall|j: int| 0 <= j < ts.len() implies #[trigger] heap_ok(pages2, ts[j])
        && heap_chain(pages2, ts[j]) == heap_chain(pages, ts[j]) && table_rows(pages2, ts[j])
        == table_rows(pages, ts[j]) by {
        assert(heap_ok(pages, ts[j]));
        let h = heap_chain(pages, ts[j]);
        lemma_heap_chain(pages, ts[j]);
        assert forall|k: int| 0 <= k < h.len() implies pages2[#[trigger] h[k] as int] == pages[h[k] as int] by {
            assert(0 < h[k] < pages.len());
        }
        crate::heap::lemma_chain_frame(pages, pages2, h);
        assert(crate::heap::chain_of(pages2, ts[j], h));
        lemma_heap_chain(pages2, ts[j]);
    }
    assert forall|j: int| 0 <= j < ts.len() implies #[trigger] table_rows(pages2, ts[j]) == table_rows(
        pages,
        ts[j],
    ) by {
        assert(heap_ok(pages2, ts[j]));
    }
    assert(pages_wf(pages2)) by {
        assert forall|q: int| 0 <= q < pages2.len() implies (#[trigger] pages2[q]).len() == PAGE_SIZE by {
            if q != 0 {
                assert(pages2[q] == pages[q]);
            }
        }
    }
    assert forall|a: int, b: int, x: u32|
        0 <= a < ts.len() && 0 <= b < ts.len() && a != b && #[trigger] heap_chain(
            pages2,
            ts[a],
        ).contains(x) implies !#[trigger] heap_chain(pages2, ts[b]).contains(x) by {
        assert(heap_ok(pages2, ts[a]) && heap_ok(pages2, ts[b]));
        assert(heap_chain(pages2, ts[a]) == heap_chain(pages, ts[a]));
        assert(heap_chain(pages2, ts[b]) == heap_chain(pages, ts[b]));
        assert(heap_chain(pages, ts[a]).contains(x));
    }
}

/// Two sound databases with the same pages have the same image.
proof fn lemma_same_pages_same_image(a: Database, b: Database)
    requires
        a.wf(),
        b.wf(),
        a.pages() == b.pages(),
    ensures
        a.image_bytes() == b.image_bytes(),
{
    crate::storage::lemma_image_pages_injective(a.storage.bytes(), b.storage.bytes());
}

/// A statement that parses as a `SELECT` changes neither tables nor pages.
proof fn lemma_select_read_only(
    ts: Seq<STable>,
    pages: Seq<Seq<u8>>,
    st: crate::sql::ast::SStatement,
    ps: Seq<crate::value::SValue>,
    ts2: Seq<STable>,
    pages2: Seq<Seq<u8>>,
    r: Result<ExecResult>,
)
    requires
        st is Select,
        match bind_all(st, ps) {
            None => ts2 == ts && pages2 == pages,
            Some(b) => ran(ts, pages, b, ts2, pages2, r),
        },
    ensures
        ts2 == ts && pages2 == pages,
{
    if let Some(b) = bind_all(st, ps) {
        assert(b is Select);
        let (mid, r0) = choose|mid: Seq<Seq<u8>>, r0: Result<ExecResult>|
            {
                &&& executed(ts, pages, b, ts2, mid, r0)
                &&& heaps_kept(mid, pages2)
                &&& flushed(r0, r, ts2)
                &&& !(r0 matches Ok(x) && x@ is Affected) ==> pages2 == mid && r == r0
            };
    }
}

/// The key law of a database is the key law of its tables and pages.
pub proof fn lemma_keys_ok_rows(db: &Database)
    ensures
        db.keys_ok() == keys_ok(db.schema(), db.pages()),
{
}

/// An exported image of a database whose catalog page is up to date opens
/// again, with the same tables and the same bytes.
pub proof fn lemma_image_round_trip(db: &Database)
    requires
        db.wf(),
        db.synced(),
    ensures
        valid_image(db.image_bytes()),
        image_tables(db.image_bytes()) == db.schema(),
{
}

/// A database opened from the image that another one exported, once that one's
/// catalog page is up to date, holds the same tables, the same pages and so
/// the same rows in every table.
pub proof fn lemma_reopened_same(db: &Database, db2: &Database)
    requires
        db.wf(),
        db.synced(),
        db2.wf(),
        db2.image_bytes() == db.image_bytes(),
        db2.schema() == image_tables(db.image_bytes()),
    ensures
        db2.schema() == db.schema(),
        db2.pages() == db.pages(),
        forall|j: int|
            0 <= j < db.schema().len() ==> #[trigger] table_rows(db2.pages(), db2.schema()[j])
                == table_rows(db.pages(), db.schema()[j]),
{
}

} // verus!
