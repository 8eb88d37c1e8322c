//! System catalog: the set of tables and their schemas.
//!
//! The catalog is serialized onto page 0 of the database image. It is small
//! (a handful of tables) and is rewritten whenever the schema or a table's
//! page chain changes.

use crate::bytes::{
    enc_string, enc_u32, enc_u8, lemma_string_roundtrip, lemma_u32_roundtrip, lemma_u8_roundtrip,
    parse_string, parse_u32, parse_u8, string_encodable, ByteReader, ByteWriter,
};
use crate::error::{quoted, text, Error, Result};
use crate::storage::{PageId, PAGE_SIZE};
use crate::strings::{eq_ignore_case, str_eq_ignore_case, utf8_len};
use vstd::bytes::lemma_auto_spec_u32_to_from_le_bytes;
use crate::value::{enc_type, lemma_type_roundtrip, parse_type, DataType};
use vstd::prelude::*;

verus! {

broadcast use vstd::seq_lib::group_seq_properties;

/// A single column definition.
#[derive(Debug, Clone, PartialEq, Eq)]
pub struct Column {
    pub name: String,
    pub data_type: DataType,
    pub primary_key: bool,
}

/// The mathematical form of a [`Column`].
pub struct SColumn {
    pub name: Seq<char>,
    pub data_type: DataType,
    pub primary_key: bool,
}

impl View for Column {
    type V = SColumn;

    open spec fn view(&self) -> SColumn {
        SColumn { name: self.name@, data_type: self.data_type, primary_key: self.primary_key }
    }
}

impl Column {
    /// A copy of the column.
    pub fn duplicate(&self) -> (c: Column)
        ensures
            c@ == self@,
    {
        Column {
            name: self.name.clone(),
            data_type: self.data_type,
            primary_key: self.primary_key,
        }
    }
}

/// A table's schema plus the location of its heap pages.
#[derive(Debug, Clone, PartialEq, Eq)]
pub struct TableSchema {
    pub name: String,
    pub columns: Vec<Column>,
    /// First page of the heap chain (0 == not yet allocated).
    pub first_page: PageId,
    /// Last page of the heap chain, cached for fast appends (0 == none).
    pub last_page: PageId,
}

/// The mathematical form of a [`TableSchema`].
pub struct STable {
    pub name: Seq<char>,
    pub columns: Seq<SColumn>,
    pub first_page: u32,
    pub last_page: u32,
}

pub open spec fn columns_view(cs: Seq<Column>) -> Seq<SColumn> {
    cs.map_values(|c: Column| c@)
}

impl View for TableSchema {
    type V = STable;

    open spec fn view(&self) -> STable {
        STable {
            name: self.name@,
            columns: columns_view(self.columns@),
            first_page: self.first_page,
            last_page: self.last_page,
        }
    }
}

pub open spec fn tables_view(ts: Seq<TableSchema>) -> Seq<STable> {
    ts.map_values(|t: TableSchema| t@)
}

// --- Lookups by name -----------------------------------------------------------

/// `i` is the first column whose name matches `name` (ignoring ASCII case).
pub open spec fn is_first_column(cols: Seq<SColumn>, name: Seq<char>, i: int) -> bool {
    &&& 0 <= i < cols.len()
    &&& eq_ignore_case(cols[i].name, name)
    &&& forall|j: int| 0 <= j < i ==> !eq_ignore_case(#[trigger] cols[j].name, name)
}

/// Position of the first column named `name` (ignoring ASCII case).
pub open spec fn column_position(cols: Seq<SColumn>, name: Seq<char>) -> Option<int> {
    if exists|i: int| is_first_column(cols, name, i) {
        Some(choose|i: int| is_first_column(cols, name, i))
    } else {
        None
    }
}

/// `i` is the first primary-key column.
pub open spec fn is_first_key(cols: Seq<SColumn>, i: int) -> bool {
    &&& 0 <= i < cols.len()
    &&& cols[i].primary_key
    &&& forall|j: int| 0 <= j < i ==> !(#[trigger] cols[j].primary_key)
}

/// Position of the first primary-key column.
pub open spec fn key_position(cols: Seq<SColumn>) -> Option<int> {
    if exists|i: int| is_first_key(cols, i) {
        Some(choose|i: int| is_first_key(cols, i))
    } else {
        None
    }
}

/// `i` is the first table whose name matches `name` (ignoring ASCII case).
pub open spec fn is_first_table(ts: Seq<STable>, name: Seq<char>, i: int) -> bool {
    &&& 0 <= i < ts.len()
    &&& eq_ignore_case(ts[i].name, name)
    &&& forall|j: int| 0 <= j < i ==> !eq_ignore_case(#[trigger] ts[j].name, name)
}

/// Position of the first table named `name` (ignoring ASCII case).
pub open spec fn table_position(ts: Seq<STable>, name: Seq<char>) -> Option<int> {
    if exists|i: int| is_first_table(ts, name, i) {
        Some(choose|i: int| is_first_table(ts, name, i))
    } else {
        None
    }
}

proof fn lemma_first_column_unique(cols: Seq<SColumn>, name: Seq<char>, i: int)
    requires
        is_first_column(cols, name, i),
    ensures
        column_position(cols, name) == Some(i),
{
    let k = choose|k: int| is_first_column(cols, name, k);
    assert(is_first_column(cols, name, k));
    if k < i {
        assert(!eq_ignore_case(cols[k].name, name));
    }
    if i < k {
        assert(!eq_ignore_case(cols[i].name, name));
    }
}

proof fn lemma_first_key_unique(cols: Seq<SColumn>, i: int)
    requires
        is_first_key(cols, i),
    ensures
        key_position(cols) == Some(i),
{
    let k = choose|k: int| is_first_key(cols, k);
    assert(is_first_key(cols, k));
    if k < i {
        assert(!cols[k].primary_key);
    }
    if i < k {
        assert(!cols[i].primary_key);
    }
}

pub proof fn lemma_first_table_unique(ts: Seq<STable>, name: Seq<char>, i: int)
    requires
        is_first_table(ts, name, i),
    ensures
        table_position(ts, name) == Some(i),
{
    let k = choose|k: int| is_first_table(ts, name, k);
    assert(is_first_table(ts, name, k));
    if k < i {
        assert(!eq_ignore_case(ts[k].name, name));
    }
    if i < k {
        assert(!eq_ignore_case(ts[i].name, name));
    }
}

impl TableSchema {
    /// A copy of the schema.
    pub fn duplicate(&self) -> (t: TableSchema)
        ensures
            t@ == self@,
    {
        let mut columns: Vec<Column> = Vec::new();
        let mut i: usize = 0;
        while i < self.columns.len()
            invariant
                i <= self.columns@.len(),
                columns@.len() == i,
                forall|k: int| 0 <= k < i ==> (#[trigger] columns@[k])@ == self.columns@[k]@,
            decreases self.columns@.len() - i,
        {
            let c = self.columns[i].duplicate();
            columns.push(c);
            i = i + 1;
        }
        assert(columns_view(columns@) =~= columns_view(self.columns@));
        TableSchema {
            name: self.name.clone(),
            columns,
            first_page: self.first_page,
            last_page: self.last_page,
        }
    }

    /// Index of a column by name (case-insensitive).
    pub fn column_index(&self, name: &str) -> (r: Option<usize>)
        ensures
            r matches Some(i) ==> column_position(self@.columns, name@) == Some(i as int),
            r is None ==> column_position(self@.columns, name@) is None,
    {
        let ghost cols = self@.columns;
        let mut i: usize = 0;
        while i < self.columns.len()
            invariant
                i <= self.columns@.len(),
                cols == self@.columns,
                forall|j: int| 0 <= j < i ==> !eq_ignore_case(#[trigger] cols[j].name, name@),
            decreases self.columns@.len() - i,
        {
            if str_eq_ignore_case(self.columns[i].name.as_str(), name) {
                proof {
                    lemma_first_column_unique(cols, name@, i as int);
                }
                return Some(i);
            }
            i = i + 1;
        }
        proof {
            if exists|k: int| is_first_column(cols, name@, k) {
                let k = choose|k: int| is_first_column(cols, name@, k);
                assert(!eq_ignore_case(cols[k].name, name@));
            }
        }
        None
    }

    /// Index of the single primary-key column, if any.
    pub fn primary_key_index(&self) -> (r: Option<usize>)
        ensures
            r matches Some(i) ==> key_position(self@.columns) == Some(i as int),
            r is None ==> key_position(self@.columns) is None,
    {
        let ghost cols = self@.columns;
        let mut i: usize = 0;
        while i < self.columns.len()
            invariant
                i <= self.columns@.len(),
                cols == self@.columns,
                forall|j: int| 0 <= j < i ==> !(#[trigger] cols[j].primary_key),
            decreases self.columns@.len() - i,
        {
            if self.columns[i].primary_key {
                proof {
                    lemma_first_key_unique(cols, i as int);
                }
                return Some(i);
            }
            i = i + 1;
        }
        proof {
            if exists|k: int| is_first_key(cols, k) {
                let k = choose|k: int| is_first_key(cols, k);
                assert(!cols[k].primary_key);
            }
        }
        None
    }
}

// --- Encoding of the catalog page ----------------------------------------------

pub const MAGIC: u32 = 0x4C45_4146;

pub open spec fn enc_column(c: SColumn) -> Seq<u8> {
    enc_string(c.name) + enc_type(c.data_type) + enc_u8(
        if c.primary_key {
            1u8
        } else {
            0u8
        },
    )
}

pub open spec fn enc_columns(cs: Seq<SColumn>) -> Seq<u8>
    decreases cs.len(),
{
    if cs.len() == 0 {
        Seq::<u8>::empty()
    } else {
        enc_columns(cs.drop_last()) + enc_column(cs.last())
    }
}

pub open spec fn enc_table(t: STable) -> Seq<u8> {
    enc_string(t.name) + enc_u32(t.first_page) + enc_u32(t.last_page) + enc_u32(
        t.columns.len() as u32,
    ) + enc_columns(t.columns)
}

pub open spec fn enc_tables(ts: Seq<STable>) -> Seq<u8>
    decreases ts.len(),
{
    if ts.len() == 0 {
        Seq::<u8>::empty()
    } else {
        enc_tables(ts.drop_last()) + enc_table(ts.last())
    }
}

/// The catalog's bytes: the magic number, the table count, then the tables.
pub open spec fn enc_catalog(ts: Seq<STable>) -> Seq<u8> {
    enc_u32(MAGIC) + enc_u32(ts.len() as u32) + enc_tables(ts)
}

#[verifier::opaque]
pub open spec fn parse_column(s: Seq<u8>) -> Option<(SColumn, int)> {
    match parse_string(s) {
        Some((name, a)) => match parse_type(s.skip(a)) {
            Some((t, b)) => match parse_u8(s.skip(a + b)) {
                Some((pk, c)) => Some(
                    (SColumn { name, data_type: t, primary_key: pk != 0 }, a + b + c),
                ),
                None => None,
            },
            None => None,
        },
        None => None,
    }
}

pub open spec fn parse_columns(s: Seq<u8>, n: nat) -> Option<(Seq<SColumn>, int)>
    decreases n,
{
    if n == 0 {
        Some((Seq::<SColumn>::empty(), 0))
    } else {
        match parse_columns(s, (n - 1) as nat) {
            Some((cs, m)) => match parse_column(s.skip(m)) {
                Some((c, k)) => Some((cs.push(c), m + k)),
                None => None,
            },
            None => None,
        }
    }
}

#[verifier::opaque]
pub open spec fn parse_table(s: Seq<u8>) -> Option<(STable, int)> {
    match parse_string(s) {
        Some((name, a)) => match parse_u32(s.skip(a)) {
            Some((first, b)) => match parse_u32(s.skip(a + b)) {
                Some((last, c)) => match parse_u32(s.skip(a + b + c)) {
                    Some((n, d)) => match parse_columns(s.skip(a + b + c + d), n as nat) {
                        Some((cols, e)) => Some(
                            (
                                STable { name, columns: cols, first_page: first, last_page: last },
                                a + b + c + d + e,
                            ),
                        ),
                        None => None,
                    },
                    None => None,
                },
                None => None,
            },
            None => None,
        },
        None => None,
    }
}

pub open spec fn parse_tables(s: Seq<u8>, n: nat) -> Option<(Seq<STable>, int)>
    decreases n,
{
    if n == 0 {
        Some((Seq::<STable>::empty(), 0))
    } else {
        match parse_tables(s, (n - 1) as nat) {
            Some((ts, m)) => match parse_table(s.skip(m)) {
                Some((t, k)) => Some((ts.push(t), m + k)),
                None => None,
            },
            None => None,
        }
    }
}

/// Parses the catalog page: the magic number must match, then the tables
/// follow. Bytes after the last table are ignored.
pub open spec fn parse_catalog(s: Seq<u8>) -> Option<Seq<STable>> {
    match parse_u32(s) {
        Some((magic, a)) => if magic != MAGIC {
            None
        } else {
            match parse_u32(s.skip(a)) {
                Some((n, b)) => match parse_tables(s.skip(a + b), n as nat) {
                    Some((ts, _)) => Some(ts),
                    None => None,
                },
                None => None,
            }
        },
        None => None,
    }
}

/// Every name fits its length prefix and every count fits a u32.
pub open spec fn table_encodable(t: STable) -> bool {
    &&& string_encodable(t.name)
    &&& t.columns.len() <= u32::MAX
    &&& forall|i: int| 0 <= i < t.columns.len() ==> string_encodable(#[trigger] t.columns[i].name)
}

pub open spec fn catalog_encodable(ts: Seq<STable>) -> bool {
    &&& ts.len() <= u32::MAX
    &&& forall|i: int| 0 <= i < ts.len() ==> table_encodable(#[trigger] ts[i])
}

// --- Round-trip laws ---------------------------------------------------------------

proof fn lemma_column_roundtrip(c: SColumn, rest: Seq<u8>)
    requires
        string_encodable(c.name),
    ensures
        parse_column(enc_column(c) + rest) == Some((c, enc_column(c).len() as int)),
{
    reveal(parse_column);
    let pk: u8 = if c.primary_key {
        1
    } else {
        0
    };
    let a = enc_string(c.name);
    let b = enc_type(c.data_type);
    let d = enc_u8(pk);
    assert(enc_column(c) + rest =~= a + (b + d + rest));
    lemma_string_roundtrip(c.name, b + d + rest);
    assert((enc_column(c) + rest).skip(a.len() as int) =~= b + (d + rest));
    lemma_type_roundtrip(c.data_type, d + rest);
    assert((enc_column(c) + rest).skip(a.len() as int + 1) =~= d + rest);
    lemma_u8_roundtrip(pk, rest);
}

proof fn lemma_columns_roundtrip(cs: Seq<SColumn>, rest: Seq<u8>)
    requires
        forall|i: int| 0 <= i < cs.len() ==> string_encodable(#[trigger] cs[i].name),
    ensures
        parse_columns(enc_columns(cs) + rest, cs.len()) == Some((cs, enc_columns(cs).len() as int)),
    decreases cs.len(),
{
    if cs.len() > 0 {
        let init = cs.drop_last();
        let last = cs.last();
        assert forall|i: int| 0 <= i < init.len() implies string_encodable(#[trigger] init[i].name) by {
            assert(init[i] == cs[i]);
        }
        assert(string_encodable(cs[cs.len() - 1].name));
        let tail = enc_column(last) + rest;
        lemma_columns_roundtrip(init, tail);
        assert(enc_columns(cs) + rest =~= enc_columns(init) + tail);
        assert((enc_columns(cs) + rest).skip(enc_columns(init).len() as int) =~= tail);
        lemma_column_roundtrip(last, rest);
        assert(init.push(last) =~= cs);
    }
}

#[verifier::rlimit(40)]
proof fn lemma_table_roundtrip(t: STable, rest: Seq<u8>)
    requires
        table_encodable(t),
    ensures
        parse_table(enc_table(t) + rest) == Some((t, enc_table(t).len() as int)),
{
    let a = enc_string(t.name);
    let b = enc_u32(t.first_page);
    let c = enc_u32(t.last_page);
    let d = enc_u32(t.columns.len() as u32);
    let e = enc_columns(t.columns);
    let s = enc_table(t) + rest;
    reveal(parse_table);
    lemma_auto_spec_u32_to_from_le_bytes();
    let la = a.len() as int;
    let r1 = b + c + d + e + rest;
    let r2 = c + d + e + rest;
    let r3 = d + e + rest;
    let r4 = e + rest;
    assert(s =~= a + r1);
    assert(s.skip(la) =~= r1);
    assert(s.skip(la + 4) =~= r2);
    assert(s.skip(la + 8) =~= r3);
    assert(s.skip(la + 12) =~= r4);
    lemma_string_roundtrip(t.name, r1);
    assert(r1 =~= b + r2);
    lemma_u32_roundtrip(t.first_page, r2);
    assert(r2 =~= c + r3);
    lemma_u32_roundtrip(t.last_page, r3);
    assert(r3 =~= d + r4);
    lemma_u32_roundtrip(t.columns.len() as u32, r4);
    lemma_columns_roundtrip(t.columns, rest);
}

#[verifier::rlimit(60)]
proof fn lemma_tables_roundtrip(ts: Seq<STable>, rest: Seq<u8>)
    requires
        forall|i: int| 0 <= i < ts.len() ==> table_encodable(#[trigger] ts[i]),
    ensures
        parse_tables(enc_tables(ts) + rest, ts.len()) == Some((ts, enc_tables(ts).len() as int)),
    decreases ts.len(),
{
    if ts.len() > 0 {
        let init = ts.drop_last();
        let last = ts.last();
        lemma_auto_spec_u32_to_from_le_bytes();
        assert forall|i: int| 0 <= i < init.len() implies table_encodable(#[trigger] init[i]) by {
            assert(init[i] == ts[i]);
        }
        assert(table_encodable(ts[ts.len() - 1]));
        let tail = enc_table(last) + rest;
        lemma_tables_roundtrip(init, tail);
        assert(enc_tables(ts) + rest =~= enc_tables(init) + tail);
        assert((enc_tables(ts) + rest).skip(enc_tables(init).len() as int) =~= tail);
        lemma_table_roundtrip(last, rest);
        assert(init.push(last) =~= ts);
    }
}

/// Reading back a written catalog page gives the same tables.
pub proof fn lemma_catalog_roundtrip(ts: Seq<STable>, rest: Seq<u8>)
    requires
        catalog_encodable(ts),
    ensures
        parse_catalog(enc_catalog(ts) + rest) == Some(ts),
{
    let body = enc_tables(ts) + rest;
    let s = enc_catalog(ts) + rest;
    assert(s =~= enc_u32(MAGIC) + (enc_u32(ts.len() as u32) + body));
    lemma_u32_roundtrip(MAGIC, enc_u32(ts.len() as u32) + body);
    assert(s.skip(4) =~= enc_u32(ts.len() as u32) + body);
    lemma_u32_roundtrip(ts.len() as u32, body);
    assert(s.skip(8) =~= body);
    lemma_tables_roundtrip(ts, rest);
}

/// A catalog that fits a page has names that fit their length prefixes.
proof fn lemma_fits_encodable(ts: Seq<STable>)
    requires
        enc_catalog(ts).len() <= PAGE_SIZE,
    ensures
        catalog_encodable(ts),
{
    lemma_auto_spec_u32_to_from_le_bytes();
    lemma_tables_fit(ts);
}

proof fn lemma_tables_fit(ts: Seq<STable>)
    requires
        enc_tables(ts).len() <= PAGE_SIZE,
    ensures
        forall|i: int| 0 <= i < ts.len() ==> table_encodable(#[trigger] ts[i]),
        ts.len() <= enc_tables(ts).len(),
    decreases ts.len(),
{
    lemma_auto_spec_u32_to_from_le_bytes();
    if ts.len() > 0 {
        lemma_tables_fit(ts.drop_last());
        let t = ts.last();
        lemma_columns_fit(t.columns);
        assert forall|i: int| 0 <= i < ts.len() implies table_encodable(#[trigger] ts[i]) by {
            if i < ts.len() - 1 {
                assert(ts[i] == ts.drop_last()[i]);
            }
        }
    }
}

proof fn lemma_columns_fit(cs: Seq<SColumn>)
    requires
        enc_columns(cs).len() <= PAGE_SIZE,
    ensures
        forall|i: int| 0 <= i < cs.len() ==> string_encodable(#[trigger] cs[i].name),
        cs.len() <= enc_columns(cs).len(),
    decreases cs.len(),
{
    lemma_auto_spec_u32_to_from_le_bytes();
    if cs.len() > 0 {
        lemma_columns_fit(cs.drop_last());
        assert forall|i: int| 0 <= i < cs.len() implies string_encodable(#[trigger] cs[i].name) by {
            if i < cs.len() - 1 {
                assert(cs[i] == cs.drop_last()[i]);
            }
        }
    }
}

// --- The catalog ---------------------------------------------------------------

/// The in-memory catalog, loaded from and flushed to page 0.
#[derive(Debug, Clone, PartialEq, Eq)]
pub struct Catalog {
    tables: Vec<TableSchema>,
}

impl View for Catalog {
    type V = Seq<STable>;

    closed spec fn view(&self) -> Seq<STable> {
        tables_view(self.tables@)
    }
}

impl Catalog {
    pub fn new() -> (c: Self)
        ensures
            c@ == Seq::<STable>::empty(),
    {
        let c = Catalog { tables: Vec::new() };
        assert(c@ =~= Seq::<STable>::empty());
        c
    }

    pub fn tables(&self) -> (ts: &[TableSchema])
        ensures
            tables_view(ts@) == self@,
    {
        self.tables.as_slice()
    }

    pub fn get(&self, name: &str) -> (r: Option<&TableSchema>)
        ensures
            match table_position(self@, name@) {
                Some(i) => r matches Some(t) && t@ == self@[i],
                None => r is None,
            },
    {
        let ghost ts = self@;
        let mut i: usize = 0;
        while i < self.tables.len()
            invariant
                i <= self.tables@.len(),
                ts == self@,
                forall|j: int| 0 <= j < i ==> !eq_ignore_case(#[trigger] ts[j].name, name@),
            decreases self.tables@.len() - i,
        {
            if str_eq_ignore_case(self.tables[i].name.as_str(), name) {
                proof {
                    lemma_first_table_unique(ts, name@, i as int);
                }
                return Some(&self.tables[i]);
            }
            i = i + 1;
        }
        proof {
            if exists|k: int| is_first_table(ts, name@, k) {
                let k = choose|k: int| is_first_table(ts, name@, k);
                assert(!eq_ignore_case(ts[k].name, name@));
            }
        }
        None
    }

    /// Position of a table by name (case-insensitive).
    pub fn position(&self, name: &str) -> (r: Option<usize>)
        ensures
            match table_position(self@, name@) {
                Some(i) => r == Some(i as usize),
                None => r is None,
            },
    {
        let ghost ts = self@;
        let mut i: usize = 0;
        while i < self.tables.len()
            invariant
                i <= self.tables@.len(),
                ts == self@,
                forall|j: int| 0 <= j < i ==> !eq_ignore_case(#[trigger] ts[j].name, name@),
            decreases self.tables@.len() - i,
        {
            if str_eq_ignore_case(self.tables[i].name.as_str(), name) {
                proof {
                    lemma_first_table_unique(ts, name@, i as int);
                }
                return Some(i);
            }
            i = i + 1;
        }
        proof {
            if exists|k: int| is_first_table(ts, name@, k) {
                let k = choose|k: int| is_first_table(ts, name@, k);
                assert(!eq_ignore_case(ts[k].name, name@));
            }
        }
        None
    }

    /// Sets where the heap chain of the table at `pos` starts and ends.
    pub fn set_pages(&mut self, pos: usize, first_page: PageId, last_page: PageId)
        requires
            pos < old(self)@.len(),
        ensures
            final(self)@ == old(self)@.update(
                pos as int,
                STable { first_page, last_page, ..old(self)@[pos as int] },
            ),
    {
        let ghost old_ts = self.tables@;
        self.tables[pos].first_page = first_page;
        self.tables[pos].last_page = last_page;
        assert(self@ =~= old(self)@.update(
            pos as int,
            STable { first_page, last_page, ..old(self)@[pos as int] },
        ));
    }

    pub fn contains(&self, name: &str) -> (b: bool)
        ensures
            b == (table_position(self@, name@) is Some),
    {
        self.get(name).is_some()
    }

    pub fn add_table(&mut self, table: TableSchema) -> (r: Result<()>)
        ensures
            r is Ok <==> table_position(old(self)@, table.name@) is None,
            r is Ok ==> final(self)@ == old(self)@.push(table@),
            r matches Err(e) ==> e is Catalog && final(self)@ == old(self)@,
            r is Err ==> (r matches Err(Error::Catalog(m)) && m@ == "table '"@ + table.name@
                + "' already exists"@),
    {
        if self.contains(table.name.as_str()) {
            return Err(Error::Catalog(quoted("table '", table.name.as_str(), "' already exists")));
        }
        self.tables.push(table);
        assert(self@ =~= old(self)@.push(table@));
        Ok(())
    }

    /// The number of bytes `self.to_page()` would write, as long as that is at
    /// most `PAGE_SIZE`; `None` when the catalog does not fit a page.
    fn encoded_len(&self) -> (r: Option<usize>)
        ensures
            r is Some <==> enc_catalog(self@).len() <= PAGE_SIZE,
            r matches Some(n) ==> n == enc_catalog(self@).len(),
    {
        proof {
            lemma_auto_spec_u32_to_from_le_bytes();
        }
        let ghost ts = self@;
        assert(ts.len() == self.tables@.len());
        assert(forall|x: u32| (#[trigger] enc_u32(x)).len() == 4);
        let mut acc: usize = 8;
        let mut i: usize = 0;
        while i < self.tables.len()
            invariant
                i <= self.tables@.len(),
                ts == self@,
                ts.len() == self.tables@.len(),
                forall|x: u32| (#[trigger] enc_u32(x)).len() == 4,
                acc == 8 + enc_tables(ts.take(i as int)).len(),
                acc <= PAGE_SIZE,
            decreases self.tables@.len() - i,
        {
            let t = &self.tables[i];
            assert(t@ == ts[i as int]);
            let name_len = utf8_len(t.name.as_str());
            if name_len > PAGE_SIZE {
                proof {
                    lemma_tables_prefix_len(ts, i as int + 1);
                    assert(ts.take(i + 1).drop_last() =~= ts.take(i as int));
                }
                return None;
            }
            let mut tlen: usize = 4 + name_len + 12;
            proof {
                lemma_table_len(ts[i as int]);
            }
            let ghost cols = ts[i as int].columns;
            assert(cols.len() == t.columns@.len());
            assert(cols.take(0) =~= Seq::<SColumn>::empty());
            let mut j: usize = 0;
            while j < t.columns.len()
                invariant
                    j <= t.columns@.len(),
                    i < ts.len(),
                    i < self.tables@.len(),
                    ts == self@,
                    acc == 8 + enc_tables(ts.take(i as int)).len(),
                    acc <= PAGE_SIZE,
                    forall|x: u32| (#[trigger] enc_u32(x)).len() == 4,
                    cols == columns_view(t.columns@),
                    tlen == 12 + enc_string(ts[i as int].name).len() + enc_columns(
                        cols.take(j as int),
                    ).len(),
                    tlen <= 2 * PAGE_SIZE + 16,
                    t@ == ts[i as int],
                decreases t.columns@.len() - j,
            {
                let cname_len = utf8_len(t.columns[j].name.as_str());
                if cname_len > PAGE_SIZE || tlen > PAGE_SIZE {
                    proof {
                        lemma_columns_prefix_len(cols, j as int + 1);
                        assert(cols.take(j + 1).drop_last() =~= cols.take(j as int));
                        lemma_table_len(ts[i as int]);
                        lemma_tables_prefix_len(ts, i as int + 1);
                        assert(ts.take(i + 1).drop_last() =~= ts.take(i as int));
                    }
                    return None;
                }
                assert(cols[j as int] == t.columns@[j as int]@);
                tlen = tlen + 4 + cname_len + 2;
                j = j + 1;
                proof {
                    assert(cols.take(j as int).drop_last() =~= cols.take(j - 1));
                    assert(cols.take(j as int).last() == cols[j - 1]);
                    assert(enc_string(cols[j - 1].name).len() == 4 + cname_len);
                }
            }
            proof {
                assert(cols.take(j as int) =~= cols);
                lemma_table_len(ts[i as int]);
            }
            if tlen > PAGE_SIZE - acc {
                proof {
                    lemma_tables_prefix_len(ts, i as int + 1);
                    assert(ts.take(i + 1).drop_last() =~= ts.take(i as int));
                }
                return None;
            }
            acc = acc + tlen;
            i = i + 1;
            proof {
                assert(ts.take(i as int).drop_last() =~= ts.take(i - 1));
            }
        }
        assert(ts.take(i as int) =~= ts);
        Some(acc)
    }

    /// Serializes the whole catalog into a single page buffer.
    pub fn to_page(&self) -> (r: Result<Vec<u8>>)
        ensures
            r is Ok <==> enc_catalog(self@).len() <= PAGE_SIZE,
            r matches Ok(page) ==> page@.len() == PAGE_SIZE && page@.take(
                enc_catalog(self@).len() as int,
            ) == enc_catalog(self@) && catalog_encodable(self@),
            r matches Ok(page) ==> forall|k: int|
                enc_catalog(self@).len() <= k < PAGE_SIZE ==> #[trigger] page@[k] == 0,
            r matches Err(e) ==> e is Catalog,
    {
        let len = match self.encoded_len() {
            Some(n) => n,
            None => {
                return Err(Error::Catalog(text("catalog is too large to fit in one page")));
            },
        };
        proof {
            lemma_fits_encodable(self@);
        }
        let ghost ts = self@;
        let mut w = ByteWriter::new();
        w.u32(MAGIC);
        w.u32(self.tables.len() as u32);
        let mut i: usize = 0;
        while i < self.tables.len()
            invariant
                i <= self.tables@.len(),
                ts == self@,
                catalog_encodable(ts),
                w@ == enc_u32(MAGIC) + enc_u32(ts.len() as u32) + enc_tables(ts.take(i as int)),
            decreases self.tables@.len() - i,
        {
            let t = &self.tables[i];
            assert(table_encodable(ts[i as int]));
            w.string(t.name.as_str());
            w.u32(t.first_page);
            w.u32(t.last_page);
            w.u32(t.columns.len() as u32);
            let ghost cols = ts[i as int].columns;
            let ghost before = w@;
            let mut j: usize = 0;
            while j < t.columns.len()
                invariant
                    j <= t.columns@.len(),
                    cols == columns_view(t.columns@),
                    table_encodable(ts[i as int]),
                    t@ == ts[i as int],
                    w@ == before + enc_columns(cols.take(j as int)),
                decreases t.columns@.len() - j,
            {
                let c = &t.columns[j];
                assert(string_encodable(cols[j as int].name));
                w.string(c.name.as_str());
                c.data_type.write(&mut w);
                w.u8(
                    if c.primary_key {
                        1
                    } else {
                        0
                    },
                );
                j = j + 1;
                proof {
                    assert(cols.take(j as int).drop_last() =~= cols.take(j - 1));
                    assert(w@ =~= before + enc_columns(cols.take(j as int)));
                }
            }
            i = i + 1;
            proof {
                assert(cols.take(j as int) =~= cols);
                assert(ts.take(i as int).drop_last() =~= ts.take(i - 1));
                assert(w@ =~= enc_u32(MAGIC) + enc_u32(ts.len() as u32) + enc_tables(
                    ts.take(i as int),
                ));
            }
        }
        assert(ts.take(i as int) =~= ts);
        let mut page = w.into_vec();
        let ghost bytes = page@;
        while page.len() < PAGE_SIZE
            invariant
                page@.len() <= PAGE_SIZE,
                bytes.len() <= page@.len(),
                page@.take(bytes.len() as int) == bytes,
                forall|k: int| bytes.len() <= k < page@.len() ==> #[trigger] page@[k] == 0,
            decreases PAGE_SIZE - page@.len(),
        {
            page.push(0);
            assert(page@.take(bytes.len() as int) =~= bytes);
        }
        Ok(page)
    }

    /// Parses a catalog from page 0.
    pub fn from_page(page: &[u8]) -> (r: Result<Catalog>)
        ensures
            match parse_catalog(page@) {
                Some(ts) => r matches Ok(c) && c@ == ts,
                None => r matches Err(e) && e is Storage,
            },
            (parse_u32(page@) matches Some((magic, _)) && magic != MAGIC) ==> (r matches Err(
                Error::Storage(m),
            ) && m@ == "database image has an invalid magic header"@),
    {
        let mut r = ByteReader::new(page);
        let magic = r.u32()?;
        if magic != MAGIC {
            return Err(Error::Storage(text("database image has an invalid magic header")));
        }
        let n = r.u32()?;
        let ghost body = r.remaining();
        proof {
            assert(body =~= page@.skip(8));
            assert(page@.skip(4).skip(4) =~= page@.skip(8));
        }
        let mut tables: Vec<TableSchema> = Vec::new();
        let mut i: u32 = 0;
        let ghost mut m: int = 0;
        while i < n
            invariant
                i <= n,
                r.wf(),
                r.data() == page@,
                parse_u32(page@) == Some((MAGIC, 4int)),
                body == page@.skip(8),
                parse_tables(body, i as nat) == Some((tables_view(tables@), m)),
                parse_catalog(page@) == match parse_tables(body, n as nat) {
                    Some((ts, _)) => Some(ts),
                    None => None,
                },
                0 <= m <= body.len(),
                r.remaining() == body.skip(m),
            decreases n - i,
        {
            let ghost rem = r.remaining();
            let t = match read_table(&mut r) {
                Ok(t) => t,
                Err(e) => {
                    proof {
                        lemma_parse_tables_fails_on(body, (i + 1) as nat, n as nat);
                    }
                    return Err(e);
                },
            };
            proof {
                let k = parse_table(rem).unwrap().1;
                assert(r.remaining() =~= body.skip(m + k));
                m = m + k;
            }
            tables.push(t);
            i = i + 1;
            assert(tables_view(tables@) =~= parse_tables(body, i as nat).unwrap().0);
        }
        Ok(Catalog { tables })
    }
}

/// Reads one table entry of the catalog page.
#[verifier::rlimit(30)]
fn read_table(r: &mut ByteReader) -> (res: Result<TableSchema>)
    requires
        old(r).wf(),
    ensures
        final(r).wf(),
        final(r).data() == old(r).data(),
        match parse_table(old(r).remaining()) {
            Some((t, k)) => res matches Ok(s) && s@ == t && 0 <= k <= old(r).remaining().len()
                && final(r).remaining() == old(r).remaining().skip(k),
            None => res matches Err(e) && e is Storage,
        },
{
    reveal(parse_table);
    let ghost s = r.remaining();
    let name = r.string()?;
    let ghost a = parse_string(s).unwrap().1;
    let first_page = r.u32()?;
    proof {
        assert(s.skip(a).skip(4) =~= s.skip(a + 4));
    }
    let last_page = r.u32()?;
    proof {
        assert(s.skip(a + 4).skip(4) =~= s.skip(a + 8));
    }
    let col_count = r.u32()?;
    proof {
        assert(s.skip(a + 8).skip(4) =~= s.skip(a + 12));
    }
    let ghost body = r.remaining();
    let ghost tail = parse_columns(body, col_count as nat);
    assert(parse_table(s) == match tail {
        Some((cols, e)) => Some(
            (STable { name: name@, columns: cols, first_page, last_page }, a + 12 + e),
        ),
        None => None,
    });
    let mut columns: Vec<Column> = Vec::new();
    let mut i: u32 = 0;
    let ghost mut m: int = 0;
    while i < col_count
        invariant
            i <= col_count,
            r.wf(),
            r.data() == old(r).data(),
            body == s.skip(a + 12),
            0 <= a + 12 <= s.len(),
            parse_columns(body, i as nat) == Some((columns_view(columns@), m)),
            tail == parse_columns(body, col_count as nat),
            tail is None ==> parse_table(s) is None,
            s == old(r).remaining(),
            0 <= m <= body.len(),
            r.remaining() == body.skip(m),
        decreases col_count - i,
    {
        proof {
            reveal(parse_column);
        }
        let ghost rem = r.remaining();
        let cname = match r.string() {
            Ok(x) => x,
            Err(e) => {
                proof {
                    lemma_parse_columns_fails_on(body, (i + 1) as nat, col_count as nat);
                }
                return Err(e);
            },
        };
        let ghost a1 = parse_string(rem).unwrap().1;
        let ghost rem_a = r.remaining();
        let data_type = match DataType::read(r) {
            Ok(x) => x,
            Err(e) => {
                proof {
                    assert(rem_a == rem.skip(a1));
                    lemma_parse_columns_fails_on(body, (i + 1) as nat, col_count as nat);
                }
                return Err(e);
            },
        };
        proof {
            assert(rem.skip(a1).skip(1) =~= rem.skip(a1 + 1));
        }
        let ghost rem_b = r.remaining();
        let pk = match r.u8() {
            Ok(x) => x,
            Err(e) => {
                proof {
                    assert(rem_b == rem.skip(a1 + 1));
                    lemma_parse_columns_fails_on(body, (i + 1) as nat, col_count as nat);
                }
                return Err(e);
            },
        };
        proof {
            assert(rem.skip(a1 + 1).skip(1) =~= rem.skip(a1 + 2));
            assert(r.remaining() =~= body.skip(m + a1 + 2));
            m = m + a1 + 2;
        }
        columns.push(Column { name: cname, data_type, primary_key: pk != 0 });
        i = i + 1;
        assert(columns_view(columns@) =~= parse_columns(body, i as nat).unwrap().0);
    }
    proof {
        assert(r.remaining() =~= s.skip(a + 12 + m));
    }
    Ok(TableSchema { name, columns, first_page, last_page })
}

proof fn lemma_parse_tables_fails_on(s: Seq<u8>, i: nat, n: nat)
    requires
        i <= n,
        parse_tables(s, i) is None,
    ensures
        parse_tables(s, n) is None,
    decreases n - i,
{
    if i < n {
        lemma_parse_tables_fails_on(s, i, (n - 1) as nat);
    }
}

proof fn lemma_parse_columns_fails_on(s: Seq<u8>, i: nat, n: nat)
    requires
        i <= n,
        parse_columns(s, i) is None,
    ensures
        parse_columns(s, n) is None,
    decreases n - i,
{
    if i < n {
        lemma_parse_columns_fails_on(s, i, (n - 1) as nat);
    }
}

proof fn lemma_table_len(t: STable)
    ensures
        enc_table(t).len() == 12 + enc_string(t.name).len() + enc_columns(t.columns).len(),
        enc_string(t.name).len() == 4 + vstd::utf8::encode_utf8(t.name).len(),
{
    lemma_auto_spec_u32_to_from_le_bytes();
}

/// A prefix of the tables never encodes to more bytes than all of them.
proof fn lemma_tables_prefix_len(ts: Seq<STable>, i: int)
    requires
        0 <= i <= ts.len(),
    ensures
        enc_tables(ts.take(i)).len() <= enc_tables(ts).len(),
    decreases ts.len(),
{
    if i < ts.len() {
        assert(ts.drop_last().take(i) =~= ts.take(i));
        lemma_tables_prefix_len(ts.drop_last(), i);
    } else {
        assert(ts.take(i) =~= ts);
    }
}

/// A prefix of the columns never encodes to more bytes than all of them.
proof fn lemma_columns_prefix_len(cs: Seq<SColumn>, i: int)
    requires
        0 <= i <= cs.len(),
    ensures
        enc_columns(cs.take(i)).len() <= enc_columns(cs).len(),
    decreases cs.len(),
{
    if i < cs.len() {
        assert(cs.drop_last().take(i) =~= cs.take(i));
        lemma_columns_prefix_len(cs.drop_last(), i);
    } else {
        assert(cs.take(i) =~= cs);
    }
}

} // verus!
