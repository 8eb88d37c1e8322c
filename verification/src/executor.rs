//! Statement executor: turns a parsed [`Statement`] into storage operations.
//!
//! What each statement does is stated over the mathematical forms of the
//! catalog (`Seq<STable>`), the page image (`Seq<Seq<u8>>`) and the rows that
//! a scan of a table reads (`table_rows`).

use crate::catalog::{
    tables_view, column_position, columns_view, is_first_column, key_position, table_position, Catalog, Column, SColumn,
    STable, TableSchema,
};
use crate::error::{kind, quoted, text, Error, ErrorKind, Result};
use crate::heap::{
    self, chain_links, chain_of, chain_rows, heap_chain, heap_ok, lemma_chain_frame, lemma_chain_replace_page,
    lemma_heap_chain, lemma_table_rows, lemma_walk_chain, lemma_walk_links, located_view, page_rows,
    not_at, sieve, table_rows, walk, LocatedRow,
    RowLocation, SRow,
};
use crate::page::{cells_disjoint, page_cell, page_next, page_num_slots, page_wf};
use crate::record::{enc_row, values_view};
use crate::sql::ast::{
    assignments_view, exprs_view, filter_view, names_view, rows_view, BinOp, CreateTable, Delete,
    Expr, Insert, Projection, SColumnDef, SCreateTable, SDelete, SExpr, SInsert, SProjection, SSelect, SUpdate, Select,
    Statement, SStatement, Update,
};
use crate::sql::parser::binary;
use crate::storage::{pages_wf, Storage, PAGE_SIZE};
use crate::strings::{chars_of, decimal_string, eq_ignore_case, str_eq_ignore_case};
use crate::value::{coerce, DataType, SValue, Value};
use vstd::prelude::*;

verus! {

broadcast use vstd::seq_lib::group_seq_properties;

/// The outcome of executing a statement.
#[derive(Debug, Clone, PartialEq)]
pub enum ExecResult {
    /// A DDL/DML statement; carries the number of affected rows.
    Affected(usize),
    /// A `SELECT` result set.
    Rows { columns: Vec<String>, rows: Vec<Vec<Value>> },
}

/// The mathematical form of an [`ExecResult`].
pub enum SResult {
    Affected(nat),
    Rows(Seq<Seq<char>>, Seq<Seq<SValue>>),
}

pub open spec fn value_rows_view(rows: Seq<Vec<Value>>) -> Seq<Seq<SValue>> {
    rows.map_values(|r: Vec<Value>| values_view(r@))
}

impl View for ExecResult {
    type V = SResult;

    open spec fn view(&self) -> SResult {
        match self {
            ExecResult::Affected(n) => SResult::Affected(*n as nat),
            ExecResult::Rows { columns, rows } => SResult::Rows(
                names_view(columns@),
                value_rows_view(rows@),
            ),
        }
    }
}

impl ExecResult {
    /// True when the statement may have changed catalog metadata and the
    /// catalog page should be flushed.
    pub fn is_mutation(&self) -> (b: bool)
        ensures
            b == (self@ is Affected),
    {
        match self {
            ExecResult::Affected(_) => true,
            _ => false,
        }
    }
}

// --- Values in expressions ---------------------------------------------------------

/// The value in column `i` of a row; a row too short to have it reads `NULL`.
pub open spec fn cell_at(row: Seq<SValue>, i: int) -> SValue {
    if 0 <= i < row.len() {
        row[i]
    } else {
        SValue::Null
    }
}

/// The result of comparing two values.
#[derive(Debug, Clone, Copy, PartialEq, Eq, Structural)]
pub enum Comparison {
    Less,
    Equal,
    Greater,
}

pub open spec fn order_int(x: int, y: int) -> Comparison {
    if x < y {
        Comparison::Less
    } else if x == y {
        Comparison::Equal
    } else {
        Comparison::Greater
    }
}

/// Lexicographic order of character sequences (by code point).
pub open spec fn order_text(a: Seq<char>, b: Seq<char>) -> Comparison
    decreases a.len(),
{
    if a.len() == 0 {
        if b.len() == 0 {
            Comparison::Equal
        } else {
            Comparison::Less
        }
    } else if b.len() == 0 {
        Comparison::Greater
    } else if a[0] < b[0] {
        Comparison::Less
    } else if a[0] > b[0] {
        Comparison::Greater
    } else {
        order_text(a.skip(1), b.skip(1))
    }
}

pub open spec fn bool_int(b: bool) -> int {
    if b {
        1
    } else {
        0
    }
}

/// How two values compare: `None` when either is `NULL` or their types cannot
/// be compared (a boolean compares with an integer as 0 or 1).
pub open spec fn compare(a: SValue, b: SValue) -> Option<Comparison> {
    match (a, b) {
        (SValue::Null, _) => None,
        (_, SValue::Null) => None,
        (SValue::Integer(x), SValue::Integer(y)) => Some(order_int(x as int, y as int)),
        (SValue::Text(x), SValue::Text(y)) => Some(order_text(x, y)),
        (SValue::Boolean(x), SValue::Boolean(y)) => Some(order_int(bool_int(x), bool_int(y))),
        (SValue::Boolean(x), SValue::Integer(y)) => Some(order_int(bool_int(x), y as int)),
        (SValue::Integer(x), SValue::Boolean(y)) => Some(order_int(x as int, bool_int(y))),
        _ => None,
    }
}

/// The value `TRUE`.
pub open spec fn truthy(v: SValue) -> bool {
    v == SValue::Boolean(true)
}

/// Whether a comparison outcome satisfies a comparison operator.
pub open spec fn satisfies(op: BinOp, c: Comparison) -> bool {
    match op {
        BinOp::Eq => c == Comparison::Equal,
        BinOp::NotEq => c != Comparison::Equal,
        BinOp::Lt => c == Comparison::Less,
        BinOp::LtEq => c != Comparison::Greater,
        BinOp::Gt => c == Comparison::Greater,
        BinOp::GtEq => c != Comparison::Less,
        _ => false,
    }
}

/// A binary operator applied to two values: `AND`/`OR` on truth, comparisons
/// yielding a boolean, or `NULL` when the values do not compare.
pub open spec fn apply_op(op: BinOp, l: SValue, r: SValue) -> SValue {
    match op {
        BinOp::And => SValue::Boolean(truthy(l) && truthy(r)),
        BinOp::Or => SValue::Boolean(truthy(l) || truthy(r)),
        _ => match compare(l, r) {
            None => SValue::Null,
            Some(c) => SValue::Boolean(satisfies(op, c)),
        },
    }
}

/// The value of an expression on a row of a table with columns `cols`. Both
/// sides of a binary operator are always evaluated, left first.
pub open spec fn eval(e: SExpr, row: Seq<SValue>, cols: Seq<SColumn>) -> core::result::Result<
    SValue,
    ErrorKind,
>
    decreases e,
{
    match e {
        SExpr::Literal(v) => Ok(v),
        SExpr::Param => Err(ErrorKind::Parameter),
        SExpr::Column(name) => match column_position(cols, name) {
            Some(i) => Ok(cell_at(row, i)),
            None => Err(ErrorKind::Catalog),
        },
        SExpr::Binary { left, op, right } => match eval(*left, row, cols) {
            Ok(l) => match eval(*right, row, cols) {
                Ok(r) => Ok(apply_op(op, l, r)),
                Err(k) => Err(k),
            },
            Err(k) => Err(k),
        },
    }
}

/// The error evaluating `e` meets, if any; it does not depend on the row.
pub open spec fn expr_error(e: SExpr, cols: Seq<SColumn>) -> Option<ErrorKind>
    decreases e,
{
    match e {
        SExpr::Literal(_) => None,
        SExpr::Param => Some(ErrorKind::Parameter),
        SExpr::Column(name) => if column_position(cols, name) is Some {
            None
        } else {
            Some(ErrorKind::Catalog)
        },
        SExpr::Binary { left, op, right } => match expr_error(*left, cols) {
            Some(k) => Some(k),
            None => expr_error(*right, cols),
        },
    }
}

pub proof fn lemma_eval_error(e: SExpr, row: Seq<SValue>, cols: Seq<SColumn>)
    ensures
        eval(e, row, cols) is Err <==> expr_error(e, cols) is Some,
        eval(e, row, cols) matches Err(k) ==> expr_error(e, cols) == Some(k),
    decreases e,
{
    match e {
        SExpr::Binary { left, op, right } => {
            lemma_eval_error(*left, row, cols);
            lemma_eval_error(*right, row, cols);
        },
        _ => {},
    }
}

/// Whether a row passes a `WHERE` clause (no clause passes every row).
pub open spec fn passes(filter: Option<SExpr>, row: Seq<SValue>, cols: Seq<SColumn>) -> core::result::Result<
    bool,
    ErrorKind,
> {
    match filter {
        None => Ok(true),
        Some(e) => match eval(e, row, cols) {
            Ok(v) => Ok(truthy(v)),
            Err(k) => Err(k),
        },
    }
}

pub open spec fn filter_error(filter: Option<SExpr>, cols: Seq<SColumn>) -> Option<ErrorKind> {
    match filter {
        None => None,
        Some(e) => expr_error(e, cols),
    }
}

pub proof fn lemma_passes_error(filter: Option<SExpr>, row: Seq<SValue>, cols: Seq<SColumn>)
    ensures
        passes(filter, row, cols) is Err <==> filter_error(filter, cols) is Some,
        passes(filter, row, cols) matches Err(k) ==> filter_error(filter, cols) == Some(k),
{
    match filter {
        Some(e) => lemma_eval_error(e, row, cols),
        None => {},
    }
}

/// The value of an expression that may not read a column (an `INSERT` value
/// or the right-hand side of an assignment).
pub open spec fn const_value(e: SExpr) -> core::result::Result<SValue, ErrorKind> {
    match e {
        SExpr::Literal(v) => Ok(v),
        SExpr::Param => Err(ErrorKind::Parameter),
        _ => Err(ErrorKind::Type),
    }
}

// --- Parameter binding ---------------------------------------------------------------

/// `e` with its `?` placeholders replaced, left to right, by the parameters
/// from position `i` on, and the position after the last one used; `None`
/// when the parameters run out.
pub open spec fn bound_expr(e: SExpr, ps: Seq<SValue>, i: int) -> Option<(SExpr, int)>
    decreases e,
{
    match e {
        SExpr::Param => if 0 <= i < ps.len() {
            Some((SExpr::Literal(ps[i]), i + 1))
        } else {
            None
        },
        SExpr::Binary { left, op, right } => match bound_expr(*left, ps, i) {
            Some((l, i1)) => match bound_expr(*right, ps, i1) {
                Some((r, i2)) => Some((binary(l, op, r), i2)),
                None => None,
            },
            None => None,
        },
        _ => Some((e, i)),
    }
}

/// A list of expressions bound in order.
pub open spec fn bound_exprs(es: Seq<SExpr>, ps: Seq<SValue>, i: int) -> Option<(Seq<SExpr>, int)>
    decreases es.len(),
{
    if es.len() == 0 {
        Some((Seq::<SExpr>::empty(), i))
    } else {
        match bound_exprs(es.drop_last(), ps, i) {
            Some((bs, j)) => match bound_expr(es.last(), ps, j) {
                Some((b, k)) => Some((bs.push(b), k)),
                None => None,
            },
            None => None,
        }
    }
}

/// Rows of expressions bound in order.
pub open spec fn bound_rows(rs: Seq<Seq<SExpr>>, ps: Seq<SValue>, i: int) -> Option<(Seq<Seq<SExpr>>, int)>
    decreases rs.len(),
{
    if rs.len() == 0 {
        Some((Seq::<Seq<SExpr>>::empty(), i))
    } else {
        match bound_rows(rs.drop_last(), ps, i) {
            Some((bs, j)) => match bound_exprs(rs.last(), ps, j) {
                Some((b, k)) => Some((bs.push(b), k)),
                None => None,
            },
            None => None,
        }
    }
}

/// The right-hand sides of assignments bound in order.
pub open spec fn bound_assignments(a: Seq<(Seq<char>, SExpr)>, ps: Seq<SValue>, i: int) -> Option<
    (Seq<(Seq<char>, SExpr)>, int),
>
    decreases a.len(),
{
    if a.len() == 0 {
        Some((Seq::<(Seq<char>, SExpr)>::empty(), i))
    } else {
        match bound_assignments(a.drop_last(), ps, i) {
            Some((bs, j)) => match bound_expr(a.last().1, ps, j) {
                Some((b, k)) => Some((bs.push((a.last().0, b)), k)),
                None => None,
            },
            None => None,
        }
    }
}

pub open spec fn bound_filter(f: Option<SExpr>, ps: Seq<SValue>, i: int) -> Option<(Option<SExpr>, int)> {
    match f {
        None => Some((None, i)),
        Some(e) => match bound_expr(e, ps, i) {
            Some((b, j)) => Some((Some(b), j)),
            None => None,
        },
    }
}

/// A statement with its placeholders bound in textual order, and how many
/// parameters that used; `None` when the parameters run out.
pub open spec fn bound_statement(st: SStatement, ps: Seq<SValue>) -> Option<(SStatement, int)> {
    match st {
        SStatement::CreateTable(c) => Some((st, 0)),
        SStatement::Insert(ins) => match bound_rows(ins.rows, ps, 0) {
            Some((rows, n)) => Some((SStatement::Insert(SInsert { rows, ..ins }), n)),
            None => None,
        },
        SStatement::Select(sel) => match bound_filter(sel.filter, ps, 0) {
            Some((filter, n)) => Some((SStatement::Select(SSelect { filter, ..sel }), n)),
            None => None,
        },
        SStatement::Update(upd) => match bound_assignments(upd.assignments, ps, 0) {
            Some((assignments, n)) => match bound_filter(upd.filter, ps, n) {
                Some((filter, m)) => Some(
                    (SStatement::Update(SUpdate { assignments, filter, ..upd }), m),
                ),
                None => None,
            },
            None => None,
        },
        SStatement::Delete(del) => match bound_filter(del.filter, ps, 0) {
            Some((filter, n)) => Some((SStatement::Delete(SDelete { filter, ..del }), n)),
            None => None,
        },
    }
}

/// The statement that runs once the parameters are bound: `None` when there
/// are fewer or more parameters than placeholders.
pub open spec fn bind_all(st: SStatement, ps: Seq<SValue>) -> Option<SStatement> {
    match bound_statement(st, ps) {
        Some((b, n)) => if n == ps.len() {
            Some(b)
        } else {
            None
        },
        None => None,
    }
}

proof fn lemma_bound_exprs_fail(es: Seq<SExpr>, ps: Seq<SValue>, i: int, k: int)
    requires
        0 <= k <= es.len(),
        bound_exprs(es.take(k), ps, i) is None,
    ensures
        bound_exprs(es, ps, i) is None,
    decreases es.len() - k,
{
    if k < es.len() {
        assert(es.take(k + 1).drop_last() =~= es.take(k));
        lemma_bound_exprs_fail(es, ps, i, k + 1);
    } else {
        assert(es.take(k) =~= es);
    }
}

proof fn lemma_bound_rows_fail(rs: Seq<Seq<SExpr>>, ps: Seq<SValue>, i: int, k: int)
    requires
        0 <= k <= rs.len(),
        bound_rows(rs.take(k), ps, i) is None,
    ensures
        bound_rows(rs, ps, i) is None,
    decreases rs.len() - k,
{
    if k < rs.len() {
        assert(rs.take(k + 1).drop_last() =~= rs.take(k));
        lemma_bound_rows_fail(rs, ps, i, k + 1);
    } else {
        assert(rs.take(k) =~= rs);
    }
}

proof fn lemma_bound_assignments_fail(a: Seq<(Seq<char>, SExpr)>, ps: Seq<SValue>, i: int, k: int)
    requires
        0 <= k <= a.len(),
        bound_assignments(a.take(k), ps, i) is None,
    ensures
        bound_assignments(a, ps, i) is None,
    decreases a.len() - k,
{
    if k < a.len() {
        assert(a.take(k + 1).drop_last() =~= a.take(k));
        lemma_bound_assignments_fail(a, ps, i, k + 1);
    } else {
        assert(a.take(k) =~= a);
    }
}

// --- Binding ---------------------------------------------------------------------------

fn bind_expr(expr: &Expr, params: &[Value], idx: usize) -> (r: Result<(Expr, usize)>)
    requires
        idx <= params@.len(),
    ensures
        match bound_expr(expr@, values_view(params@), idx as int) {
            Some((e, j)) => r matches Ok((x, j2)) && x@ == e && j2 == j,
            None => r matches Err(err) && err is Parameter,
        },
        r matches Ok((_, j)) ==> idx <= j <= params@.len(),
    decreases expr,
{
    match expr {
        Expr::Param => {
            if idx < params.len() {
                Ok((Expr::Literal(params[idx].duplicate()), idx + 1))
            } else {
                let number = match (idx as u64).checked_add(1) {
                    Some(k) => decimal_string(k),
                    None => text("past the last"),
                };
                Err(Error::Parameter(quoted("missing value for parameter #", number.as_str(), "")))
            }
        },
        Expr::Binary { left, op, right } => {
            let (l, i1) = bind_expr(left, params, idx)?;
            let (r, i2) = bind_expr(right, params, i1)?;
            Ok((Expr::Binary { left: Box::new(l), op: *op, right: Box::new(r) }, i2))
        },
        Expr::Literal(v) => Ok((Expr::Literal(v.duplicate()), idx)),
        Expr::Column(c) => Ok((Expr::Column(c.clone()), idx)),
    }
}

fn bind_exprs(es: &Vec<Expr>, params: &[Value], idx: usize) -> (r: Result<(Vec<Expr>, usize)>)
    requires
        idx <= params@.len(),
    ensures
        match bound_exprs(exprs_view(es@), values_view(params@), idx as int) {
            Some((bs, j)) => r matches Ok((v, j2)) && exprs_view(v@) == bs && j2 == j,
            None => r matches Err(err) && err is Parameter,
        },
        r matches Ok((_, j)) ==> idx <= j <= params@.len(),
{
    let ghost ev = exprs_view(es@);
    let ghost ps = values_view(params@);
    let mut out: Vec<Expr> = Vec::new();
    let mut j = idx;
    let mut k: usize = 0;
    while k < es.len()
        invariant
            ev == exprs_view(es@),
            ps == values_view(params@),
            k <= es@.len(),
            idx <= j <= params@.len(),
            bound_exprs(ev.take(k as int), ps, idx as int) == Some((exprs_view(out@), j as int)),
        decreases es@.len() - k,
    {
        proof {
            assert(ev.take(k + 1).drop_last() =~= ev.take(k as int));
            assert(ev.take(k + 1).last() == es@[k as int]@);
        }
        let (b, j2) = match bind_expr(&es[k], params, j) {
            Ok(x) => x,
            Err(e) => {
                proof {
                    lemma_bound_exprs_fail(ev, ps, idx as int, k + 1);
                }
                return Err(e);
            },
        };
        let ghost before = exprs_view(out@);
        out.push(b);
        proof {
            assert(exprs_view(out@) =~= before.push(b@));
        }
        j = j2;
        k = k + 1;
    }
    proof {
        assert(ev.take(es@.len() as int) =~= ev);
    }
    Ok((out, j))
}

fn bind_filter(f: &Option<Expr>, params: &[Value], idx: usize) -> (r: Result<(Option<Expr>, usize)>)
    requires
        idx <= params@.len(),
    ensures
        match bound_filter(filter_view(*f), values_view(params@), idx as int) {
            Some((b, j)) => r matches Ok((x, j2)) && filter_view(x) == b && j2 == j,
            None => r matches Err(err) && err is Parameter,
        },
        r matches Ok((_, j)) ==> idx <= j <= params@.len(),
{
    match f {
        None => Ok((None, idx)),
        Some(e) => {
            let (b, j) = bind_expr(e, params, idx)?;
            Ok((Some(b), j))
        },
    }
}

/// Replaces `?` placeholders with concrete values in textual order.
fn bind_params(stmt: Statement, params: &[Value]) -> (r: Result<Statement>)
    ensures
        match bind_all(stmt@, values_view(params@)) {
            Some(b) => r matches Ok(s) && s@ == b,
            None => r matches Err(e) && e is Parameter,
        },
{
    let ghost ps = values_view(params@);
    let ghost st = stmt@;
    let (bound, used) = match stmt {
        Statement::CreateTable(c) => (Statement::CreateTable(c), 0),
        Statement::Insert(ins) => {
            let ghost rv = rows_view(ins.rows@);
            let mut rows: Vec<Vec<Expr>> = Vec::new();
            let mut j: usize = 0;
            let mut k: usize = 0;
            while k < ins.rows.len()
                invariant
                    st == SStatement::Insert(ins@),
                    st == stmt@,
                    rv == rows_view(ins.rows@),
                    ps == values_view(params@),
                    k <= ins.rows@.len(),
                    j <= params@.len(),
                    bound_rows(rv.take(k as int), ps, 0) == Some((rows_view(rows@), j as int)),
                decreases ins.rows@.len() - k,
            {
                proof {
                    assert(rv.take(k + 1).drop_last() =~= rv.take(k as int));
                    assert(rv.take(k + 1).last() == exprs_view(ins.rows@[k as int]@));
                }
                let (b, j2) = match bind_exprs(&ins.rows[k], params, j) {
                    Ok(x) => x,
                    Err(e) => {
                        proof {
                            assert(bound_rows(rv.take(k + 1), ps, 0) is None);
                            lemma_bound_rows_fail(rv, ps, 0, k + 1);

                        }
                        return Err(e);
                    },
                };
                let ghost before = rows_view(rows@);
                rows.push(b);
                proof {
                    assert(rows_view(rows@) =~= before.push(exprs_view(b@)));
                }
                j = j2;
                k = k + 1;
            }
            proof {
                assert(rv.take(ins.rows@.len() as int) =~= rv);
            }
            (Statement::Insert(Insert { table: ins.table, columns: ins.columns, rows }), j)
        },
        Statement::Select(sel) => {
            let (filter, j) = bind_filter(&sel.filter, params, 0)?;
            (Statement::Select(Select { projection: sel.projection, table: sel.table, filter }), j)
        },
        Statement::Update(upd) => {
            let ghost av = assignments_view(upd.assignments@);
            let mut assignments: Vec<(String, Expr)> = Vec::new();
            let mut j: usize = 0;
            let mut k: usize = 0;
            while k < upd.assignments.len()
                invariant
                    st == SStatement::Update(upd@),
                    st == stmt@,
                    av == assignments_view(upd.assignments@),
                    ps == values_view(params@),
                    k <= upd.assignments@.len(),
                    j <= params@.len(),
                    bound_assignments(av.take(k as int), ps, 0) == Some(
                        (assignments_view(assignments@), j as int),
                    ),
                decreases upd.assignments@.len() - k,
            {
                proof {
                    assert(av.take(k + 1).drop_last() =~= av.take(k as int));
                    assert(av.take(k + 1).last() == av[k as int]);
                    assert(av[k as int].1 == upd.assignments@[k as int].1@);
                }
                let (b, j2) = match bind_expr(&upd.assignments[k].1, params, j) {
                    Ok(x) => x,
                    Err(e) => {
                        proof {
                            assert(bound_assignments(av.take(k + 1), ps, 0) is None);
                            lemma_bound_assignments_fail(av, ps, 0, k + 1);
                        }
                        return Err(e);
                    },
                };
                let name = upd.assignments[k].0.clone();
                let ghost before = assignments_view(assignments@);
                assignments.push((name, b));
                proof {
                    assert(assignments_view(assignments@) =~= before.push((av[k as int].0, b@)));
                }
                j = j2;
                k = k + 1;
            }
            proof {
                assert(av.take(upd.assignments@.len() as int) =~= av);
            }
            let (filter, m) = bind_filter(&upd.filter, params, j)?;
            (Statement::Update(Update { table: upd.table, assignments, filter }), m)
        },
        Statement::Delete(del) => {
            let (filter, j) = bind_filter(&del.filter, params, 0)?;
            (Statement::Delete(Delete { table: del.table, filter }), j)
        },
    };
    if used != params.len() {
        let used_text = decimal_string(used as u64);
        let given = decimal_string(params.len() as u64);
        let msg = quoted("statement uses ", used_text.as_str(), " parameter(s) but ");
        return Err(Error::Parameter(quoted(msg.as_str(), given.as_str(), " were provided")));
    }
    Ok(bound)
}

// --- Evaluation -----------------------------------------------------------------------

fn order_i64(x: i64, y: i64) -> (c: Comparison)
    ensures
        c == order_int(x as int, y as int),
{
    if x < y {
        Comparison::Less
    } else if x == y {
        Comparison::Equal
    } else {
        Comparison::Greater
    }
}

fn bool_i64(b: bool) -> (v: i64)
    ensures
        v == bool_int(b),
{
    if b {
        1
    } else {
        0
    }
}

fn order_str(a: &str, b: &str) -> (c: Comparison)
    ensures
        c == order_text(a@, b@),
{
    let xs = chars_of(a);
    let ys = chars_of(b);
    let mut i: usize = 0;
    while i < xs.len() && i < ys.len()
        invariant
            xs@ == a@,
            ys@ == b@,
            i <= xs@.len(),
            i <= ys@.len(),
            order_text(a@, b@) == order_text(a@.skip(i as int), b@.skip(i as int)),
        decreases xs@.len() - i,
    {
        let x = xs[i];
        let y = ys[i];
        proof {
            assert(a@.skip(i as int)[0] == x);
            assert(b@.skip(i as int)[0] == y);
        }
        if x < y {
            return Comparison::Less;
        } else if x > y {
            return Comparison::Greater;
        }
        proof {
            assert(a@.skip(i as int).skip(1) =~= a@.skip(i + 1));
            assert(b@.skip(i as int).skip(1) =~= b@.skip(i + 1));
        }
        i = i + 1;
    }
    if i < xs.len() {
        Comparison::Greater
    } else if i < ys.len() {
        Comparison::Less
    } else {
        Comparison::Equal
    }
}

/// How two values compare (see `compare`).
fn compare_values(a: &Value, b: &Value) -> (r: Option<Comparison>)
    ensures
        r == compare(a@, b@),
{
    match (a, b) {
        (Value::Null, _) => None,
        (_, Value::Null) => None,
        (Value::Integer(x), Value::Integer(y)) => Some(order_i64(*x, *y)),
        (Value::Text(x), Value::Text(y)) => Some(order_str(x.as_str(), y.as_str())),
        (Value::Boolean(x), Value::Boolean(y)) => Some(order_i64(bool_i64(*x), bool_i64(*y))),
        (Value::Boolean(x), Value::Integer(y)) => Some(order_i64(bool_i64(*x), *y)),
        (Value::Integer(x), Value::Boolean(y)) => Some(order_i64(*x, bool_i64(*y))),
        _ => None,
    }
}

fn truthy_value(v: &Value) -> (b: bool)
    ensures
        b == truthy(v@),
{
    match v {
        Value::Boolean(b) => *b,
        _ => false,
    }
}

fn eval_binop(op: BinOp, l: Value, r: Value) -> (v: Value)
    ensures
        v@ == apply_op(op, l@, r@),
{
    match op {
        BinOp::And => Value::Boolean(truthy_value(&l) && truthy_value(&r)),
        BinOp::Or => Value::Boolean(truthy_value(&l) || truthy_value(&r)),
        _ => match compare_values(&l, &r) {
            None => Value::Null,
            Some(c) => Value::Boolean(
                match op {
                    BinOp::Eq => c == Comparison::Equal,
                    BinOp::NotEq => c != Comparison::Equal,
                    BinOp::Lt => c == Comparison::Less,
                    BinOp::LtEq => c != Comparison::Greater,
                    BinOp::Gt => c == Comparison::Greater,
                    BinOp::GtEq => c != Comparison::Less,
                    _ => false,
                },
            ),
        },
    }
}

/// The value in column `i` of a row, `NULL` where the row is too short.
fn cell(row: &[Value], i: usize) -> (v: Value)
    ensures
        v@ == cell_at(values_view(row@), i as int),
{
    if i < row.len() {
        row[i].duplicate()
    } else {
        Value::Null
    }
}

/// Evaluates an expression that must not reference any columns (INSERT values,
/// UPDATE right-hand sides).
fn eval_const(expr: &Expr) -> (r: Result<Value>)
    ensures
        match const_value(expr@) {
            Ok(v) => r matches Ok(x) && x@ == v,
            Err(k) => r matches Err(e) && kind(e) == k,
        },
{
    match expr {
        Expr::Literal(v) => Ok(v.duplicate()),
        Expr::Param => Err(Error::Parameter(text("unbound parameter"))),
        Expr::Column(name) => Err(
            Error::Type(quoted("column reference '", name.as_str(), "' is not allowed here")),
        ),
        Expr::Binary { .. } => Err(Error::Type(text("expressions are not supported in this position"))),
    }
}

fn eval_predicate(expr: &Expr, row: &[Value], schema: &TableSchema) -> (r: Result<Value>)
    ensures
        match eval(expr@, values_view(row@), schema@.columns) {
            Ok(v) => r matches Ok(x) && x@ == v,
            Err(k) => r matches Err(e) && kind(e) == k,
        },
    decreases expr,
{
    match expr {
        Expr::Literal(v) => Ok(v.duplicate()),
        Expr::Param => Err(Error::Parameter(text("unbound parameter"))),
        Expr::Column(name) => match schema.column_index(name.as_str()) {
            Some(i) => Ok(cell(row, i)),
            None => Err(Error::Catalog(quoted("no such column '", name.as_str(), "'"))),
        },
        Expr::Binary { left, op, right } => {
            let l = eval_predicate(left, row, schema)?;
            let r = eval_predicate(right, row, schema)?;
            Ok(eval_binop(*op, l, r))
        },
    }
}

fn filter_matches(filter: &Option<Expr>, row: &[Value], schema: &TableSchema) -> (r: Result<bool>)
    ensures
        match passes(filter_view(*filter), values_view(row@), schema@.columns) {
            Ok(b) => r == Ok::<bool, Error>(b),
            Err(k) => r matches Err(e) && kind(e) == k,
        },
{
    match filter {
        None => Ok(true),
        Some(e) => {
            let v = eval_predicate(e, row, schema)?;
            Ok(truthy_value(&v))
        },
    }
}

// --- The state a statement runs against -------------------------------------------------

/// The heaps of a database are sound: the image is well formed and holds at
/// least the catalog page, the heap of every table is sound, and no page
/// belongs to two tables.
pub open spec fn store_ok(ts: Seq<STable>, pages: Seq<Seq<u8>>) -> bool {
    &&& pages_wf(pages)
    &&& pages.len() > 0
    &&& forall|i: int| 0 <= i < ts.len() ==> #[trigger] heap_ok(pages, ts[i])
    &&& forall|i: int, j: int, x: u32|
        0 <= i < ts.len() && 0 <= j < ts.len() && i != j && #[trigger] heap_chain(
            pages,
            ts[i],
        ).contains(x) ==> !#[trigger] heap_chain(pages, ts[j]).contains(x)
}

/// A table's heap that keeps every one of its pages keeps its chain and rows.
proof fn lemma_heap_frame(pages: Seq<Seq<u8>>, pages2: Seq<Seq<u8>>, t: STable)
    requires
        heap_ok(pages, t),
        pages.len() <= pages2.len(),
        forall|k: int|
            0 <= k < heap_chain(pages, t).len() ==> pages2[#[trigger] heap_chain(pages, t)[k] as int]
                == pages[heap_chain(pages, t)[k] as int],
    ensures
        heap_ok(pages2, t),
        heap_chain(pages2, t) == heap_chain(pages, t),
        table_rows(pages2, t) == table_rows(pages, t),
{
    let h = heap_chain(pages, t);
    lemma_heap_chain(pages, t);
    lemma_chain_frame(pages, pages2, h);
    assert(chain_of(pages2, t, h));
    lemma_heap_chain(pages2, t);
}

/// Appending a row to the heap of table `i` keeps the store sound and the
/// other tables as they were.
proof fn lemma_insert_keeps_store(
    ts: Seq<STable>,
    pages: Seq<Seq<u8>>,
    pages2: Seq<Seq<u8>>,
    i: int,
    t2: STable,
)
    requires
        store_ok(ts, pages),
        0 <= i < ts.len(),
        pages_wf(pages2),
        heap_ok(pages2, t2),
        pages.len() <= pages2.len() <= pages.len() + 1,
        forall|id: int|
            0 <= id < pages.len() && id != ts[i].last_page ==> #[trigger] pages2[id] == pages[id],
        heap_chain(pages2, t2) == heap_chain(pages, ts[i]) || heap_chain(pages2, t2) == heap_chain(
            pages,
            ts[i],
        ).push(pages.len() as u32),
    ensures
        store_ok(ts.update(i, t2), pages2),
        forall|j: int|
            0 <= j < ts.len() && j != i ==> #[trigger] table_rows(pages2, ts[j]) == table_rows(
                pages,
                ts[j],
            ),
{
    let ts2 = ts.update(i, t2);
    let hi = heap_chain(pages, ts[i]);
    lemma_heap_chain(pages, ts[i]);
    assert forall|j: int| 0 <= j < ts.len() && j != i implies heap_ok(pages2, ts[j])
        && heap_chain(pages2, ts[j]) == heap_chain(pages, ts[j]) && table_rows(pages2, ts[j])
        == table_rows(pages, ts[j]) by {
        let hj = heap_chain(pages, ts[j]);
        lemma_heap_chain(pages, ts[j]);
        assert forall|k: int| 0 <= k < hj.len() implies pages2[#[trigger] hj[k] as int]
            == pages[hj[k] as int] by {
            let x = hj[k];
            assert(hj.contains(x));
            if ts[i].first_page != 0 {
                assert(hi.len() > 0);
                assert(hi.last() == ts[i].last_page);
                assert(hi.contains(ts[i].last_page));
                assert(heap_chain(pages, ts[i]).contains(ts[i].last_page));
                if x == ts[i].last_page {
                    assert(!heap_chain(pages, ts[j]).contains(x));
                }
            }
            assert(0 < x < pages.len());
        }
        lemma_heap_frame(pages, pages2, ts[j]);
    }
    assert forall|j: int| 0 <= j < ts2.len() implies #[trigger] heap_ok(pages2, ts2[j]) by {
        if j != i {
            assert(ts2[j] == ts[j]);
        }
    }
    assert forall|a: int, b: int, x: u32|
        0 <= a < ts2.len() && 0 <= b < ts2.len() && a != b && #[trigger] heap_chain(
            pages2,
            ts2[a],
        ).contains(x) implies !#[trigger] heap_chain(pages2, ts2[b]).contains(x) by {
        if a != i && b != i {
            assert(ts2[a] == ts[a] && ts2[b] == ts[b]);
            assert(heap_chain(pages, ts[a]).contains(x));
        } else {
            let j = if a == i {
                b
            } else {
                a
            };
            assert(ts2[j] == ts[j]);
            let hj = heap_chain(pages, ts[j]);
            lemma_heap_chain(pages, ts[j]);
            if heap_chain(pages2, t2).contains(x) && hj.contains(x) {
                let k = choose|k: int| 0 <= k < hj.len() && hj[k] == x;
                assert(0 < hj[k] < pages.len());
                if hi.contains(x) {
                    assert(heap_chain(pages, ts[i]).contains(x));
                    assert(heap_chain(pages, ts[j]).contains(x));
                } else {
                    let m = choose|m: int|
                        0 <= m < heap_chain(pages2, t2).len() && heap_chain(pages2, t2)[m] == x;
                    if m < hi.len() {
                        assert(hi[m] == x);
                    }
                }
            }
        }
    }
}

/// Replacing a page of the heap of table `i` by one that keeps its layout,
/// its link and readable rows keeps the store sound, every chain, and the
/// rows of the other tables.
proof fn lemma_replace_keeps_store(ts: Seq<STable>, pages: Seq<Seq<u8>>, i: int, id: u32, p2: Seq<u8>)
    requires
        store_ok(ts, pages),
        0 <= i < ts.len(),
        heap_chain(pages, ts[i]).contains(id),
        page_wf(p2),
        cells_disjoint(p2),
        page_next(p2) == page_next(pages[id as int]),
        page_rows(p2, id) is Some,
    ensures
        store_ok(ts, pages.update(id as int, p2)),
        forall|j: int|
            0 <= j < ts.len() ==> #[trigger] heap_chain(pages.update(id as int, p2), ts[j])
                == heap_chain(pages, ts[j]),
        forall|j: int|
            0 <= j < ts.len() && j != i ==> #[trigger] table_rows(pages.update(id as int, p2), ts[j])
                == table_rows(pages, ts[j]),
        table_rows(pages.update(id as int, p2), ts[i]) == chain_rows(
            pages.update(id as int, p2),
            heap_chain(pages, ts[i]),
        ),
        table_rows(pages.update(id as int, p2), ts[i]) is Some,
{
    let pages2 = pages.update(id as int, p2);
    let hi = heap_chain(pages, ts[i]);
    lemma_heap_chain(pages, ts[i]);
    let k0 = choose|k: int| 0 <= k < hi.len() && hi[k] == id;
    assert(0 < hi[k0] < pages.len());
    assert(pages_wf(pages2)) by {
        assert forall|q: int| 0 <= q < pages2.len() implies (#[trigger] pages2[q]).len() == PAGE_SIZE by {
            if q != id {
                assert(pages2[q] == pages[q]);
            }
        }
    }
    assert forall|j: int| 0 <= j < ts.len() implies heap_ok(pages2, ts[j]) && #[trigger] heap_chain(
        pages2,
        ts[j],
    ) == heap_chain(pages, ts[j]) && (j != i ==> table_rows(pages2, ts[j]) == table_rows(
        pages,
        ts[j],
    )) by {
        let hj = heap_chain(pages, ts[j]);
        lemma_heap_chain(pages, ts[j]);
        lemma_chain_replace_page(pages, hj, id as int, p2);
        if j != i {
            assert(!hj.contains(id)) by {
                assert(heap_chain(pages, ts[i]).contains(id));
            }
        }
        assert(chain_of(pages2, ts[j], hj));
        lemma_heap_chain(pages2, ts[j]);
        lemma_table_rows(pages2, ts[j], hj);
        lemma_table_rows(pages, ts[j], hj);
    }
    assert forall|j: int| 0 <= j < ts.len() implies #[trigger] heap_ok(pages2, ts[j]) by {
        assert(heap_chain(pages2, ts[j]) == heap_chain(pages, ts[j]));
    }
    assert forall|j: int| 0 <= j < ts.len() && j != i implies #[trigger] table_rows(pages2, ts[j])
        == table_rows(pages, ts[j]) by {
        assert(heap_chain(pages2, ts[j]) == heap_chain(pages, ts[j]));
    }
    assert forall|a: int, b: int, x: u32|
        0 <= a < ts.len() && 0 <= b < ts.len() && a != b && #[trigger] heap_chain(
            pages2,
            ts[a],
        ).contains(x) implies !#[trigger] heap_chain(pages2, ts[b]).contains(x) by {
        assert(heap_chain(pages2, ts[a]) == heap_chain(pages, ts[a]));
        assert(heap_chain(pages2, ts[b]) == heap_chain(pages, ts[b]));
        assert(heap_chain(pages, ts[a]).contains(x));
    }
    assert(heap_chain(pages2, ts[i]) == hi);
    lemma_heap_chain(pages2, ts[i]);
}

// --- Checking a store ------------------------------------------------------------------------

/// Page `id` exists, has a sound layout, keeps its cells apart and holds rows
/// that decode.
pub open spec fn page_ok(pages: Seq<Seq<u8>>, id: u32) -> bool {
    &&& id < pages.len()
    &&& page_wf(pages[id as int])
    &&& cells_disjoint(pages[id as int])
    &&& page_rows(pages[id as int], id) is Some
}

/// The pages found from a table's first page make a sound heap for it.
proof fn lemma_walked_heap(pages: Seq<Seq<u8>>, t: STable, ids: Seq<u32>)
    requires
        walk(pages, t.first_page, pages.len()) == Some(ids),
        ids.len() == 0 ==> t.last_page == 0,
        ids.len() > 0 ==> ids.last() == t.last_page,
        ids.no_duplicates(),
        forall|k: int| 0 <= k < ids.len() ==> page_ok(pages, #[trigger] ids[k]),
    ensures
        heap_ok(pages, t),
        heap_chain(pages, t) == ids,
{
    lemma_walk_links(pages, t.first_page, pages.len());
    assert(chain_links(pages, ids));
    assert(chain_of(pages, t, ids));
    crate::heap::lemma_chain_rows_all(pages, ids);
    lemma_heap_chain(pages, t);
}

/// A sound heap is found by walking from its first page.
proof fn lemma_heap_walked(pages: Seq<Seq<u8>>, t: STable)
    requires
        heap_ok(pages, t),
    ensures
        ({
            let ids = heap_chain(pages, t);
            &&& walk(pages, t.first_page, pages.len()) == Some(ids)
            &&& ids.len() == 0 ==> t.last_page == 0
            &&& ids.len() > 0 ==> ids.last() == t.last_page
            &&& ids.no_duplicates()
            &&& forall|k: int| 0 <= k < ids.len() ==> page_ok(pages, #[trigger] ids[k])
        }),
{
    let ids = heap_chain(pages, t);
    lemma_heap_chain(pages, t);
    crate::heap::lemma_chain_len(pages, ids);
    lemma_walk_chain(pages, ids, pages.len());
    assert forall|k: int| 0 <= k < ids.len() implies page_ok(pages, #[trigger] ids[k]) by {
        crate::heap::lemma_chain_rows_some(pages, ids, k);
    }
}

/// A page belongs to the heap of one of the first `i` tables.
pub open spec fn used_before(ts: Seq<STable>, pages: Seq<Seq<u8>>, i: int, x: u32) -> bool {
    exists|j: int| 0 <= j < i && #[trigger] heap_chain(pages, ts[j]).contains(x)
}

/// Whether the heaps of all tables of the catalog are sound and share no
/// page, in a store that holds at least the catalog page.
#[verifier::spinoff_prover]
#[verifier::rlimit(50)]
pub fn heaps_sound<S: Storage + ?Sized>(catalog: &Catalog, storage: &S) -> (b: bool)
    requires
        pages_wf(storage.page_image()),
    ensures
        b == store_ok(catalog@, storage.page_image()),
{
    let ghost pages = storage.page_image();
    let ghost ts = catalog@;
    let count = storage.page_count();
    if count == 0 {
        return false;
    }
    let mut marks: Vec<bool> = Vec::new();
    let mut c: u32 = 0;
    while c < count
        invariant
            c <= count,
            marks@.len() == c,
            forall|x: int| 0 <= x < c ==> !(#[trigger] marks@[x]),
        decreases count - c,
    {
        marks.push(false);
        c = c + 1;
    }
    let tables = catalog.tables();
    let mut i: usize = 0;
    while i < tables.len()
        invariant
            pages == storage.page_image(),
            pages_wf(pages),
            count == pages.len(),
            count > 0,
            ts == catalog@,
            tables_view(tables@) == ts,
            i <= ts.len(),
            marks@.len() == count,
            forall|j: int| 0 <= j < i ==> #[trigger] heap_ok(pages, ts[j]),
            forall|x: u32| x < count ==> (#[trigger] marks@[x as int] <==> used_before(ts, pages, i as int, x)),
            forall|a: int, b: int, x: u32|
                0 <= a < i && 0 <= b < i && a != b && #[trigger] heap_chain(pages, ts[a]).contains(x)
                    ==> !#[trigger] heap_chain(pages, ts[b]).contains(x),
        decreases ts.len() - i,
    {
        let t = &tables[i];
        let ghost tv = ts[i as int];
        proof {
            assert(t@ == tv);
        }
        let ids = match heap::chain_walk(storage, t.first_page) {
            Some(v) => v,
            None => {
                proof {
                    if store_ok(ts, pages) {
                        lemma_heap_walked(pages, tv);
                    }
                }
                return false;
            },
        };
        let ghost iv = ids@;
        let last_ok = if ids.len() == 0 {
            t.last_page == 0
        } else {
            ids[ids.len() - 1] == t.last_page
        };
        if !last_ok {
            proof {
                if store_ok(ts, pages) {
                    lemma_heap_walked(pages, tv);
                }
            }
            return false;
        }
        proof {
            lemma_walk_links(pages, tv.first_page, pages.len());
        }
        let mut k: usize = 0;
        while k < ids.len()
            invariant
                pages == storage.page_image(),
                pages_wf(pages),
                count == pages.len(),
                ts == catalog@,
                i < ts.len(),
                tv == ts[i as int],
                iv == ids@,
                walk(pages, tv.first_page, pages.len()) == Some(iv),
                forall|q: int| 0 <= q < iv.len() ==> 0 < #[trigger] iv[q] < pages.len(),
                k <= iv.len(),
                marks@.len() == count,
                iv.take(k as int).no_duplicates(),
                forall|q: int| 0 <= q < k ==> page_ok(pages, #[trigger] iv[q]),
                forall|x: u32|
                    x < count ==> (#[trigger] marks@[x as int] <==> used_before(ts, pages, i as int, x)
                        || iv.take(k as int).contains(x)),
                forall|x: u32| #[trigger] iv.take(k as int).contains(x) ==> !used_before(ts, pages, i as int, x),
            decreases iv.len() - k,
        {
            let id = ids[k];
            proof {
                assert(iv.take(k + 1) =~= iv.take(k as int).push(id));
            }
            if marks[id as usize] {
                proof {
                    if store_ok(ts, pages) {
                        lemma_heap_walked(pages, tv);
                        if used_before(ts, pages, i as int, id) {
                            let j = choose|j: int| 0 <= j < i && #[trigger] heap_chain(pages, ts[j]).contains(id);
                            assert(heap_chain(pages, ts[i as int]).contains(id)) by {
                                assert(iv[k as int] == id);
                            }
                        } else {
                            let q = choose|q: int| 0 <= q < iv.take(k as int).len() && iv.take(k as int)[q] == id;
                            assert(iv[q] == iv[k as int]);
                        }
                    }
                }
                return false;
            }
            marks.set(id as usize, true);
            if !heap::page_sound(storage, id) {
                proof {
                    if store_ok(ts, pages) {
                        lemma_heap_walked(pages, tv);
                        assert(page_ok(pages, iv[k as int]));
                    }
                }
                return false;
            }
            proof {
                let pre = iv.take(k as int);
                let pre1 = iv.take(k + 1);
                assert forall|a: int, b: int|
                    0 <= a < pre1.len() && 0 <= b < pre1.len() && a != b implies #[trigger] pre1[a]
                    != #[trigger] pre1[b] by {
                    if a < k && b < k {
                        assert(pre[a] != pre[b]);
                    } else if a == k {
                        assert(!pre.contains(id));
                        assert(pre[b] == pre1[b]);
                    } else {
                        assert(!pre.contains(id));
                        assert(pre[a] == pre1[a]);
                    }
                }
                assert(pre1.no_duplicates());
                assert forall|x: u32| #[trigger] pre1.contains(x) implies !used_before(
                    ts,
                    pages,
                    i as int,
                    x,
                ) by {
                    if x != id {
                        let q = choose|q: int| 0 <= q < pre1.len() && pre1[q] == x;
                        assert(pre[q] == x);
                    }
                }
                assert forall|x: u32| x < count implies (#[trigger] marks@[x as int] <==> used_before(
                    ts,
                    pages,
                    i as int,
                    x,
                ) || pre1.contains(x)) by {
                    if x != id && pre1.contains(x) {
                        let q = choose|q: int| 0 <= q < pre1.len() && pre1[q] == x;
                        assert(pre[q] == x);
                    }
                    if pre.contains(x) {
                        let q = choose|q: int| 0 <= q < pre.len() && pre[q] == x;
                        assert(pre1[q] == x);
                    }
                    if x == id {
                        assert(pre1[k as int] == x);
                    }
                }
            }
            k = k + 1;
        }
        proof {
            assert(iv.take(iv.len() as int) =~= iv);
            lemma_walked_heap(pages, tv, iv);
            assert forall|x: u32| x < count implies (#[trigger] marks@[x as int] <==> used_before(
                ts,
                pages,
                i + 1,
                x,
            )) by {
                if used_before(ts, pages, i + 1, x) && !used_before(ts, pages, i as int, x) {
                    let j = choose|j: int| 0 <= j < i + 1 && #[trigger] heap_chain(pages, ts[j]).contains(x);
                    assert(j == i);
                }
                if iv.contains(x) {
                    assert(heap_chain(pages, ts[i as int]).contains(x));
                }
                if used_before(ts, pages, i as int, x) {
                    let j = choose|j: int| 0 <= j < i && #[trigger] heap_chain(pages, ts[j]).contains(x);
                    assert(0 <= j < i + 1);
                }
            }
            assert forall|a: int, b: int, x: u32|
                0 <= a < i + 1 && 0 <= b < i + 1 && a != b && #[trigger] heap_chain(pages, ts[a]).contains(x)
                    implies !#[trigger] heap_chain(pages, ts[b]).contains(x) by {
                if a == i {
                    if heap_chain(pages, ts[b]).contains(x) {
                        assert(used_before(ts, pages, i as int, x));
                    }
                } else if b == i {
                    assert(used_before(ts, pages, i as int, x));
                }
            }
        }
        i = i + 1;
    }
    true
}

// --- SELECT ------------------------------------------------------------------------------

/// The positions of the named columns; `None` when one does not exist.
pub open spec fn column_indices(cols: Seq<SColumn>, names: Seq<Seq<char>>) -> Option<Seq<int>> {
    if forall|k: int| 0 <= k < names.len() ==> #[trigger] column_position(cols, names[k]) is Some {
        Some(Seq::new(names.len(), |k: int| column_position(cols, names[k]).unwrap()))
    } else {
        None
    }
}

/// The columns a projection reads, by position.
pub open spec fn projection_indices(cols: Seq<SColumn>, p: SProjection) -> Option<Seq<int>> {
    match p {
        SProjection::All => Some(Seq::new(cols.len(), |i: int| i)),
        SProjection::Columns(names) => column_indices(cols, names),
    }
}

/// The values of the columns `idx` of a row.
pub open spec fn project(row: Seq<SValue>, idx: Seq<int>) -> Seq<SValue> {
    Seq::new(idx.len(), |k: int| cell_at(row, idx[k]))
}

/// The projections of the rows that pass the filter, in scan order.
pub open spec fn selected(rows: Seq<SRow>, filter: Option<SExpr>, cols: Seq<SColumn>, idx: Seq<int>) -> core::result::Result<
    Seq<Seq<SValue>>,
    ErrorKind,
>
    decreases rows.len(),
{
    if rows.len() == 0 {
        Ok(Seq::<Seq<SValue>>::empty())
    } else {
        match selected(rows.drop_last(), filter, cols, idx) {
            Ok(out) => match passes(filter, rows.last().1, cols) {
                Ok(true) => Ok(out.push(project(rows.last().1, idx))),
                Ok(false) => Ok(out),
                Err(k) => Err(k),
            },
            Err(k) => Err(k),
        }
    }
}

/// What a `SELECT` returns.
pub open spec fn select_outcome(ts: Seq<STable>, pages: Seq<Seq<u8>>, s: SSelect) -> core::result::Result<
    SResult,
    ErrorKind,
> {
    match table_position(ts, s.table) {
        None => Err(ErrorKind::Catalog),
        Some(i) => match projection_indices(ts[i].columns, s.projection) {
            None => Err(ErrorKind::Catalog),
            Some(idx) => match table_rows(pages, ts[i]) {
                None => Err(ErrorKind::Storage),
                Some(rows) => match selected(rows, s.filter, ts[i].columns, idx) {
                    Ok(out) => Ok(
                        SResult::Rows(
                            Seq::new(idx.len(), |k: int| ts[i].columns[idx[k]].name),
                            out,
                        ),
                    ),
                    Err(k) => Err(k),
                },
            },
        },
    }
}

proof fn lemma_selected_err(
    rows: Seq<SRow>,
    filter: Option<SExpr>,
    cols: Seq<SColumn>,
    idx: Seq<int>,
    k: int,
    e: ErrorKind,
)
    requires
        0 <= k <= rows.len(),
        selected(rows.take(k), filter, cols, idx) == core::result::Result::<Seq<Seq<SValue>>, ErrorKind>::Err(e),
    ensures
        selected(rows, filter, cols, idx) == core::result::Result::<Seq<Seq<SValue>>, ErrorKind>::Err(e),
    decreases rows.len() - k,
{
    if k < rows.len() {
        assert(rows.take(k + 1).drop_last() =~= rows.take(k));
        lemma_selected_err(rows, filter, cols, idx, k + 1, e);
    } else {
        assert(rows.take(k) =~= rows);
    }
}

/// Resolves column names to positions.
fn resolve_columns(schema: &TableSchema, names: &Vec<String>) -> (r: Result<Vec<usize>>)
    ensures
        match column_indices(schema@.columns, names_view(names@)) {
            Some(idx) => r matches Ok(v) && v@.len() == idx.len() && forall|k: int|
                0 <= k < idx.len() ==> #[trigger] v@[k] as int == idx[k],
            None => r matches Err(e) && e is Catalog,
        },
{
    let ghost cols = schema@.columns;
    let ghost ns = names_view(names@);
    let mut out: Vec<usize> = Vec::new();
    let mut k: usize = 0;
    while k < names.len()
        invariant
            cols == schema@.columns,
            ns == names_view(names@),
            k <= names@.len(),
            out@.len() == k,
            forall|j: int| 0 <= j < k ==> column_position(cols, #[trigger] ns[j]) == Some(out@[j] as int),
        decreases names@.len() - k,
    {
        match schema.column_index(names[k].as_str()) {
            Some(i) => out.push(i),
            None => {
                proof {
                    assert(column_position(cols, ns[k as int]) is None);
                }
                return Err(Error::Catalog(quoted("no such column '", names[k].as_str(), "'")));
            },
        }
        k = k + 1;
    }
    proof {
        assert forall|j: int| 0 <= j < ns.len() implies #[trigger] column_position(cols, ns[j]) is Some by {
            assert(column_position(cols, ns[j]) == Some(out@[j] as int));
        }
    }
    Ok(out)
}

/// The positions a projection reads.
fn projection_columns(schema: &TableSchema, projection: &Projection) -> (r: Result<Vec<usize>>)
    ensures
        match projection_indices(schema@.columns, projection@) {
            Some(idx) => r matches Ok(v) && v@.len() == idx.len() && forall|k: int|
                0 <= k < idx.len() ==> #[trigger] v@[k] as int == idx[k],
            None => r matches Err(e) && e is Catalog,
        },
{
    match projection {
        Projection::All => {
            let mut out: Vec<usize> = Vec::new();
            let mut i: usize = 0;
            while i < schema.columns.len()
                invariant
                    i <= schema.columns@.len(),
                    out@.len() == i,
                    forall|k: int| 0 <= k < i ==> #[trigger] out@[k] as int == k,
                decreases schema.columns@.len() - i,
            {
                out.push(i);
                i = i + 1;
            }
            Ok(out)
        },
        Projection::Columns(names) => resolve_columns(schema, names),
    }
}

/// The values of the columns `idx` of a row.
fn project_row(row: &[Value], idx: &Vec<usize>) -> (out: Vec<Value>)
    ensures
        values_view(out@) == project(values_view(row@), idx@.map_values(|i: usize| i as int)),
{
    let ghost ii = idx@.map_values(|i: usize| i as int);
    let mut out: Vec<Value> = Vec::new();
    let mut k: usize = 0;
    while k < idx.len()
        invariant
            ii == idx@.map_values(|i: usize| i as int),
            k <= idx@.len(),
            values_view(out@) == project(values_view(row@), ii).take(k as int),
        decreases idx@.len() - k,
    {
        let v = cell(row, idx[k]);
        let ghost before = values_view(out@);
        out.push(v);
        proof {
            assert(ii[k as int] == idx@[k as int] as int);
            assert(values_view(out@) =~= before.push(v@));
            assert(project(values_view(row@), ii).take(k + 1) =~= project(
                values_view(row@),
                ii,
            ).take(k as int).push(cell_at(values_view(row@), ii[k as int])));
        }
        k = k + 1;
    }
    proof {
        assert(project(values_view(row@), ii).take(idx@.len() as int) =~= project(
            values_view(row@),
            ii,
        ));
    }
    out
}

fn exec_select<S: Storage + ?Sized>(catalog: &Catalog, storage: &S, sel: Select) -> (r: Result<ExecResult>)
    requires
        store_ok(catalog@, storage.page_image()),
    ensures
        match select_outcome(catalog@, storage.page_image(), sel@) {
            Ok(res) => r matches Ok(x) && x@ == res,
            Err(k) => r matches Err(e) && kind(e) == k,
        },
{
    let ghost pages = storage.page_image();
    let ghost ts = catalog@;
    let schema = match catalog.get(sel.table.as_str()) {
        Some(t) => t,
        None => {
            return Err(Error::Catalog(quoted("no such table '", sel.table.as_str(), "'")));
        },
    };
    let ghost pos = table_position(ts, sel.table@).unwrap();
    let ghost cols = schema@.columns;
    let out_indices = projection_columns(schema, &sel.projection)?;
    let ghost idx = out_indices@.map_values(|i: usize| i as int);
    proof {
        assert(idx =~= projection_indices(cols, sel.projection@).unwrap());
        assert forall|j: int| 0 <= j < idx.len() implies 0 <= #[trigger] idx[j] < cols.len() by {
            match sel@.projection {
                SProjection::All => {},
                SProjection::Columns(ns) => {
                    assert(column_position(cols, ns[j]) is Some);
                    let c = choose|c: int| is_first_column(cols, ns[j], c);
                    assert(is_first_column(cols, ns[j], c));
                },
            }
        }
    }
    let mut columns: Vec<String> = Vec::new();
    let mut k: usize = 0;
    while k < out_indices.len()
        invariant
            idx == out_indices@.map_values(|i: usize| i as int),
            cols == schema@.columns,
            forall|j: int| 0 <= j < idx.len() ==> 0 <= #[trigger] idx[j] < cols.len(),
            k <= out_indices@.len(),
            names_view(columns@) == Seq::new(idx.len(), |j: int| cols[idx[j]].name).take(k as int),
        decreases out_indices@.len() - k,
    {
        let i = out_indices[k];
        proof {
            assert(0 <= idx[k as int] < cols.len());
        }
        let name = schema.columns[i].name.clone();
        let ghost before = names_view(columns@);
        columns.push(name);
        proof {
            assert(idx[k as int] == i as int);
            assert(names_view(columns@) =~= before.push(cols[idx[k as int]].name));
            assert(names_view(columns@) =~= Seq::new(idx.len(), |j: int| cols[idx[j]].name).take(
                k + 1,
            ));
        }
        k = k + 1;
    }
    proof {
        assert(Seq::new(idx.len(), |j: int| cols[idx[j]].name).take(idx.len() as int) =~= Seq::new(
            idx.len(),
            |j: int| cols[idx[j]].name,
        ));
    }
    let located = heap::scan(storage, schema)?;
    let ghost rows = located_view(located@);
    let mut out: Vec<Vec<Value>> = Vec::new();
    let mut n: usize = 0;
    proof {
        assert(rows.take(0) =~= Seq::<SRow>::empty());
        assert(value_rows_view(out@) =~= Seq::<Seq<SValue>>::empty());
    }
    while n < located.len()
        invariant
            ts == catalog@,
            pages == storage.page_image(),
            table_position(ts, sel@.table) == Some(pos),
            ts[pos] == schema@,
            projection_indices(cols, sel@.projection) == Some(idx),
            table_rows(pages, schema@) == Some(rows),
            rows == located_view(located@),
            idx == out_indices@.map_values(|i: usize| i as int),
            cols == schema@.columns,
            n <= located@.len(),
            selected(rows.take(n as int), sel@.filter, cols, idx) == core::result::Result::<
                Seq<Seq<SValue>>,
                ErrorKind,
            >::Ok(value_rows_view(out@)),
        decreases located@.len() - n,
    {
        proof {
            assert(rows.take(n + 1).drop_last() =~= rows.take(n as int));
            assert(rows.take(n + 1).last() == rows[n as int]);
        }
        let values = &located[n].values;
        let keep = match filter_matches(&sel.filter, values.as_slice(), schema) {
            Ok(b) => b,
            Err(e) => {
                proof {
                    lemma_selected_err(rows, sel@.filter, cols, idx, n + 1, kind(e));
                }
                return Err(e);
            },
        };
        if keep {
            let projected = project_row(values.as_slice(), &out_indices);
            let ghost before = value_rows_view(out@);
            out.push(projected);
            proof {
                assert(value_rows_view(out@) =~= before.push(values_view(projected@)));
            }
        }
        n = n + 1;
    }
    proof {
        assert(rows.take(located@.len() as int) =~= rows);
    }
    Ok(ExecResult::Rows { columns, rows: out })
}

// --- CREATE TABLE --------------------------------------------------------------------

pub open spec fn column_of(d: SColumnDef) -> SColumn {
    SColumn { name: d.name, data_type: d.data_type, primary_key: d.primary_key }
}

/// The schema a `CREATE TABLE` adds: its columns, and no heap pages yet.
pub open spec fn new_table(c: SCreateTable) -> STable {
    STable {
        name: c.name,
        columns: c.columns.map_values(|d: SColumnDef| column_of(d)),
        first_page: 0,
        last_page: 0,
    }
}

/// Two columns share a name (ignoring ASCII case).
pub open spec fn duplicate_names(cs: Seq<SColumnDef>) -> bool {
    exists|i: int, j: int| 0 <= i < j < cs.len() && eq_ignore_case(cs[i].name, cs[j].name)
}

/// How many columns are declared `PRIMARY KEY`.
pub open spec fn key_count(cs: Seq<SColumnDef>) -> nat
    decreases cs.len(),
{
    if cs.len() == 0 {
        0
    } else {
        key_count(cs.drop_last()) + if cs.last().primary_key {
            1nat
        } else {
            0nat
        }
    }
}

/// What a `CREATE TABLE` does to the catalog, and returns.
pub open spec fn create_outcome(ts: Seq<STable>, c: SCreateTable) -> core::result::Result<
    (Seq<STable>, SResult),
    ErrorKind,
> {
    if table_position(ts, c.name) is Some {
        if c.if_not_exists {
            Ok((ts, SResult::Affected(0)))
        } else {
            Err(ErrorKind::Catalog)
        }
    } else if duplicate_names(c.columns) || key_count(c.columns) > 1 {
        Err(ErrorKind::Catalog)
    } else {
        Ok((ts.push(new_table(c)), SResult::Affected(0)))
    }
}

fn exec_create_table(catalog: &mut Catalog, c: CreateTable) -> (r: Result<ExecResult>)
    ensures
        match create_outcome(old(catalog)@, c@) {
            Ok((ts, res)) => r matches Ok(x) && x@ == res && final(catalog)@ == ts,
            Err(k) => r matches Err(e) && kind(e) == k && final(catalog)@ == old(catalog)@,
        },
{
    if catalog.contains(c.name.as_str()) {
        if c.if_not_exists {
            return Ok(ExecResult::Affected(0));
        }
        return Err(Error::Catalog(quoted("table '", c.name.as_str(), "' already exists")));
    }
    let ghost cs = c@.columns;
    let mut columns: Vec<Column> = Vec::new();
    let mut pk_count: usize = 0;
    let mut k: usize = 0;
    while k < c.columns.len()
        invariant
            catalog@ == old(catalog)@,
            table_position(catalog@, c@.name) is None,
            cs == c@.columns,
            cs == crate::sql::ast::column_defs_view(c.columns@),
            k <= c.columns@.len(),
            columns_view(columns@) == cs.take(k as int).map_values(|d: SColumnDef| column_of(d)),
            forall|i: int, j: int|
                0 <= i < j < k ==> !eq_ignore_case(#[trigger] cs[i].name, #[trigger] cs[j].name),
            pk_count == key_count(cs.take(k as int)),
            pk_count <= k,
        decreases c.columns@.len() - k,
    {
        let mut j: usize = 0;
        while j < k
            invariant
                catalog@ == old(catalog)@,
                table_position(catalog@, c@.name) is None,
                cs == c@.columns,
                cs == crate::sql::ast::column_defs_view(c.columns@),
                j <= k < c.columns@.len(),
                forall|i: int| 0 <= i < j ==> !eq_ignore_case(#[trigger] cs[i].name, cs[k as int].name),
            decreases k - j,
        {
            if str_eq_ignore_case(c.columns[j].name.as_str(), c.columns[k].name.as_str()) {
                proof {
                    assert(eq_ignore_case(cs[j as int].name, cs[k as int].name));
                    assert(duplicate_names(cs));
                }
                return Err(Error::Catalog(quoted("duplicate column name '", c.columns[k].name.as_str(), "'")));
            }
            j = j + 1;
        }
        let def = &c.columns[k];
        if def.primary_key {
            pk_count = pk_count + 1;
        }
        let ghost before = columns_view(columns@);
        columns.push(Column { name: def.name.clone(), data_type: def.data_type, primary_key: def.primary_key });
        proof {
            assert(cs.take(k + 1).drop_last() =~= cs.take(k as int));
            assert(columns_view(columns@) =~= before.push(column_of(cs[k as int])));
            assert(cs.take(k + 1).map_values(|d: SColumnDef| column_of(d)) =~= cs.take(
                k as int,
            ).map_values(|d: SColumnDef| column_of(d)).push(column_of(cs[k as int])));
        }
        k = k + 1;
    }
    proof {
        assert(cs.take(cs.len() as int) =~= cs);
        assert(!duplicate_names(cs));
    }
    if pk_count > 1 {
        return Err(Error::Catalog(text("only a single-column PRIMARY KEY is supported")));
    }
    let table = TableSchema { name: c.name, columns, first_page: 0, last_page: 0 };
    proof {
        assert(table@ == new_table(c@));
    }
    catalog.add_table(table)?;
    Ok(ExecResult::Affected(0))
}

// --- Primary keys ------------------------------------------------------------------------

/// A row other than the one at `skip` holds a value equal to `v` (by
/// `compare`) in column `k`.
pub open spec fn key_taken(rows: Seq<SRow>, k: int, v: SValue, skip: Option<RowLocation>) -> bool {
    exists|j: int|
        0 <= j < rows.len() && Some(rows[j].0) != skip && #[trigger] compare(cell_at(rows[j].1, k), v)
            == Some(Comparison::Equal)
}

/// The values of located rows.
pub open spec fn values_of(rows: Seq<SRow>) -> Seq<Seq<SValue>> {
    rows.map_values(|x: SRow| x.1)
}

/// Checks whether a primary-key value already exists, optionally ignoring the
/// row at `skip` (used by UPDATE so a row can keep its own key).
fn pk_exists<S: Storage + ?Sized>(
    storage: &S,
    schema: &TableSchema,
    pk: usize,
    value: &Value,
    skip: Option<RowLocation>,
) -> (r: Result<bool>)
    requires
        pages_wf(storage.page_image()),
    ensures
        match table_rows(storage.page_image(), schema@) {
            Some(rows) => r == Ok::<bool, Error>(key_taken(rows, pk as int, value@, skip)),
            None => r matches Err(e) && e is Storage,
        },
{
    let located = heap::scan(storage, schema)?;
    let ghost rows = located_view(located@);
    let mut i: usize = 0;
    while i < located.len()
        invariant
            rows == located_view(located@),
            table_rows(storage.page_image(), schema@) == Some(rows),
            i <= located@.len(),
            forall|j: int|
                0 <= j < i ==> !(Some(rows[j].0) != skip && #[trigger] compare(
                    cell_at(rows[j].1, pk as int),
                    value@,
                ) == Some(Comparison::Equal)),
        decreases located@.len() - i,
    {
        let row = &located[i];
        let same = match skip {
            Some(l) => l == row.location,
            None => false,
        };
        if !same {
            let v = cell(row.values.as_slice(), pk);
            if compare_values(&v, value) == Some(Comparison::Equal) {
                proof {
                    assert(rows[i as int].0 == row.location);
                    assert(Some(rows[i as int].0) != skip);
                    assert(compare(cell_at(rows[i as int].1, pk as int), value@) == Some(
                        Comparison::Equal,
                    ));
                }
                return Ok(true);
            }
        }
        i = i + 1;
    }
    Ok(false)
}

// --- INSERT --------------------------------------------------------------------------------

/// The positions an `INSERT` writes: the named columns, or all of them in order.
pub open spec fn insert_positions(cols: Seq<SColumn>, names: Option<Seq<Seq<char>>>) -> Option<Seq<int>> {
    match names {
        None => Some(Seq::new(cols.len(), |i: int| i)),
        Some(ns) => column_indices(cols, ns),
    }
}

/// The row built from the first `exprs.len()` values of an `INSERT` row:
/// `NULL` in every column, then each value, coerced to its column's type,
/// written in turn into its position.
pub open spec fn built_row(cols: Seq<SColumn>, positions: Seq<int>, exprs: Seq<SExpr>) -> core::result::Result<
    Seq<SValue>,
    ErrorKind,
>
    decreases exprs.len(),
{
    if exprs.len() == 0 {
        Ok(Seq::new(cols.len(), |i: int| SValue::Null))
    } else {
        match built_row(cols, positions, exprs.drop_last()) {
            Ok(vs) => {
                let p = positions[exprs.len() - 1];
                match const_value(exprs.last()) {
                    Ok(v) => match coerce(v, cols[p].data_type) {
                        Some(c) => Ok(vs.update(p, c)),
                        None => Err(ErrorKind::Type),
                    },
                    Err(k) => Err(k),
                }
            },
            Err(k) => Err(k),
        }
    }
}

/// The values hold `v` (by `compare`) in column `k`.
pub open spec fn value_taken(vals: Seq<Seq<SValue>>, k: int, v: SValue) -> bool {
    exists|j: int| 0 <= j < vals.len() && #[trigger] compare(cell_at(vals[j], k), v) == Some(Comparison::Equal)
}

/// A row encodes to a cell that fits a page.
pub open spec fn row_fits(vs: Seq<SValue>) -> bool {
    enc_row(vs).len() <= PAGE_SIZE - 12
}

/// The primary key of a new row is set and not held by an existing row.
pub open spec fn key_ok(cols: Seq<SColumn>, vs: Seq<SValue>, existing: Seq<Seq<SValue>>) -> bool {
    match key_position(cols) {
        Some(k) => !(vs[k] is Null) && !value_taken(existing, k, vs[k]),
        None => true,
    }
}

/// The row an `INSERT` appends for `exprs`, given the rows the table holds,
/// or the error that refuses it.
pub open spec fn checked_row(
    cols: Seq<SColumn>,
    positions: Seq<int>,
    exprs: Seq<SExpr>,
    existing: Seq<Seq<SValue>>,
) -> core::result::Result<Seq<SValue>, ErrorKind> {
    if exprs.len() != positions.len() {
        Err(ErrorKind::Type)
    } else {
        match built_row(cols, positions, exprs) {
            Err(k) => Err(k),
            Ok(vs) => if !key_ok(cols, vs, existing) {
                Err(ErrorKind::Constraint)
            } else if !row_fits(vs) {
                Err(ErrorKind::Storage)
            } else {
                Ok(vs)
            },
        }
    }
}

/// The rows an `INSERT` appends, in order, and the error that stops it, if
/// any: rows are appended one by one until one is refused.
pub open spec fn inserted(
    cols: Seq<SColumn>,
    positions: Seq<int>,
    rows: Seq<Seq<SExpr>>,
    existing: Seq<Seq<SValue>>,
) -> (Seq<Seq<SValue>>, Option<ErrorKind>)
    decreases rows.len(),
{
    if rows.len() == 0 {
        (Seq::<Seq<SValue>>::empty(), None)
    } else {
        match checked_row(cols, positions, rows[0], existing) {
            Err(k) => (Seq::<Seq<SValue>>::empty(), Some(k)),
            Ok(vs) => {
                let rest = inserted(cols, positions, rows.skip(1), existing.push(vs));
                (seq![vs] + rest.0, rest.1)
            },
        }
    }
}

/// The table an `INSERT` writes and the positions of its values.
pub open spec fn insert_target(ts: Seq<STable>, ins: SInsert) -> core::result::Result<
    (int, Seq<int>),
    ErrorKind,
> {
    match table_position(ts, ins.table) {
        None => Err(ErrorKind::Catalog),
        Some(i) => match insert_positions(ts[i].columns, ins.columns) {
            None => Err(ErrorKind::Catalog),
            Some(p) => Ok((i, p)),
        },
    }
}

proof fn lemma_built_row_err(
    cols: Seq<SColumn>,
    positions: Seq<int>,
    exprs: Seq<SExpr>,
    k: int,
    e: ErrorKind,
)
    requires
        0 <= k <= exprs.len(),
        built_row(cols, positions, exprs.take(k)) == core::result::Result::<Seq<SValue>, ErrorKind>::Err(e),
    ensures
        built_row(cols, positions, exprs) == core::result::Result::<Seq<SValue>, ErrorKind>::Err(e),
    decreases exprs.len() - k,
{
    if k < exprs.len() {
        assert(exprs.take(k + 1).drop_last() =~= exprs.take(k));
        lemma_built_row_err(cols, positions, exprs, k + 1, e);
    } else {
        assert(exprs.take(k) =~= exprs);
    }
}

proof fn lemma_key_taken_values(rows: Seq<SRow>, k: int, v: SValue)
    ensures
        key_taken(rows, k, v, None) == value_taken(values_of(rows), k, v),
{
    if key_taken(rows, k, v, None) {
        let j = choose|j: int|
            0 <= j < rows.len() && Some(rows[j].0) != None::<RowLocation> && #[trigger] compare(
                cell_at(rows[j].1, k),
                v,
            ) == Some(Comparison::Equal);
        assert(values_of(rows)[j] == rows[j].1);
    }
    if value_taken(values_of(rows), k, v) {
        let j = choose|j: int|
            0 <= j < values_of(rows).len() && #[trigger] compare(cell_at(values_of(rows)[j], k), v)
                == Some(Comparison::Equal);
        assert(values_of(rows)[j] == rows[j].1);
        assert(Some(rows[j].0) != None::<RowLocation>);
    }
}

/// Refuses a row whose primary key is `NULL` or already held by a row of the
/// table.
fn check_key<S: Storage + ?Sized>(storage: &S, table: &TableSchema, values: &Vec<Value>) -> (r: Result<()>)
    requires
        pages_wf(storage.page_image()),
        table_rows(storage.page_image(), table@) is Some,
        values@.len() == table@.columns.len(),
    ensures
        r is Ok <==> key_ok(
            table@.columns,
            values_view(values@),
            values_of(table_rows(storage.page_image(), table@).unwrap()),
        ),
        r matches Err(e) ==> e is Constraint,
{
    let ghost cols = table@.columns;
    let ghost vs = values_view(values@);
    match table.primary_key_index() {
        Some(k) => {
            proof {
                let c = choose|c: int| crate::catalog::is_first_key(cols, c);
                assert(crate::catalog::is_first_key(cols, c));
            }
            if values[k].is_null() {
                return Err(
                    Error::Constraint(
                        quoted("primary key '", table.columns[k].name.as_str(), "' cannot be NULL"),
                    ),
                );
            }
            let taken = match pk_exists(storage, table, k, &values[k], None) {
                Ok(b) => b,
                Err(_) => {
                    return Err(Error::Constraint(text("the table could not be read")));
                },
            };
            proof {
                lemma_key_taken_values(
                    table_rows(storage.page_image(), table@).unwrap(),
                    k as int,
                    vs[k as int],
                );
            }
            if taken {
                return Err(
                    Error::Constraint(
                        quoted(
                            "duplicate primary key value in column '",
                            table.columns[k].name.as_str(),
                            "'",
                        ),
                    ),
                );
            }
            Ok(())
        },
        None => Ok(()),
    }
}

/// Appends a row to the heap of the table at `pos` and records the table's
/// new pages in the catalog.
fn append_row<S: Storage + ?Sized>(
    catalog: &mut Catalog,
    storage: &mut S,
    pos: usize,
    table: &mut TableSchema,
    values: &Vec<Value>,
) -> (r: Result<RowLocation>)
    requires
        store_ok(old(catalog)@, old(storage).page_image()),
        pos < old(catalog)@.len(),
        old(table)@ == old(catalog)@[pos as int],
    ensures
        ({
            let ts = old(catalog)@;
            let pages = old(storage).page_image();
            let pages2 = final(storage).page_image();
            let vs = values_view(values@);
            &&& row_fits(vs) && pages.len() < u32::MAX ==> r is Ok
            &&& r matches Err(e) ==> e is Storage && final(catalog)@ == ts && pages2 == pages
                && final(table)@ == old(table)@ && (!row_fits(vs) || pages.len() == u32::MAX)
            &&& r matches Ok(loc) ==> {
                &&& row_fits(vs)
                &&& store_ok(final(catalog)@, pages2)
                &&& final(catalog)@ == ts.update(pos as int, final(table)@)
                &&& final(table)@.name == old(table)@.name
                &&& final(table)@.columns == old(table)@.columns
                &&& table_rows(pages2, final(table)@) == Some(
                    table_rows(pages, old(table)@).unwrap() + seq![(loc, vs)],
                )
                &&& forall|j: int|
                    0 <= j < ts.len() && j != pos ==> #[trigger] table_rows(pages2, ts[j])
                        == table_rows(pages, ts[j])
                &&& pages2.len() <= pages.len() + 1
            }
        }),
{
    let ghost ts = catalog@;
    let ghost pages = storage.page_image();
    let loc = heap::insert_row(storage, table, values.as_slice())?;
    let ghost pages2 = storage.page_image();
    catalog.set_pages(pos, table.first_page, table.last_page);
    proof {
        assert(catalog@ =~= ts.update(pos as int, table@));
        lemma_insert_keeps_store(ts, pages, pages2, pos as int, table@);
    }
    Ok(loc)
}

/// Builds the row of an `INSERT` from its value expressions.
fn build_row(table: &TableSchema, positions: &Vec<usize>, row_exprs: &Vec<Expr>) -> (r: Result<Vec<Value>>)
    requires
        row_exprs@.len() == positions@.len(),
        forall|q: int| 0 <= q < positions@.len() ==> #[trigger] positions@[q] < table@.columns.len(),
    ensures
        match built_row(
            table@.columns,
            positions@.map_values(|i: usize| i as int),
            crate::sql::ast::exprs_view(row_exprs@),
        ) {
            Ok(vs) => r matches Ok(v) && values_view(v@) == vs && v@.len() == table@.columns.len(),
            Err(k) => r matches Err(e) && kind(e) == k,
        },
{
    let ghost cols = table@.columns;
    let ghost ps = positions@.map_values(|i: usize| i as int);
    let ghost exprs = crate::sql::ast::exprs_view(row_exprs@);
    proof {
        assert forall|q: int| 0 <= q < ps.len() implies 0 <= #[trigger] ps[q] < cols.len() by {
            assert(positions@[q] < cols.len());
        }
    }
    let mut values: Vec<Value> = Vec::new();
    let mut c: usize = 0;
    while c < table.columns.len()
        invariant
            c <= table.columns@.len(),
            values@.len() == c,
            forall|k: int| 0 <= k < c ==> (#[trigger] values@[k])@ == SValue::Null,
        decreases table.columns@.len() - c,
    {
        values.push(Value::Null);
        c = c + 1;
    }
    proof {
        assert(values_view(values@) =~= Seq::new(cols.len(), |i: int| SValue::Null));
        assert(exprs.take(0) =~= Seq::<SExpr>::empty());
    }
    let mut j: usize = 0;
    while j < row_exprs.len()
        invariant
            exprs == crate::sql::ast::exprs_view(row_exprs@),
            row_exprs@.len() == positions@.len(),
            ps == positions@.map_values(|i: usize| i as int),
            forall|q: int| 0 <= q < ps.len() ==> 0 <= #[trigger] ps[q] < cols.len(),
            cols == table@.columns,
            j <= row_exprs@.len(),
            values@.len() == cols.len(),
            built_row(cols, ps, exprs.take(j as int)) == core::result::Result::<
                Seq<SValue>,
                ErrorKind,
            >::Ok(values_view(values@)),
        decreases row_exprs@.len() - j,
    {
        let p = positions[j];
        proof {
            assert(exprs.take(j + 1).drop_last() =~= exprs.take(j as int));
            assert(exprs.take(j + 1).last() == exprs[j as int]);
            assert(ps[j as int] == p as int);
            assert(0 <= ps[j as int] < cols.len());
        }
        let v = match eval_const(&row_exprs[j]) {
            Ok(v) => v,
            Err(e) => {
                proof {
                    lemma_built_row_err(cols, ps, exprs, j + 1, kind(e));
                }
                return Err(e);
            },
        };
        let coerced = match v.coerce_to(table.columns[p].data_type) {
            Ok(x) => x,
            Err(e) => {
                proof {
                    lemma_built_row_err(cols, ps, exprs, j + 1, kind(e));
                }
                return Err(e);
            },
        };
        let ghost before = values_view(values@);
        values.set(p, coerced);
        proof {
            assert(values_view(values@) =~= before.update(p as int, coerced@));
        }
        j = j + 1;
    }
    proof {
        assert(exprs.take(row_exprs@.len() as int) =~= exprs);
    }
    Ok(values)
}

/// What an `INSERT` did: `ts`, `pages` before, `ts2`, `pages2` after, `r`
/// its result.
pub open spec fn insert_done(
    ts: Seq<STable>,
    pages: Seq<Seq<u8>>,
    ts2: Seq<STable>,
    pages2: Seq<Seq<u8>>,
    ins: SInsert,
    r: Result<ExecResult>,
) -> bool {
    match insert_target(ts, ins) {
        Err(k) => r matches Err(e) && kind(e) == k && ts2 == ts && pages2 == pages,
        Ok((i, positions)) => {
            let old_rows = table_rows(pages, ts[i]).unwrap();
            let new_rows = table_rows(pages2, ts2[i]).unwrap();
            let out = inserted(ts[i].columns, positions, ins.rows, values_of(old_rows));
            &&& ts2.len() == ts.len()
            &&& forall|j: int|
                0 <= j < ts.len() && j != i ==> ts2[j] == ts[j] && #[trigger] table_rows(
                    pages2,
                    ts2[j],
                ) == table_rows(pages, ts[j])
            &&& ts2[i].name == ts[i].name && ts2[i].columns == ts[i].columns
            &&& table_rows(pages2, ts2[i]) is Some
            &&& old_rows.len() <= new_rows.len()
            &&& new_rows.take(old_rows.len() as int) == old_rows
            &&& r matches Ok(x) ==> out.1 is None && x@ == SResult::Affected(out.0.len())
                && values_of(new_rows) == values_of(old_rows) + out.0
            &&& r matches Err(e) ==> (out.1 == Some(kind(e)) && values_of(new_rows)
                == values_of(old_rows) + out.0) || (e is Storage && pages2.len()
                == u32::MAX && new_rows.len() - old_rows.len() <= out.0.len() && values_of(new_rows)
                == values_of(old_rows) + out.0.take(new_rows.len() - old_rows.len()))
            &&& out.1 is None && pages.len() + ins.rows.len() < u32::MAX ==> r is Ok
        },
    }
}

#[verifier::spinoff_prover]
#[verifier::rlimit(40)]
fn exec_insert<S: Storage + ?Sized>(catalog: &mut Catalog, storage: &mut S, ins: Insert) -> (r: Result<ExecResult>)
    requires
        store_ok(old(catalog)@, old(storage).page_image()),
    ensures
        store_ok(final(catalog)@, final(storage).page_image()),
        insert_done(old(catalog)@, old(storage).page_image(), final(catalog)@, final(storage).page_image(), ins@, r),
{
    let ghost ts0 = catalog@;
    let ghost pages0 = storage.page_image();
    let pos = match catalog.position(ins.table.as_str()) {
        Some(p) => p,
        None => {
            return Err(Error::Catalog(quoted("no such table '", ins.table.as_str(), "'")));
        },
    };
    let mut table = catalog.tables()[pos].duplicate();
    let ghost cols = table@.columns;
    let positions: Vec<usize> = match &ins.columns {
        Some(names) => resolve_columns(&table, names)?,
        None => {
            let mut out: Vec<usize> = Vec::new();
            let mut i: usize = 0;
            while i < table.columns.len()
                invariant
                    i <= table.columns@.len(),
                    out@.len() == i,
                    forall|k: int| 0 <= k < i ==> #[trigger] out@[k] as int == k,
                decreases table.columns@.len() - i,
            {
                out.push(i);
                i = i + 1;
            }
            out
        },
    };
    let ghost ps = positions@.map_values(|i: usize| i as int);
    proof {
        assert(ps =~= insert_positions(cols, ins@.columns).unwrap());
        assert forall|j: int| 0 <= j < ps.len() implies 0 <= #[trigger] ps[j] < cols.len() by {
            match ins@.columns {
                None => {},
                Some(ns) => {
                    assert(column_position(cols, ns[j]) is Some);
                    let c = choose|c: int| is_first_column(cols, ns[j], c);
                    assert(is_first_column(cols, ns[j], c));
                },
            }
        }
        lemma_heap_chain(pages0, ts0[pos as int]);
    }
    let ghost old_rows = table_rows(pages0, ts0[pos as int]).unwrap();
    let ghost rv = ins@.rows;
    let ghost ex0 = values_of(old_rows);
    let ghost mut acc: Seq<Seq<SValue>> = Seq::empty();
    let ghost mut extra: Seq<SRow> = Seq::empty();
    let mut count: usize = 0;
    proof {
        assert(rv.skip(0) =~= rv);
        assert(ex0 + acc =~= ex0);
        assert(old_rows + extra =~= old_rows);
        assert(acc + inserted(cols, ps, rv, ex0).0 =~= inserted(cols, ps, rv, ex0).0);
    }
    while count < ins.rows.len()
        invariant
            ts0 == old(catalog)@,
            pages0 == old(storage).page_image(),
            store_ok(ts0, pages0),
            table_position(ts0, ins@.table) == Some(pos as int),
            insert_positions(cols, ins@.columns) == Some(ps),
            ps == positions@.map_values(|i: usize| i as int),
            forall|j: int| 0 <= j < ps.len() ==> 0 <= #[trigger] ps[j] < cols.len(),
            rv == ins@.rows,
            rv == rows_view(ins.rows@),
            cols == ts0[pos as int].columns,
            old_rows == table_rows(pages0, ts0[pos as int]).unwrap(),
            ex0 == values_of(old_rows),
            count <= rv.len(),
            acc.len() == count,
            store_ok(catalog@, storage.page_image()),
            catalog@.len() == ts0.len(),
            table@ == catalog@[pos as int],
            table@.name == ts0[pos as int].name,
            table@.columns == cols,
            forall|j: int| 0 <= j < ts0.len() && j != pos ==> catalog@[j] == ts0[j],
            forall|j: int|
                0 <= j < ts0.len() && j != pos ==> #[trigger] table_rows(storage.page_image(), ts0[j])
                    == table_rows(pages0, ts0[j]),
            table_rows(storage.page_image(), table@) == Some(old_rows + extra),
            values_of(extra) == acc,
            storage.page_image().len() <= pages0.len() + count,
            inserted(cols, ps, rv, ex0) == ({
                let rest = inserted(cols, ps, rv.skip(count as int), ex0 + acc);
                (acc + rest.0, rest.1)
            }),
        decreases rv.len() - count,
    {
        let ghost pages_now = storage.page_image();
        let ghost ts_now = catalog@;
        let ghost existing = ex0 + acc;
        let ghost exprs = rv[count as int];
        proof {
            assert(rv.skip(count as int)[0] == exprs);
            assert(rv.skip(count as int).skip(1) =~= rv.skip(count + 1));
            assert(exprs == crate::sql::ast::exprs_view(ins.rows@[count as int]@));
            assert(values_of(old_rows + extra) =~= existing);
        }
        let row_exprs = &ins.rows[count];
        if row_exprs.len() != positions.len() {
            let have = decimal_string(row_exprs.len() as u64);
            let want = decimal_string(positions.len() as u64);
            let msg = quoted("row has ", have.as_str(), " value(s) but ");
            return Err(Error::Type(quoted(msg.as_str(), want.as_str(), " column(s) were targeted")));
        }
        proof {
            assert forall|q: int| 0 <= q < positions@.len() implies #[trigger] positions@[q]
                < table@.columns.len() by {
                assert(ps[q] == positions@[q] as int);
            }
        }
        let values = build_row(&table, &positions, row_exprs)?;
        let ghost vs = values_view(values@);
        check_key(storage, &table, &values)?;
        let loc = match append_row(catalog, storage, pos, &mut table, &values) {
            Ok(l) => l,
            Err(e) => {
                proof {
                    let rest = inserted(cols, ps, rv.skip(count as int), ex0 + acc);
                    assert(inserted(cols, ps, rv, ex0).0 =~= acc + rest.0);
                    assert(inserted(cols, ps, rv, ex0).0.take(acc.len() as int) =~= acc);
                }
                return Err(e);
            },
        };
        proof {
            assert forall|q: int| 0 <= q < ts0.len() && q != pos implies #[trigger] table_rows(
                storage.page_image(),
                ts0[q],
            ) == table_rows(pages0, ts0[q]) by {
                assert(ts_now[q] == ts0[q]);
                assert(table_rows(storage.page_image(), ts_now[q]) == table_rows(pages_now, ts_now[q]));
            }
            let rest = inserted(cols, ps, rv.skip(count + 1), existing.push(vs));
            assert(inserted(cols, ps, rv.skip(count as int), existing) == (seq![vs] + rest.0, rest.1));
            assert(acc + (seq![vs] + rest.0) =~= acc.push(vs) + rest.0);
            assert(existing.push(vs) =~= ex0 + acc.push(vs));
            let new_extra = extra.push((loc, vs));
            assert(old_rows + extra + seq![(loc, vs)] =~= old_rows + new_extra);
            assert(values_of(new_extra) =~= acc.push(vs));
            acc = acc.push(vs);
            extra = new_extra;
        }
        count = count + 1;
    }
    proof {
        assert(rv.skip(rv.len() as int) =~= Seq::<Seq<SExpr>>::empty());
        assert(acc + Seq::<Seq<SValue>>::empty() =~= acc);
        assert((old_rows + extra).take(old_rows.len() as int) =~= old_rows);
        assert(values_of(old_rows + extra) =~= ex0 + acc);
    }
    Ok(ExecResult::Affected(count))
}

// --- DELETE --------------------------------------------------------------------------------

/// Whether a row passes a filter without error.
pub open spec fn chosen(filter: Option<SExpr>, row: Seq<SValue>, cols: Seq<SColumn>) -> bool {
    passes(filter, row, cols) == core::result::Result::<bool, ErrorKind>::Ok(true)
}

/// How many rows pass the filter.
pub open spec fn matched_count(rows: Seq<SRow>, filter: Option<SExpr>, cols: Seq<SColumn>) -> nat
    decreases rows.len(),
{
    if rows.len() == 0 {
        0
    } else {
        matched_count(rows.drop_last(), filter, cols) + if chosen(filter, rows.last().1, cols) {
            1nat
        } else {
            0nat
        }
    }
}

/// In the rows a heap holds, a location determines the row.
proof fn lemma_same_location(pages: Seq<Seq<u8>>, t: STable, x: SRow, y: SRow)
    requires
        heap_ok(pages, t),
        table_rows(pages, t).unwrap().contains(x),
        table_rows(pages, t).unwrap().contains(y),
        x.0 == y.0,
    ensures
        x == y,
{
    let h = heap_chain(pages, t);
    lemma_heap_chain(pages, t);
    crate::heap::lemma_chain_rows_member(pages, h, x);
    crate::heap::lemma_chain_rows_member(pages, h, y);
}

/// The rows of table `i` after the row at `loc` was deleted from page `id`.
proof fn lemma_delete_rows(
    ts: Seq<STable>,
    pages: Seq<Seq<u8>>,
    i: int,
    loc: RowLocation,
    p2: Seq<u8>,
)
    requires
        store_ok(ts, pages),
        0 <= i < ts.len(),
        heap_chain(pages, ts[i]).contains(loc.page_id),
        page_wf(p2),
        cells_disjoint(p2),
        page_next(p2) == page_next(pages[loc.page_id as int]),
        page_num_slots(p2) == page_num_slots(pages[loc.page_id as int]),
        page_cell(p2, loc.slot as int) is None,
        forall|k: int| k != loc.slot ==> #[trigger] page_cell(p2, k) == page_cell(
            pages[loc.page_id as int],
            k,
        ),
    ensures
        store_ok(ts, pages.update(loc.page_id as int, p2)),
        forall|j: int|
            0 <= j < ts.len() ==> #[trigger] heap_chain(pages.update(loc.page_id as int, p2), ts[j])
                == heap_chain(pages, ts[j]),
        forall|j: int|
            0 <= j < ts.len() && j != i ==> #[trigger] table_rows(
                pages.update(loc.page_id as int, p2),
                ts[j],
            ) == table_rows(pages, ts[j]),
        forall|x: SRow|
            #[trigger] table_rows(pages.update(loc.page_id as int, p2), ts[i]).unwrap().contains(x)
                <==> table_rows(pages, ts[i]).unwrap().contains(x) && x.0 != loc,
        table_rows(pages.update(loc.page_id as int, p2), ts[i]) == Some(
            sieve(table_rows(pages, ts[i]).unwrap(), not_at(loc)),
        ),
{
    let id = loc.page_id;
    let pages2 = pages.update(id as int, p2);
    let h = heap_chain(pages, ts[i]);
    lemma_heap_chain(pages, ts[i]);
    let k0 = choose|k: int| 0 <= k < h.len() && h[k] == id;
    crate::heap::lemma_chain_rows_some(pages, h, k0);
    crate::heap::lemma_page_rows_fewer(pages[id as int], p2, id);
    lemma_replace_keeps_store(ts, pages, i, id, p2);
    lemma_heap_chain(pages2, ts[i]);
    crate::heap::lemma_chain_rows_drop(pages, h, loc, p2);
    assert forall|x: SRow|
        #[trigger] table_rows(pages2, ts[i]).unwrap().contains(x) <==> table_rows(
            pages,
            ts[i],
        ).unwrap().contains(x) && x.0 != loc by {
        crate::heap::lemma_chain_rows_member(pages, h, x);
        crate::heap::lemma_chain_rows_member(pages2, h, x);
        if x.0.page_id != id && h.contains(x.0.page_id) {
            let q = choose|q: int| 0 <= q < h.len() && h[q] == x.0.page_id;
            assert(0 < h[q] < pages.len());
            assert(pages2[x.0.page_id as int] == pages[x.0.page_id as int]);
        }
    }
}

/// A row is gone once one of the first `k` rows of the scan shares its
/// location and passed the filter.
pub open spec fn deleted_by(rows: Seq<SRow>, k: int, filter: Option<SExpr>, cols: Seq<SColumn>, x: SRow) -> bool {
    exists|m: int| 0 <= m < k && rows[m].0 == x.0 && chosen(filter, rows[m].1, cols)
}

/// Holds of the rows that the first `k` rows of the scan have not deleted.
pub open spec fn kept_by(rows: Seq<SRow>, k: int, filter: Option<SExpr>, cols: Seq<SColumn>) -> spec_fn(SRow) -> bool {
    |x: SRow| !deleted_by(rows, k, filter, cols, x)
}

/// Holds of the rows that do not pass the filter.
pub open spec fn unchosen(filter: Option<SExpr>, cols: Seq<SColumn>) -> spec_fn(SRow) -> bool {
    |x: SRow| !chosen(filter, x.1, cols)
}

proof fn lemma_delete_step(
    cur: Seq<SRow>,
    cur2: Seq<SRow>,
    rows: Seq<SRow>,
    k: int,
    filter: Option<SExpr>,
    cols: Seq<SColumn>,
)
    requires
        0 <= k < rows.len(),
        forall|x: SRow| #[trigger] cur.contains(x) <==> rows.contains(x) && !deleted_by(rows, k, filter, cols, x),
        cur == sieve(rows, kept_by(rows, k, filter, cols)),
        chosen(filter, rows[k].1, cols) ==> cur2 == sieve(cur, not_at(rows[k].0)),
        chosen(filter, rows[k].1, cols) ==> forall|x: SRow|
            #[trigger] cur2.contains(x) <==> cur.contains(x) && x.0 != rows[k].0,
        !chosen(filter, rows[k].1, cols) ==> cur2 == cur,
    ensures
        forall|x: SRow|
            #[trigger] cur2.contains(x) <==> rows.contains(x) && !deleted_by(rows, k + 1, filter, cols, x),
        cur2 == sieve(rows, kept_by(rows, k + 1, filter, cols)),
{
    let k0 = kept_by(rows, k, filter, cols);
    let k1 = kept_by(rows, k + 1, filter, cols);
    assert forall|x: SRow| #[trigger] k1(x) == (k0(x) && (chosen(filter, rows[k].1, cols) ==> not_at(rows[k].0)(x))) by {
        if deleted_by(rows, k + 1, filter, cols, x) && !deleted_by(rows, k, filter, cols, x) {
            let m = choose|m: int| 0 <= m < k + 1 && rows[m].0 == x.0 && chosen(filter, rows[m].1, cols);
            assert(m == k);
        }
        if deleted_by(rows, k, filter, cols, x) {
            let m = choose|m: int| 0 <= m < k && rows[m].0 == x.0 && chosen(filter, rows[m].1, cols);
            assert(0 <= m < k + 1 && rows[m].0 == x.0 && chosen(filter, rows[m].1, cols));
        }
        if chosen(filter, rows[k].1, cols) && x.0 == rows[k].0 {
            assert(0 <= k < k + 1 && rows[k].0 == x.0 && chosen(filter, rows[k].1, cols));
        }
    }
    if chosen(filter, rows[k].1, cols) {
        crate::heap::lemma_sieve_twice(rows, k0, not_at(rows[k].0), k1);
    } else {
        crate::heap::lemma_sieve_same(rows, k0, k1);
    }
    assert forall|x: SRow| #[trigger] cur2.contains(x) <==> rows.contains(x) && !deleted_by(rows, k + 1, filter, cols, x) by {
        if deleted_by(rows, k + 1, filter, cols, x) && !deleted_by(rows, k, filter, cols, x) {
            let m = choose|m: int| 0 <= m < k + 1 && rows[m].0 == x.0 && chosen(filter, rows[m].1, cols);
            assert(m == k);
        }
        if deleted_by(rows, k, filter, cols, x) {
            let m = choose|m: int| 0 <= m < k && rows[m].0 == x.0 && chosen(filter, rows[m].1, cols);
            assert(0 <= m < k + 1 && rows[m].0 == x.0 && chosen(filter, rows[m].1, cols));
        }
        if chosen(filter, rows[k].1, cols) && x.0 == rows[k].0 {
            assert(0 <= k < k + 1 && rows[k].0 == x.0 && chosen(filter, rows[k].1, cols));
        }
    }
}

proof fn lemma_delete_done(pages: Seq<Seq<u8>>, t: STable, cur: Seq<SRow>, filter: Option<SExpr>, cols: Seq<SColumn>)
    requires
        heap_ok(pages, t),
        forall|x: SRow|
            #[trigger] cur.contains(x) <==> table_rows(pages, t).unwrap().contains(x) && !deleted_by(
                table_rows(pages, t).unwrap(),
                table_rows(pages, t).unwrap().len() as int,
                filter,
                cols,
                x,
            ),
    ensures
        forall|x: SRow|
            #[trigger] cur.contains(x) <==> table_rows(pages, t).unwrap().contains(x) && !chosen(filter, x.1, cols),
        sieve(
            table_rows(pages, t).unwrap(),
            kept_by(table_rows(pages, t).unwrap(), table_rows(pages, t).unwrap().len() as int, filter, cols),
        ) == sieve(table_rows(pages, t).unwrap(), unchosen(filter, cols)),
{
    let rows = table_rows(pages, t).unwrap();
    let kn = kept_by(rows, rows.len() as int, filter, cols);
    assert forall|i: int| 0 <= i < rows.len() implies #[trigger] kn(rows[i]) == unchosen(filter, cols)(rows[i]) by {
        let x = rows[i];
        assert(rows.contains(x));
        if deleted_by(rows, rows.len() as int, filter, cols, x) {
            let m = choose|m: int| 0 <= m < rows.len() && rows[m].0 == x.0 && chosen(filter, rows[m].1, cols);
            assert(rows.contains(rows[m]));
            lemma_same_location(pages, t, rows[m], x);
        }
        if chosen(filter, x.1, cols) {
            assert(0 <= i < rows.len() && rows[i].0 == x.0 && chosen(filter, rows[i].1, cols));
        }
    }
    crate::heap::lemma_sieve_same(rows, kn, unchosen(filter, cols));
    assert forall|x: SRow| #[trigger] cur.contains(x) <==> rows.contains(x) && !chosen(filter, x.1, cols) by {
        if rows.contains(x) {
            if deleted_by(rows, rows.len() as int, filter, cols, x) {
                let m = choose|m: int| 0 <= m < rows.len() && rows[m].0 == x.0 && chosen(filter, rows[m].1, cols);
                assert(rows.contains(rows[m]));
                lemma_same_location(pages, t, rows[m], x);
            }
            if chosen(filter, x.1, cols) {
                let m = choose|m: int| 0 <= m < rows.len() && rows[m] == x;
                assert(0 <= m < rows.len() && rows[m].0 == x.0 && chosen(filter, rows[m].1, cols));
            }
        }
    }
}

/// What a `DELETE` did: `pages` before, `pages2` after, `r` its result.
pub open spec fn delete_done(
    ts: Seq<STable>,
    pages: Seq<Seq<u8>>,
    pages2: Seq<Seq<u8>>,
    del: SDelete,
    r: Result<ExecResult>,
) -> bool {
    match table_position(ts, del.table) {
        None => r matches Err(e) && e is Catalog && pages2 == pages,
        Some(i) => {
            let cols = ts[i].columns;
            let rows = table_rows(pages, ts[i]).unwrap();
            &&& forall|j: int|
                0 <= j < ts.len() && j != i ==> #[trigger] table_rows(pages2, ts[j])
                    == table_rows(pages, ts[j])
            &&& table_rows(pages2, ts[i]) is Some
            &&& if rows.len() > 0 && filter_error(del.filter, cols) is Some {
                r matches Err(e) && Some(kind(e)) == filter_error(del.filter, cols)
                    && pages2 == pages
            } else {
                &&& r matches Ok(x) && x@ == SResult::Affected(
                    matched_count(rows, del.filter, cols),
                )
                &&& table_rows(pages2, ts[i]) == Some(sieve(rows, unchosen(del.filter, cols)))
                &&& forall|x: SRow|
                    #[trigger] table_rows(pages2, ts[i]).unwrap().contains(x) <==> rows.contains(x)
                        && !chosen(del.filter, x.1, cols)
            }
        },
    }
}

fn exec_delete<S: Storage + ?Sized>(catalog: &Catalog, storage: &mut S, del: Delete) -> (r: Result<ExecResult>)
    requires
        store_ok(catalog@, old(storage).page_image()),
    ensures
        store_ok(catalog@, final(storage).page_image()),
        delete_done(catalog@, old(storage).page_image(), final(storage).page_image(), del@, r),
{
    let ghost ts = catalog@;
    let ghost pages0 = storage.page_image();
    let pos = match catalog.position(del.table.as_str()) {
        Some(p) => p,
        None => {
            return Err(Error::Catalog(quoted("no such table '", del.table.as_str(), "'")));
        },
    };
    let schema = &catalog.tables()[pos];
    let ghost t = ts[pos as int];
    let ghost cols = t.columns;
    proof {
        assert(schema@ == t);
        lemma_heap_chain(pages0, t);
    }
    let located = heap::scan(storage, schema)?;
    let ghost rows = located_view(located@);
    let mut count: usize = 0;
    let mut k: usize = 0;
    proof {
        assert(rows.take(0) =~= Seq::<SRow>::empty());
        crate::heap::lemma_sieve_all(rows, kept_by(rows, 0, del@.filter, cols));
    }
    while k < located.len()
        invariant
            ts == catalog@,
            pages0 == old(storage).page_image(),
            store_ok(ts, pages0),
            0 <= pos < ts.len(),
            table_position(ts, del@.table) == Some(pos as int),
            t == ts[pos as int],
            schema@ == t,
            cols == t.columns,
            rows == located_view(located@),
            table_rows(pages0, t) == Some(rows),
            k <= located@.len(),
            count == matched_count(rows.take(k as int), del@.filter, cols),
            count <= k,
            k == 0 ==> storage.page_image() == pages0,
            k > 0 ==> filter_error(del@.filter, cols) is None,
            store_ok(ts, storage.page_image()),
            forall|j: int|
                0 <= j < ts.len() ==> #[trigger] heap_chain(storage.page_image(), ts[j]) == heap_chain(
                    pages0,
                    ts[j],
                ),
            forall|j: int|
                0 <= j < ts.len() && j != pos ==> #[trigger] table_rows(storage.page_image(), ts[j])
                    == table_rows(pages0, ts[j]),
            forall|x: SRow|
                #[trigger] table_rows(storage.page_image(), t).unwrap().contains(x) <==> rows.contains(x)
                    && !deleted_by(rows, k as int, del@.filter, cols, x),
            table_rows(storage.page_image(), t) == Some(sieve(rows, kept_by(rows, k as int, del@.filter, cols))),
        decreases located@.len() - k,
    {
        let ghost pages_now = storage.page_image();
        let ghost row = rows[k as int];
        proof {
            assert(rows.take(k + 1).drop_last() =~= rows.take(k as int));
            assert(rows.take(k + 1).last() == row);
            lemma_passes_error(del@.filter, row.1, cols);
        }
        let matched = filter_matches(&del.filter, located[k].values.as_slice(), schema)?;
        if matched {
            let loc = located[k].location;
            proof {
                lemma_heap_chain(pages0, t);
                assert(rows.contains(row));
                let h = heap_chain(pages0, t);
                crate::heap::lemma_chain_rows_member(pages0, h, row);
                assert(heap_chain(pages_now, t).contains(loc.page_id));
                lemma_heap_chain(pages_now, t);
                let k1 = choose|q: int| 0 <= q < h.len() && h[q] == loc.page_id;
                assert(0 < h[k1] < pages_now.len());
            }
            let _ = heap::delete_row(storage, loc);
            proof {
                let p2 = storage.page_image()[loc.page_id as int];
                lemma_delete_rows(ts, pages_now, pos as int, loc, p2);
                assert(storage.page_image() == pages_now.update(loc.page_id as int, p2));
            }
            count = count + 1;
        }
        proof {
            lemma_delete_step(
                table_rows(pages_now, t).unwrap(),
                table_rows(storage.page_image(), t).unwrap(),
                rows,
                k as int,
                del@.filter,
                cols,
            );
        }
        k = k + 1;
    }
    proof {
        assert(rows.take(located@.len() as int) =~= rows);
        assert(heap_ok(storage.page_image(), ts[pos as int]));
        lemma_heap_chain(storage.page_image(), t);
        lemma_delete_done(pages0, t, table_rows(storage.page_image(), t).unwrap(), del@.filter, cols);
        assert(count == matched_count(rows, del@.filter, cols));
        assert(located@.len() > 0 ==> filter_error(del@.filter, cols) is None);
    }
    Ok(ExecResult::Affected(count))
}

// --- UPDATE --------------------------------------------------------------------------------

/// The columns and values an `UPDATE` assigns, in order; each value is
/// coerced to its column's type.
pub open spec fn update_targets(cols: Seq<SColumn>, a: Seq<(Seq<char>, SExpr)>) -> core::result::Result<
    Seq<(int, SValue)>,
    ErrorKind,
>
    decreases a.len(),
{
    if a.len() == 0 {
        Ok(Seq::<(int, SValue)>::empty())
    } else {
        match update_targets(cols, a.drop_last()) {
            Ok(ts) => match column_position(cols, a.last().0) {
                None => Err(ErrorKind::Catalog),
                Some(i) => match const_value(a.last().1) {
                    Err(k) => Err(k),
                    Ok(v) => match coerce(v, cols[i].data_type) {
                        None => Err(ErrorKind::Type),
                        Some(c) => Ok(ts.push((i, c))),
                    },
                },
            },
            Err(k) => Err(k),
        }
    }
}

/// A row with the assignments applied in order (a column the row is too
/// short to have is left out).
pub open spec fn assigned(row: Seq<SValue>, targets: Seq<(int, SValue)>) -> Seq<SValue>
    decreases targets.len(),
{
    if targets.len() == 0 {
        row
    } else {
        let r = assigned(row, targets.drop_last());
        let i = targets.last().0;
        if 0 <= i < r.len() {
            r.update(i, targets.last().1)
        } else {
            r
        }
    }
}

proof fn lemma_update_targets_err(cols: Seq<SColumn>, a: Seq<(Seq<char>, SExpr)>, k: int, e: ErrorKind)
    requires
        0 <= k <= a.len(),
        update_targets(cols, a.take(k)) == core::result::Result::<Seq<(int, SValue)>, ErrorKind>::Err(e),
    ensures
        update_targets(cols, a) == core::result::Result::<Seq<(int, SValue)>, ErrorKind>::Err(e),
    decreases a.len() - k,
{
    if k < a.len() {
        assert(a.take(k + 1).drop_last() =~= a.take(k));
        lemma_update_targets_err(cols, a, k + 1, e);
    } else {
        assert(a.take(k) =~= a);
    }
}

/// Resolves the assignments of an `UPDATE` to column positions and values.
fn resolve_targets(schema: &TableSchema, assignments: &Vec<(String, Expr)>) -> (r: Result<Vec<(usize, Value)>>)
    ensures
        match update_targets(schema@.columns, assignments_view(assignments@)) {
            Ok(ts) => r matches Ok(v) && v@.len() == ts.len() && forall|k: int|
                0 <= k < ts.len() ==> #[trigger] v@[k].0 as int == ts[k].0 && v@[k].1@ == ts[k].1,
            Err(k) => r matches Err(e) && kind(e) == k,
        },
{
    let ghost cols = schema@.columns;
    let ghost av = assignments_view(assignments@);
    let mut out: Vec<(usize, Value)> = Vec::new();
    let mut k: usize = 0;
    proof {
        assert(av.take(0) =~= Seq::<(Seq<char>, SExpr)>::empty());
    }
    while k < assignments.len()
        invariant
            cols == schema@.columns,
            av == assignments_view(assignments@),
            k <= assignments@.len(),
            update_targets(cols, av.take(k as int)) matches Ok(ts) && out@.len() == ts.len()
                && forall|q: int|
                0 <= q < ts.len() ==> #[trigger] out@[q].0 as int == ts[q].0 && out@[q].1@ == ts[q].1,
        decreases assignments@.len() - k,
    {
        proof {
            assert(av.take(k + 1).drop_last() =~= av.take(k as int));
            assert(av.take(k + 1).last() == av[k as int]);
        }
        let ghost prev = update_targets(cols, av.take(k as int)).unwrap();
        let name = &assignments[k].0;
        let idx = match schema.column_index(name.as_str()) {
            Some(i) => i,
            None => {
                proof {
                    lemma_update_targets_err(cols, av, k + 1, ErrorKind::Catalog);
                }
                return Err(Error::Catalog(quoted("no such column '", name.as_str(), "'")));
            },
        };
        proof {
            let c = choose|c: int| is_first_column(cols, av[k as int].0, c);
            assert(is_first_column(cols, av[k as int].0, c));
        }
        let v = match eval_const(&assignments[k].1) {
            Ok(v) => v,
            Err(e) => {
                proof {
                    lemma_update_targets_err(cols, av, k + 1, kind(e));
                }
                return Err(e);
            },
        };
        let value = match v.coerce_to(schema.columns[idx].data_type) {
            Ok(x) => x,
            Err(e) => {
                proof {
                    lemma_update_targets_err(cols, av, k + 1, kind(e));
                }
                return Err(e);
            },
        };
        let ghost before = out@;
        out.push((idx, value));
        proof {
            let ts = update_targets(cols, av.take(k + 1)).unwrap();
            assert(ts == prev.push((idx as int, value@)));
            assert forall|q: int| 0 <= q < ts.len() implies #[trigger] out@[q].0 as int == ts[q].0
                && out@[q].1@ == ts[q].1 by {
                if q < prev.len() {
                    assert(out@[q] == before[q]);
                    assert(before[q].0 as int == prev[q].0 && before[q].1@ == prev[q].1);
                } else {
                    assert(out@[q] == (idx, value));
                }
            }
        }
        k = k + 1;
    }
    proof {
        assert(av.take(assignments@.len() as int) =~= av);
    }
    Ok(out)
}

pub open spec fn targets_view(ts: Seq<(usize, Value)>) -> Seq<(int, SValue)> {
    ts.map_values(|p: (usize, Value)| (p.0 as int, p.1@))
}

/// A row with the assignments applied in order.
fn apply_targets(row: &[Value], targets: &Vec<(usize, Value)>) -> (out: Vec<Value>)
    ensures
        values_view(out@) == assigned(values_view(row@), targets_view(targets@)),
{
    let mut out: Vec<Value> = Vec::new();
    let mut i: usize = 0;
    while i < row.len()
        invariant
            i <= row@.len(),
            values_view(out@) == values_view(row@).take(i as int),
        decreases row@.len() - i,
    {
        let ghost before = values_view(out@);
        let v = row[i].duplicate();
        out.push(v);
        proof {
            assert(values_view(out@) =~= before.push(v@));
            assert(values_view(row@).take(i + 1) =~= values_view(row@).take(i as int).push(
                row@[i as int]@,
            ));
        }
        i = i + 1;
    }
    proof {
        assert(values_view(row@).take(row@.len() as int) =~= values_view(row@));
    }
    let ghost tv = targets_view(targets@);
    let mut k: usize = 0;
    proof {
        assert(tv.take(0) =~= Seq::<(int, SValue)>::empty());
    }
    while k < targets.len()
        invariant
            tv == targets_view(targets@),
            k <= targets@.len(),
            values_view(out@) == assigned(values_view(row@), tv.take(k as int)),
        decreases targets@.len() - k,
    {
        proof {
            assert(tv.take(k + 1).drop_last() =~= tv.take(k as int));
            assert(tv.take(k + 1).last() == tv[k as int]);
        }
        let idx = targets[k].0;
        if idx < out.len() {
            let ghost before = values_view(out@);
            out.set(idx, targets[k].1.duplicate());
            proof {
                assert(values_view(out@) =~= before.update(idx as int, tv[k as int].1));
            }
        }
        k = k + 1;
    }
    proof {
        assert(tv.take(targets@.len() as int) =~= tv);
    }
    out
}

/// Where the row at `loc` of page `p` is after the page became `p2`: in
/// place, or in the slot appended at the end of the page.
pub open spec fn moved_to(p: Seq<u8>, p2: Seq<u8>, loc: RowLocation) -> RowLocation {
    if page_cell(p2, loc.slot as int) is Some {
        loc
    } else {
        RowLocation { page_id: loc.page_id, slot: page_num_slots(p) as usize }
    }
}

/// The rows of table `i` after an update of the row at `loc` to `vs`, which
/// rewrites its cell in place or moves it to a new slot at the end of the
/// page, or drops it when the page has no room.
proof fn lemma_update_rows(
    ts: Seq<STable>,
    pages: Seq<Seq<u8>>,
    i: int,
    loc: RowLocation,
    vs: Seq<SValue>,
    p2: Seq<u8>,
)
    requires
        store_ok(ts, pages),
        0 <= i < ts.len(),
        heap_chain(pages, ts[i]).contains(loc.page_id),
        crate::record::row_encodable(vs),
        page_wf(p2),
        cells_disjoint(p2),
        page_next(p2) == page_next(pages[loc.page_id as int]),
        page_num_slots(pages[loc.page_id as int]) <= page_num_slots(p2),
        forall|k: int|
            k != loc.slot && k != page_num_slots(pages[loc.page_id as int]) ==> #[trigger] page_cell(
                p2,
                k,
            ) == page_cell(pages[loc.page_id as int], k),
        page_cell(p2, loc.slot as int) is None || page_cell(p2, loc.slot as int) == Some(enc_row(vs)),
        page_cell(p2, page_num_slots(pages[loc.page_id as int]) as int) is None || page_cell(
            p2,
            page_num_slots(pages[loc.page_id as int]) as int,
        ) == Some(enc_row(vs)),
        page_cell(p2, loc.slot as int) is None || page_cell(
            p2,
            page_num_slots(pages[loc.page_id as int]) as int,
        ) is None,
    ensures
        store_ok(ts, pages.update(loc.page_id as int, p2)),
        forall|j: int|
            0 <= j < ts.len() ==> #[trigger] heap_chain(pages.update(loc.page_id as int, p2), ts[j])
                == heap_chain(pages, ts[j]),
        forall|j: int|
            0 <= j < ts.len() && j != i ==> #[trigger] table_rows(
                pages.update(loc.page_id as int, p2),
                ts[j],
            ) == table_rows(pages, ts[j]),
        forall|z: SRow|
            #[trigger] table_rows(pages.update(loc.page_id as int, p2), ts[i]).unwrap().contains(z)
                ==> (table_rows(pages, ts[i]).unwrap().contains(z) && z.0 != loc) || (z.1 == vs
                && z.0 == moved_to(pages[loc.page_id as int], p2, loc)),
        forall|z: SRow|
            #[trigger] table_rows(pages, ts[i]).unwrap().contains(z) && z.0 != loc ==> table_rows(
                pages.update(loc.page_id as int, p2),
                ts[i],
            ).unwrap().contains(z),
{
    let id = loc.page_id;
    let p = pages[id as int];
    let pages2 = pages.update(id as int, p2);
    let h = heap_chain(pages, ts[i]);
    lemma_heap_chain(pages, ts[i]);
    let k0 = choose|k: int| 0 <= k < h.len() && h[k] == id;
    crate::heap::lemma_chain_rows_some(pages, h, k0);
    crate::record::lemma_row_roundtrip(vs, Seq::<u8>::empty());
    assert(enc_row(vs) + Seq::<u8>::empty() =~= enc_row(vs));
    crate::heap::lemma_page_rows_decoding(p, p2, id);
    lemma_replace_keeps_store(ts, pages, i, id, p2);
    assert forall|z: SRow|
        #[trigger] table_rows(pages2, ts[i]).unwrap().contains(z) implies (table_rows(
            pages,
            ts[i],
        ).unwrap().contains(z) && z.0 != loc) || (z.1 == vs && z.0 == moved_to(p, p2, loc)) by {
        crate::heap::lemma_chain_rows_member(pages, h, z);
        crate::heap::lemma_chain_rows_member(pages2, h, z);
        let q = choose|q: int| 0 <= q < h.len() && h[q] == z.0.page_id;
        assert(0 < h[q] < pages.len());
        if z.0.page_id != id {
            assert(pages2[z.0.page_id as int] == pages[z.0.page_id as int]);
        }
    }
    assert forall|z: SRow|
        #[trigger] table_rows(pages, ts[i]).unwrap().contains(z) && z.0 != loc implies table_rows(
            pages2,
            ts[i],
        ).unwrap().contains(z) by {
        crate::heap::lemma_chain_rows_member(pages, h, z);
        crate::heap::lemma_chain_rows_member(pages2, h, z);
        let q = choose|q: int| 0 <= q < h.len() && h[q] == z.0.page_id;
        assert(0 < h[q] < pages.len());
        if z.0.page_id != id {
            assert(pages2[z.0.page_id as int] == pages[z.0.page_id as int]);
        }
    }
}

/// A row changed by an `UPDATE` comes from one of the first `k` rows of the
/// scan that passed the filter.
pub open spec fn updated_from(
    rows: Seq<SRow>,
    k: int,
    filter: Option<SExpr>,
    cols: Seq<SColumn>,
    targets: Seq<(int, SValue)>,
    z: SRow,
) -> bool {
    exists|m: int| 0 <= m < k && chosen(filter, rows[m].1, cols) && z.1 == assigned(rows[m].1, targets)
}

/// What an `UPDATE` leaves in the table once it is through: the rows that did
/// not pass the filter, and updated rows.
pub open spec fn update_result(
    rows: Seq<SRow>,
    filter: Option<SExpr>,
    cols: Seq<SColumn>,
    targets: Seq<(int, SValue)>,
    z: SRow,
) -> bool {
    (rows.contains(z) && !chosen(filter, z.1, cols)) || exists|x: SRow|
        rows.contains(x) && chosen(filter, x.1, cols) && z.1 == assigned(x.1, targets)
}

/// Whether the stored cell of row `x` has the length of its updated form, in
/// which case an `UPDATE` rewrites that cell where it is.
pub open spec fn in_place(pages: Seq<Seq<u8>>, x: SRow, targets: Seq<(int, SValue)>) -> bool {
    page_cell(pages[x.0.page_id as int], x.0.slot as int) matches Some(c) && c.len() == enc_row(
        assigned(x.1, targets),
    ).len()
}

/// The rows of the scan from the `k`-th on still have the cells they had.
pub open spec fn unvisited_kept(pages0: Seq<Seq<u8>>, pages: Seq<Seq<u8>>, rows: Seq<SRow>, k: int) -> bool {
    forall|j: int|
        #![trigger rows[j]]
        k <= j < rows.len() ==> page_cell(pages[rows[j].0.page_id as int], rows[j].0.slot as int)
            == page_cell(pages0[rows[j].0.page_id as int], rows[j].0.slot as int)
}

/// Every one of the first `k` rows of the scan that passed the filter and was
/// rewritten in place is in the table with its new values.
pub open spec fn in_place_done(
    pages0: Seq<Seq<u8>>,
    pages: Seq<Seq<u8>>,
    t: STable,
    rows: Seq<SRow>,
    k: int,
    filter: Option<SExpr>,
    targets: Seq<(int, SValue)>,
) -> bool {
    forall|m: int|
        #![trigger rows[m]]
        0 <= m < k && chosen(filter, rows[m].1, t.columns) && in_place(pages0, rows[m], targets)
            ==> table_rows(pages, t).unwrap().contains((rows[m].0, assigned(rows[m].1, targets)))
}

/// The rows of the scan with the first `k` of them that passed the filter
/// holding their new values, in scan order.
pub open spec fn renewed(
    rows: Seq<SRow>,
    k: int,
    filter: Option<SExpr>,
    cols: Seq<SColumn>,
    targets: Seq<(int, SValue)>,
) -> Seq<SRow> {
    Seq::new(
        rows.len(),
        |j: int|
            if j < k && chosen(filter, rows[j].1, cols) {
                (rows[j].0, assigned(rows[j].1, targets))
            } else {
                rows[j]
            },
    )
}

/// Each of the first `k` rows of the scan that passed the filter is rewritten
/// in place.
pub open spec fn all_in_place(
    pages0: Seq<Seq<u8>>,
    rows: Seq<SRow>,
    k: int,
    filter: Option<SExpr>,
    cols: Seq<SColumn>,
    targets: Seq<(int, SValue)>,
) -> bool {
    forall|j: int|
        0 <= j < k && chosen(filter, rows[j].1, cols) ==> #[trigger] in_place(pages0, rows[j], targets)
}

/// When each of the first `k` rows of the scan that passed the filter was
/// rewritten in place, the table holds the scanned rows, those `k` with their
/// new values, in scan order.
#[verifier::opaque]
pub open spec fn rewritten_upto(
    pages0: Seq<Seq<u8>>,
    pages: Seq<Seq<u8>>,
    t: STable,
    rows: Seq<SRow>,
    k: int,
    filter: Option<SExpr>,
    targets: Seq<(int, SValue)>,
) -> bool {
    all_in_place(pages0, rows, k, filter, t.columns, targets) ==> table_rows(pages, t) == Some(
        renewed(rows, k, filter, t.columns, targets),
    )
}

proof fn lemma_rewritten_start(pages0: Seq<Seq<u8>>, t: STable, rows: Seq<SRow>, filter: Option<SExpr>, targets: Seq<(int, SValue)>)
    requires
        table_rows(pages0, t) == Some(rows),
    ensures
        rewritten_upto(pages0, pages0, t, rows, 0, filter, targets),
{
    reveal(rewritten_upto);
    assert(renewed(rows, 0, filter, t.columns, targets) =~= rows);
}

proof fn lemma_rewritten_skip(
    pages0: Seq<Seq<u8>>,
    pages: Seq<Seq<u8>>,
    t: STable,
    rows: Seq<SRow>,
    k: int,
    filter: Option<SExpr>,
    targets: Seq<(int, SValue)>,
)
    requires
        0 <= k < rows.len(),
        !chosen(filter, rows[k].1, t.columns),
        rewritten_upto(pages0, pages, t, rows, k, filter, targets),
    ensures
        rewritten_upto(pages0, pages, t, rows, k + 1, filter, targets),
{
    reveal(rewritten_upto);
    assert(renewed(rows, k + 1, filter, t.columns, targets) =~= renewed(rows, k, filter, t.columns, targets));
}

/// After the `k`-th row of the scan, which passed the filter, was updated.
proof fn lemma_rewritten_step(
    ts: Seq<STable>,
    pages0: Seq<Seq<u8>>,
    pages: Seq<Seq<u8>>,
    pages2: Seq<Seq<u8>>,
    i: int,
    rows: Seq<SRow>,
    k: int,
    filter: Option<SExpr>,
    targets: Seq<(int, SValue)>,
)
    requires
        store_ok(ts, pages0),
        0 <= i < ts.len(),
        table_rows(pages0, ts[i]) == Some(rows),
        0 <= k < rows.len(),
        chosen(filter, rows[k].1, ts[i].columns),
        rewritten_upto(pages0, pages, ts[i], rows, k, filter, targets),
        in_place(pages0, rows[k], targets) ==> table_rows(pages2, ts[i]) == Some(
            crate::heap::renew(table_rows(pages, ts[i]).unwrap(), rows[k].0, assigned(rows[k].1, targets)),
        ),
    ensures
        rewritten_upto(pages0, pages2, ts[i], rows, k + 1, filter, targets),
{
    reveal(rewritten_upto);
    let t = ts[i];
    let cols = t.columns;
    if all_in_place(pages0, rows, k + 1, filter, cols, targets) {
        assert(in_place(pages0, rows[k], targets));
        let h = heap_chain(pages0, t);
        lemma_heap_chain(pages0, t);
        crate::heap::lemma_chain_rows_locs(pages0, h);
        assert(chain_rows(pages0, h).unwrap() == rows);
        let before = renewed(rows, k, filter, cols, targets);
        let after = renewed(rows, k + 1, filter, cols, targets);
        let vs = assigned(rows[k].1, targets);
        assert forall|j: int| 0 <= j < rows.len() implies #[trigger] crate::heap::renew(before, rows[k].0, vs)[j]
            == after[j] by {
            if j != k {
                assert(rows[j].0 != rows[k].0);
            }
        }
        assert(crate::heap::renew(before, rows[k].0, vs) =~= after);
    }
}

/// The rows of table `i` after the row at `loc` was rewritten in place with
/// `vs`.
proof fn lemma_update_in_place_rows(
    ts: Seq<STable>,
    pages: Seq<Seq<u8>>,
    i: int,
    loc: RowLocation,
    vs: Seq<SValue>,
    p2: Seq<u8>,
)
    requires
        store_ok(ts, pages),
        0 <= i < ts.len(),
        heap_chain(pages, ts[i]).contains(loc.page_id),
        crate::record::row_encodable(vs),
        page_wf(p2),
        cells_disjoint(p2),
        page_next(p2) == page_next(pages[loc.page_id as int]),
        page_num_slots(p2) == page_num_slots(pages[loc.page_id as int]),
        page_cell(pages[loc.page_id as int], loc.slot as int) is Some,
        page_cell(p2, loc.slot as int) == Some(enc_row(vs)),
        forall|q: int| q != loc.slot ==> #[trigger] page_cell(p2, q) == page_cell(pages[loc.page_id as int], q),
    ensures
        table_rows(pages.update(loc.page_id as int, p2), ts[i]) == Some(
            crate::heap::renew(table_rows(pages, ts[i]).unwrap(), loc, vs),
        ),
{
    let pages2 = pages.update(loc.page_id as int, p2);
    lemma_update_rows(ts, pages, i, loc, vs, p2);
    let h = heap_chain(pages, ts[i]);
    lemma_heap_chain(pages, ts[i]);
    lemma_heap_chain(pages2, ts[i]);
    crate::record::lemma_row_roundtrip(vs, Seq::<u8>::empty());
    assert(enc_row(vs) + Seq::<u8>::empty() =~= enc_row(vs));
    crate::heap::lemma_chain_rows_renew(pages, h, loc, p2, vs);
}

/// The `m`-th row of the scan is in the table with its new values, on its
/// page: where it was, or in a slot past those the page had before.
pub open spec fn placed_anew(
    pages0: Seq<Seq<u8>>,
    pages: Seq<Seq<u8>>,
    t: STable,
    rows: Seq<SRow>,
    m: int,
    targets: Seq<(int, SValue)>,
) -> bool {
    exists|z: SRow|
        #[trigger] table_rows(pages, t).unwrap().contains(z) && z.1 == assigned(rows[m].1, targets)
            && z.0.page_id == rows[m].0.page_id && (z.0 == rows[m].0 || z.0.slot >= page_num_slots(
            pages0[z.0.page_id as int],
        ))
}

/// Every one of the first `k` rows of the scan that passed the filter is in
/// the table with its new values, on its page.
#[verifier::opaque]
pub open spec fn updated_present(
    pages0: Seq<Seq<u8>>,
    pages: Seq<Seq<u8>>,
    t: STable,
    rows: Seq<SRow>,
    k: int,
    filter: Option<SExpr>,
    targets: Seq<(int, SValue)>,
) -> bool {
    forall|m: int|
        0 <= m < k && chosen(filter, rows[m].1, t.columns) ==> #[trigger] placed_anew(
            pages0,
            pages,
            t,
            rows,
            m,
            targets,
        )
}

proof fn lemma_updated_present_start(
    pages0: Seq<Seq<u8>>,
    t: STable,
    rows: Seq<SRow>,
    filter: Option<SExpr>,
    targets: Seq<(int, SValue)>,
)
    ensures
        updated_present(pages0, pages0, t, rows, 0, filter, targets),
{
    reveal(updated_present);
}

proof fn lemma_updated_present_skip(
    pages0: Seq<Seq<u8>>,
    pages: Seq<Seq<u8>>,
    t: STable,
    rows: Seq<SRow>,
    k: int,
    filter: Option<SExpr>,
    targets: Seq<(int, SValue)>,
)
    requires
        0 <= k < rows.len(),
        !chosen(filter, rows[k].1, t.columns),
        updated_present(pages0, pages, t, rows, k, filter, targets),
    ensures
        updated_present(pages0, pages, t, rows, k + 1, filter, targets),
{
    reveal(updated_present);
    assert forall|m: int| 0 <= m < k + 1 && chosen(filter, rows[m].1, t.columns) implies #[trigger] placed_anew(
        pages0,
        pages,
        t,
        rows,
        m,
        targets,
    ) by {
        assert(m < k);
    }
}

/// After the `k`-th row of the scan, which passed the filter, was updated in
/// place or moved to a new slot of its page.
proof fn lemma_updated_present_step(
    ts: Seq<STable>,
    pages0: Seq<Seq<u8>>,
    pages: Seq<Seq<u8>>,
    pages2: Seq<Seq<u8>>,
    i: int,
    rows: Seq<SRow>,
    k: int,
    filter: Option<SExpr>,
    targets: Seq<(int, SValue)>,
)
    requires
        store_ok(ts, pages0),
        0 <= i < ts.len(),
        table_rows(pages0, ts[i]) == Some(rows),
        store_ok(ts, pages2),
        heap_chain(pages2, ts[i]) == heap_chain(pages0, ts[i]),
        pages.len() == pages0.len(),
        forall|q: int|
            0 <= q < pages0.len() ==> page_num_slots(#[trigger] pages0[q]) <= page_num_slots(pages[q]),
        0 <= k < rows.len(),
        chosen(filter, rows[k].1, ts[i].columns),
        crate::record::row_encodable(assigned(rows[k].1, targets)),
        updated_present(pages0, pages, ts[i], rows, k, filter, targets),
        ({
            let loc = rows[k].0;
            let p = pages[loc.page_id as int];
            let p2 = pages2[loc.page_id as int];
            let cell = enc_row(assigned(rows[k].1, targets));
            &&& pages2 == pages.update(loc.page_id as int, p2)
            &&& (page_cell(p, loc.slot as int) matches Some(c) && c.len() == cell.len()) ==> page_cell(
                p2,
                loc.slot as int,
            ) == Some(cell)
            &&& !(page_cell(p, loc.slot as int) matches Some(c) && c.len() == cell.len()) ==> page_cell(
                p2,
                page_num_slots(p),
            ) == Some(cell)
        }),
        forall|z: SRow|
            #[trigger] table_rows(pages, ts[i]).unwrap().contains(z) && z.0 != rows[k].0 ==> table_rows(
                pages2,
                ts[i],
            ).unwrap().contains(z),
    ensures
        updated_present(pages0, pages2, ts[i], rows, k + 1, filter, targets),
{
    reveal(updated_present);
    let t = ts[i];
    let loc = rows[k].0;
    let id = loc.page_id;
    let p = pages[id as int];
    let vs = assigned(rows[k].1, targets);
    let cell = enc_row(vs);
    let h = heap_chain(pages0, t);
    lemma_heap_chain(pages0, t);
    lemma_heap_chain(pages2, t);
    crate::heap::lemma_chain_rows_locs(pages0, h);
    assert(chain_rows(pages0, h).unwrap() == rows);
    assert(rows.contains(rows[k]));
    crate::heap::lemma_chain_rows_member(pages0, h, rows[k]);
    let q0 = choose|q: int| 0 <= q < h.len() && h[q] == id;
    assert(0 < h[q0] < pages0.len());
    assert(page_num_slots(pages0[id as int]) <= page_num_slots(p));
    crate::record::lemma_row_roundtrip(vs, Seq::<u8>::empty());
    assert(cell + Seq::<u8>::empty() =~= cell);
    let znew = if page_cell(p, loc.slot as int) matches Some(c) && c.len() == cell.len() {
        (loc, vs)
    } else {
        (RowLocation { page_id: id, slot: page_num_slots(p) as usize }, vs)
    };
    crate::heap::lemma_chain_rows_member(pages2, h, znew);
    assert(table_rows(pages2, t).unwrap().contains(znew));
    assert forall|m: int| 0 <= m < k + 1 && chosen(filter, rows[m].1, t.columns) implies #[trigger] placed_anew(
        pages0,
        pages2,
        t,
        rows,
        m,
        targets,
    ) by {
        if m < k {
            assert(placed_anew(pages0, pages, t, rows, m, targets));
            let z = choose|z: SRow|
                #[trigger] table_rows(pages, t).unwrap().contains(z) && z.1 == assigned(rows[m].1, targets)
                    && z.0.page_id == rows[m].0.page_id && (z.0 == rows[m].0 || z.0.slot >= page_num_slots(
                    pages0[z.0.page_id as int],
                ));
            assert(rows[m].0 != loc);
            assert(z.0 != loc);
            assert(table_rows(pages2, t).unwrap().contains(z));
        } else {
            assert(table_rows(pages2, t).unwrap().contains(znew));
        }
    }
}

/// The rows of the table after the `k`-th row of the scan, which passed the
/// filter, was updated: the rows that did not pass it stay, and every row is
/// an earlier row not yet deleted or an updated one.
proof fn lemma_update_members_step(
    pages0: Seq<Seq<u8>>,
    pages: Seq<Seq<u8>>,
    pages2: Seq<Seq<u8>>,
    t: STable,
    rows: Seq<SRow>,
    k: int,
    filter: Option<SExpr>,
    tv: Seq<(int, SValue)>,
    nl: RowLocation,
)
    requires
        heap_ok(pages0, t),
        table_rows(pages0, t) == Some(rows),
        0 <= k < rows.len(),
        chosen(filter, rows[k].1, t.columns),
        forall|y: SRow|
            #[trigger] rows.contains(y) && !chosen(filter, y.1, t.columns) ==> table_rows(
                pages,
                t,
            ).unwrap().contains(y),
        forall|z: SRow|
            #[trigger] table_rows(pages, t).unwrap().contains(z) ==> (rows.contains(z) && !deleted_by(
                rows,
                k,
                filter,
                t.columns,
                z,
            )) || updated_from(rows, k, filter, t.columns, tv, z),
        forall|z: SRow|
            #[trigger] table_rows(pages2, t).unwrap().contains(z) ==> (table_rows(pages, t).unwrap().contains(z)
                && z.0 != rows[k].0) || (z.1 == assigned(rows[k].1, tv) && z.0 == nl),
        forall|z: SRow|
            #[trigger] table_rows(pages, t).unwrap().contains(z) && z.0 != rows[k].0 ==> table_rows(
                pages2,
                t,
            ).unwrap().contains(z),
    ensures
        forall|y: SRow|
            #[trigger] rows.contains(y) && !chosen(filter, y.1, t.columns) ==> table_rows(
                pages2,
                t,
            ).unwrap().contains(y),
        forall|z: SRow|
            #[trigger] table_rows(pages2, t).unwrap().contains(z) ==> (rows.contains(z) && !deleted_by(
                rows,
                k + 1,
                filter,
                t.columns,
                z,
            )) || updated_from(rows, k + 1, filter, t.columns, tv, z),
{
    let cols = t.columns;
    let row = rows[k];
    let loc = row.0;
    let vs = assigned(row.1, tv);
    assert(rows.contains(row));
    assert forall|y: SRow| #[trigger] rows.contains(y) && !chosen(filter, y.1, cols) implies table_rows(
        pages2,
        t,
    ).unwrap().contains(y) by {
        if y.0 == loc {
            lemma_same_location(pages0, t, y, row);
        }
    }
    assert forall|z: SRow| #[trigger] table_rows(pages2, t).unwrap().contains(z) implies (rows.contains(z)
        && !deleted_by(rows, k + 1, filter, cols, z)) || updated_from(rows, k + 1, filter, cols, tv, z) by {
        if z.1 == vs && z.0 == nl {
            assert(0 <= k < k + 1 && chosen(filter, rows[k].1, cols) && z.1 == assigned(rows[k].1, tv));
        } else {
            assert(table_rows(pages, t).unwrap().contains(z) && z.0 != loc);
            if updated_from(rows, k, filter, cols, tv, z) {
                let m = choose|m: int| 0 <= m < k && chosen(filter, rows[m].1, cols) && z.1 == assigned(rows[m].1, tv);
                assert(0 <= m < k + 1);
            } else {
                if deleted_by(rows, k + 1, filter, cols, z) {
                    let m = choose|m: int| 0 <= m < k + 1 && rows[m].0 == z.0 && chosen(filter, rows[m].1, cols);
                    assert(m < k);
                }
            }
        }
    }
}

proof fn lemma_update_skip_step(
    pages0: Seq<Seq<u8>>,
    pages: Seq<Seq<u8>>,
    t: STable,
    rows: Seq<SRow>,
    k: int,
    filter: Option<SExpr>,
    targets: Seq<(int, SValue)>,
)
    requires
        0 <= k < rows.len(),
        !chosen(filter, rows[k].1, t.columns),
        unvisited_kept(pages0, pages, rows, k),
        in_place_done(pages0, pages, t, rows, k, filter, targets),
    ensures
        unvisited_kept(pages0, pages, rows, k + 1),
        in_place_done(pages0, pages, t, rows, k + 1, filter, targets),
{
}

/// One row updated at `loc`: the rows the scan has not reached keep their
/// cells, and a row rewritten in place holds its new values.
proof fn lemma_update_in_place_step(
    ts: Seq<STable>,
    pages0: Seq<Seq<u8>>,
    pages: Seq<Seq<u8>>,
    pages2: Seq<Seq<u8>>,
    i: int,
    rows: Seq<SRow>,
    k: int,
    filter: Option<SExpr>,
    targets: Seq<(int, SValue)>,
)
    requires
        store_ok(ts, pages0),
        0 <= i < ts.len(),
        table_rows(pages0, ts[i]) == Some(rows),
        store_ok(ts, pages2),
        heap_chain(pages2, ts[i]) == heap_chain(pages0, ts[i]),
        pages.len() == pages0.len(),
        forall|q: int|
            0 <= q < pages0.len() ==> page_num_slots(#[trigger] pages0[q]) <= page_num_slots(pages[q]),
        0 <= k < rows.len(),
        chosen(filter, rows[k].1, ts[i].columns),
        crate::record::row_encodable(assigned(rows[k].1, targets)),
        unvisited_kept(pages0, pages, rows, k),
        in_place_done(pages0, pages, ts[i], rows, k, filter, targets),
        ({
            let loc = rows[k].0;
            let p = pages[loc.page_id as int];
            let p2 = pages2[loc.page_id as int];
            let cell = enc_row(assigned(rows[k].1, targets));
            &&& pages2 == pages.update(loc.page_id as int, p2)
            &&& page_num_slots(p) <= page_num_slots(p2)
            &&& forall|q: int|
                q != loc.slot && q != page_num_slots(p) ==> #[trigger] page_cell(p2, q) == page_cell(p, q)
            &&& (page_cell(p, loc.slot as int) matches Some(c) && c.len() == cell.len()) ==> page_cell(
                p2,
                loc.slot as int,
            ) == Some(cell)
        }),
        forall|z: SRow|
            #[trigger] table_rows(pages, ts[i]).unwrap().contains(z) && z.0 != rows[k].0 ==> table_rows(
                pages2,
                ts[i],
            ).unwrap().contains(z),
    ensures
        unvisited_kept(pages0, pages2, rows, k + 1),
        in_place_done(pages0, pages2, ts[i], rows, k + 1, filter, targets),
{
    let t = ts[i];
    let loc = rows[k].0;
    let id = loc.page_id as int;
    let p = pages[id];
    let p2 = pages2[id];
    let h = heap_chain(pages0, t);
    lemma_heap_chain(pages0, t);
    crate::heap::lemma_chain_rows_locs(pages0, h);
    assert forall|j: int| #![trigger rows[j]] k + 1 <= j < rows.len() implies page_cell(
        pages2[rows[j].0.page_id as int],
        rows[j].0.slot as int,
    ) == page_cell(pages0[rows[j].0.page_id as int], rows[j].0.slot as int) by {
        let l = rows[j].0;
        assert(rows.contains(rows[j]));
        crate::heap::lemma_chain_rows_member(pages0, h, rows[j]);
        let q = choose|q: int| 0 <= q < h.len() && h[q] == l.page_id;
        assert(0 < h[q] < pages0.len());
        assert(l != loc);
        if l.page_id as int == id {
            assert(page_num_slots(pages0[id]) <= page_num_slots(p));
            assert(page_cell(p2, l.slot as int) == page_cell(p, l.slot as int));
        }
    }
    let vs = assigned(rows[k].1, targets);
    assert forall|m: int| #![trigger rows[m]]
        0 <= m < k + 1 && chosen(filter, rows[m].1, t.columns) && in_place(pages0, rows[m], targets)
            implies table_rows(pages2, t).unwrap().contains((rows[m].0, assigned(rows[m].1, targets))) by {
        if m < k {
            assert(chain_rows(pages0, h).unwrap() == rows);
            assert(rows[m].0 != rows[k].0);
            assert(table_rows(pages, t).unwrap().contains((rows[m].0, assigned(rows[m].1, targets))));
        } else {
            assert(page_cell(p, loc.slot as int) == page_cell(pages0[id], loc.slot as int));
            assert(page_cell(p2, loc.slot as int) == Some(enc_row(vs)));
            crate::record::lemma_row_roundtrip(vs, Seq::<u8>::empty());
            assert(enc_row(vs) + Seq::<u8>::empty() =~= enc_row(vs));
            assert(rows.contains(rows[k]));
            crate::heap::lemma_chain_rows_member(pages0, h, rows[k]);
            lemma_heap_chain(pages2, t);
            crate::heap::lemma_chain_rows_member(pages2, h, (loc, vs));
        }
    }
}

/// Whether an assignment list sets column `q`.
pub open spec fn touches(targets: Seq<(int, SValue)>, q: int) -> bool {
    exists|j: int| 0 <= j < targets.len() && targets[j].0 == q
}

/// Assignments that do not set column `q` leave it as it was.
proof fn lemma_assigned_untouched(row: Seq<SValue>, targets: Seq<(int, SValue)>, q: int)
    requires
        !touches(targets, q),
    ensures
        assigned(row, targets).len() == row.len(),
        cell_at(assigned(row, targets), q) == cell_at(row, q),
    decreases targets.len(),
{
    if targets.len() > 0 {
        let init = targets.drop_last();
        assert(!touches(init, q)) by {
            if touches(init, q) {
                let j = choose|j: int| 0 <= j < init.len() && init[j].0 == q;
                assert(targets[j].0 == q);
            }
        }
        lemma_assigned_untouched(row, init, q);
        assert(targets[targets.len() - 1].0 != q);
    }
}

/// A row the scan has not reached yet still holds a set key that no other row
/// of the table holds, when the table's keys are sound.
proof fn lemma_unvisited_key_free(
    ts: Seq<STable>,
    pages0: Seq<Seq<u8>>,
    pages: Seq<Seq<u8>>,
    i: int,
    rows: Seq<SRow>,
    k: int,
    q: int,
)
    requires
        store_ok(ts, pages0),
        store_ok(ts, pages),
        0 <= i < ts.len(),
        table_rows(pages0, ts[i]) == Some(rows),
        heap_chain(pages, ts[i]) == heap_chain(pages0, ts[i]),
        0 <= k < rows.len(),
        unvisited_kept(pages0, pages, rows, k),
        key_position(ts[i].columns) == Some(q),
        table_keys_ok(ts[i], pages),
    ensures
        !(cell_at(rows[k].1, q) is Null),
        !key_taken(table_rows(pages, ts[i]).unwrap(), q, cell_at(rows[k].1, q), Some(rows[k].0)),
{
    let t = ts[i];
    let h = heap_chain(pages0, t);
    lemma_heap_chain(pages0, t);
    lemma_heap_chain(pages, t);
    let x = rows[k];
    assert(rows.contains(x));
    crate::heap::lemma_chain_rows_member(pages0, h, x);
    crate::heap::lemma_chain_rows_member(pages, h, x);
    let cur = table_rows(pages, t).unwrap();
    assert(cur.contains(x));
    let a = choose|a: int| 0 <= a < cur.len() && cur[a] == x;
    let cv = values_of(cur);
    assert(cv[a] == x.1);
    assert(!(cell_at(cv[a], q) is Null));
    if key_taken(cur, q, cell_at(x.1, q), Some(x.0)) {
        let j = choose|j: int|
            0 <= j < cur.len() && Some(cur[j].0) != Some(x.0) && #[trigger] compare(
                cell_at(cur[j].1, q),
                cell_at(x.1, q),
            ) == Some(Comparison::Equal);
        assert(j != a);
        assert(cv[j] == cur[j].1);
        assert(compare(cell_at(cv[j], q), cell_at(cv[a], q)) != Some(Comparison::Equal));
    }
}

/// The key the `m`-th row of the scan gets from an `UPDATE` is set and held by
/// no other row of `rows`.
pub open spec fn key_free_at(rows: Seq<SRow>, m: int, targets: Seq<(int, SValue)>, q: int) -> bool {
    let v = cell_at(assigned(rows[m].1, targets), q);
    !(v is Null) && !key_taken(rows, q, v, Some(rows[m].0))
}

/// Every row that passes the filter gets a key that is set and held by no
/// other row.
pub open spec fn keys_free(
    rows: Seq<SRow>,
    filter: Option<SExpr>,
    cols: Seq<SColumn>,
    targets: Seq<(int, SValue)>,
    q: int,
) -> bool {
    forall|m: int|
        #![trigger rows[m]]
        0 <= m < rows.len() && chosen(filter, rows[m].1, cols) ==> key_free_at(rows, m, targets, q)
}

/// If the `m`-th row of the scan is the first to pass the filter, it got a
/// free key.
pub open spec fn checked_if_first(
    rows: Seq<SRow>,
    m: int,
    filter: Option<SExpr>,
    cols: Seq<SColumn>,
    targets: Seq<(int, SValue)>,
) -> bool {
    chosen(filter, rows[m].1, cols) && matched_count(rows.take(m), filter, cols) == 0 ==> (
    key_position(cols) matches Some(q) ==> key_free_at(rows, m, targets, q))
}

/// The first row of the scan that passed the filter, once reached, got a free key.
pub open spec fn first_key_checked(
    rows: Seq<SRow>,
    k: int,
    filter: Option<SExpr>,
    cols: Seq<SColumn>,
    targets: Seq<(int, SValue)>,
) -> bool {
    forall|m: int| 0 <= m < k ==> #[trigger] checked_if_first(rows, m, filter, cols, targets)
}

proof fn lemma_matched_grows(rows: Seq<SRow>, a: int, b: int, filter: Option<SExpr>, cols: Seq<SColumn>)
    requires
        0 <= a <= b <= rows.len(),
    ensures
        matched_count(rows.take(a), filter, cols) <= matched_count(rows.take(b), filter, cols),
        a < b && chosen(filter, rows[a].1, cols) ==> matched_count(rows.take(a), filter, cols) + 1
            <= matched_count(rows.take(b), filter, cols),
    decreases b - a,
{
    if a < b {
        lemma_matched_grows(rows, a, b - 1, filter, cols);
        assert(rows.take(b).drop_last() =~= rows.take(b - 1));
        assert(rows.take(b).last() == rows[b - 1]);
    }
}

/// With exactly one row passing the filter, a row that passed it is the first
/// to do so.
proof fn lemma_single_match(rows: Seq<SRow>, m: int, filter: Option<SExpr>, cols: Seq<SColumn>)
    requires
        0 <= m < rows.len(),
        chosen(filter, rows[m].1, cols),
        matched_count(rows, filter, cols) == 1,
    ensures
        matched_count(rows.take(m), filter, cols) == 0,
{
    lemma_matched_grows(rows, m, rows.len() as int, filter, cols);
    assert(rows.take(rows.len() as int) =~= rows);
}

/// The value the last assignment to column `q` sets.
pub open spec fn assigned_value(targets: Seq<(int, SValue)>, q: int) -> SValue
    decreases targets.len(),
{
    if targets.len() == 0 {
        SValue::Null
    } else if targets.last().0 == q {
        targets.last().1
    } else {
        assigned_value(targets.drop_last(), q)
    }
}

/// Assignments that set column `q` give it the same value in every row that
/// has that column.
proof fn lemma_assigned_touched(row: Seq<SValue>, targets: Seq<(int, SValue)>, q: int)
    requires
        touches(targets, q),
        0 <= q < row.len(),
    ensures
        assigned(row, targets).len() == row.len(),
        cell_at(assigned(row, targets), q) == assigned_value(targets, q),
    decreases targets.len(),
{
    let init = targets.drop_last();
    if targets.last().0 == q {
        if touches(init, q) {
            lemma_assigned_touched(row, init, q);
        } else {
            lemma_assigned_untouched(row, init, q);
        }
    } else {
        let j = choose|j: int| 0 <= j < targets.len() && targets[j].0 == q;
        assert(j != targets.len() - 1);
        assert(init[j].0 == q);
        lemma_assigned_touched(row, init, q);
    }
}

proof fn lemma_compare_reflexive(v: SValue)
    requires
        !(v is Null),
    ensures
        compare(v, v) == Some(Comparison::Equal),
{
    if let SValue::Text(x) = v {
        lemma_order_text_equal(x, x);
    }
}

/// The `m`-th row of the scan is the first to pass the filter.
pub open spec fn first_chosen_at(rows: Seq<SRow>, m: int, filter: Option<SExpr>, cols: Seq<SColumn>) -> bool {
    &&& 0 <= m < rows.len()
    &&& chosen(filter, rows[m].1, cols)
    &&& matched_count(rows.take(m), filter, cols) == 0
}

/// The `m`-th row of the scan is the first to pass the filter, is rewritten in
/// place, and gets the key that the `UPDATE` assigns.
pub open spec fn blocks_second(
    pages0: Seq<Seq<u8>>,
    rows: Seq<SRow>,
    m: int,
    filter: Option<SExpr>,
    cols: Seq<SColumn>,
    targets: Seq<(int, SValue)>,
) -> bool {
    &&& first_chosen_at(rows, m, filter, cols)
    &&& in_place(pages0, rows[m], targets)
    &&& key_position(cols) matches Some(q) && touches(targets, q)
}

/// One of the first `k` rows of the scan blocks a second row from getting the
/// assigned key.
#[verifier::opaque]
pub open spec fn second_blocked(
    pages0: Seq<Seq<u8>>,
    rows: Seq<SRow>,
    k: int,
    filter: Option<SExpr>,
    cols: Seq<SColumn>,
    targets: Seq<(int, SValue)>,
) -> bool {
    exists|m: int| 0 <= m < k && #[trigger] blocks_second(pages0, rows, m, filter, cols, targets)
}

proof fn lemma_second_blocked_step(
    pages0: Seq<Seq<u8>>,
    rows: Seq<SRow>,
    k: int,
    filter: Option<SExpr>,
    cols: Seq<SColumn>,
    targets: Seq<(int, SValue)>,
)
    requires
        0 <= k,
    ensures
        second_blocked(pages0, rows, k + 1, filter, cols, targets) == (second_blocked(
            pages0,
            rows,
            k,
            filter,
            cols,
            targets,
        ) || blocks_second(pages0, rows, k, filter, cols, targets)),
        blocks_second(pages0, rows, k, filter, cols, targets) ==> matched_count(rows.take(k), filter, cols)
            == 0 && chosen(filter, rows[k].1, cols),
{
    reveal(second_blocked);
    if second_blocked(pages0, rows, k + 1, filter, cols, targets) {
        let m = choose|m: int| 0 <= m < k + 1 && #[trigger] blocks_second(pages0, rows, m, filter, cols, targets);
        if m < k {
            assert(0 <= m < k && blocks_second(pages0, rows, m, filter, cols, targets));
        }
    }
    if second_blocked(pages0, rows, k, filter, cols, targets) {
        let m = choose|m: int| 0 <= m < k && #[trigger] blocks_second(pages0, rows, m, filter, cols, targets);
        assert(0 <= m < k + 1 && blocks_second(pages0, rows, m, filter, cols, targets));
    }
    if blocks_second(pages0, rows, k, filter, cols, targets) {
        assert(0 <= k < k + 1 && blocks_second(pages0, rows, k, filter, cols, targets));
    }
}

/// When a later row that passes the filter got past the key check, no earlier
/// row blocked it.
proof fn lemma_no_second_block(
    ts: Seq<STable>,
    pages0: Seq<Seq<u8>>,
    pages: Seq<Seq<u8>>,
    i: int,
    rows: Seq<SRow>,
    k: int,
    filter: Option<SExpr>,
    targets: Seq<(int, SValue)>,
)
    requires
        store_ok(ts, pages0),
        0 <= i < ts.len(),
        table_rows(pages0, ts[i]) == Some(rows),
        table_rows(pages, ts[i]) is Some,
        0 <= k < rows.len(),
        first_key_checked(rows, k, filter, ts[i].columns, targets),
        in_place_done(pages0, pages, ts[i], rows, k, filter, targets),
        key_position(ts[i].columns) matches Some(q) ==> ({
            let v = cell_at(assigned(rows[k].1, targets), q);
            !(v is Null) && !key_taken(table_rows(pages, ts[i]).unwrap(), q, v, Some(rows[k].0))
        }),
    ensures
        !second_blocked(pages0, rows, k, filter, ts[i].columns, targets),
{
    reveal(second_blocked);
    if second_blocked(pages0, rows, k, filter, ts[i].columns, targets) {
        let m = choose|m: int|
            0 <= m < k && #[trigger] blocks_second(pages0, rows, m, filter, ts[i].columns, targets);
        let q = key_position(ts[i].columns).unwrap();
        assert(checked_if_first(rows, m, filter, ts[i].columns, targets));
        lemma_second_key_taken(ts, pages0, pages, i, rows, k, m, filter, targets, q);
    }
}

/// Once the first row that passed the filter holds the key the `UPDATE`
/// assigns, a later row that passes the filter finds that key missing or
/// taken.
proof fn lemma_second_key_taken(
    ts: Seq<STable>,
    pages0: Seq<Seq<u8>>,
    pages: Seq<Seq<u8>>,
    i: int,
    rows: Seq<SRow>,
    k: int,
    m: int,
    filter: Option<SExpr>,
    targets: Seq<(int, SValue)>,
    q: int,
)
    requires
        store_ok(ts, pages0),
        0 <= i < ts.len(),
        table_rows(pages0, ts[i]) == Some(rows),
        table_rows(pages, ts[i]) is Some,
        key_position(ts[i].columns) == Some(q),
        0 <= m < k < rows.len(),
        blocks_second(pages0, rows, m, filter, ts[i].columns, targets),
        checked_if_first(rows, m, filter, ts[i].columns, targets),
        in_place_done(pages0, pages, ts[i], rows, k, filter, targets),
    ensures
        ({
            let v = cell_at(assigned(rows[k].1, targets), q);
            v is Null || key_taken(table_rows(pages, ts[i]).unwrap(), q, v, Some(rows[k].0))
        }),
{
    let t = ts[i];
    let h = heap_chain(pages0, t);
    lemma_heap_chain(pages0, t);
    crate::heap::lemma_chain_rows_locs(pages0, h);
    assert(chain_rows(pages0, h).unwrap() == rows);
    assert(rows[m].0 != rows[k].0);
    let w = cell_at(assigned(rows[m].1, targets), q);
    let v = cell_at(assigned(rows[k].1, targets), q);
    assert(key_free_at(rows, m, targets, q));
    let z = (rows[m].0, assigned(rows[m].1, targets));
    let cur = table_rows(pages, t).unwrap();
    assert(cur.contains(z));
    if !(v is Null) {
        assert(touches(targets, q));
        lemma_assigned_touched_len(rows[k].1, targets);
        lemma_assigned_touched_len(rows[m].1, targets);
        lemma_assigned_touched(rows[k].1, targets, q);
        lemma_assigned_touched(rows[m].1, targets, q);
        assert(v == w);
        lemma_compare_reflexive(v);
        let j = choose|j: int| 0 <= j < cur.len() && cur[j] == z;
        assert(Some(cur[j].0) != Some(rows[k].0));
        assert(compare(cell_at(cur[j].1, q), v) == Some(Comparison::Equal));
    }
}

/// Assignments keep the length of a row.
proof fn lemma_assigned_touched_len(row: Seq<SValue>, targets: Seq<(int, SValue)>)
    ensures
        assigned(row, targets).len() == row.len(),
    decreases targets.len(),
{
    if targets.len() > 0 {
        lemma_assigned_touched_len(row, targets.drop_last());
    }
}

proof fn lemma_update_done(
    pages: Seq<Seq<u8>>,
    t: STable,
    cur: Seq<SRow>,
    filter: Option<SExpr>,
    targets: Seq<(int, SValue)>,
)
    requires
        heap_ok(pages, t),
        forall|z: SRow|
            #[trigger] cur.contains(z) ==> (table_rows(pages, t).unwrap().contains(z) && !deleted_by(
                table_rows(pages, t).unwrap(),
                table_rows(pages, t).unwrap().len() as int,
                filter,
                t.columns,
                z,
            )) || updated_from(
                table_rows(pages, t).unwrap(),
                table_rows(pages, t).unwrap().len() as int,
                filter,
                t.columns,
                targets,
                z,
            ),
    ensures
        forall|z: SRow|
            #[trigger] cur.contains(z) ==> update_result(
                table_rows(pages, t).unwrap(),
                filter,
                t.columns,
                targets,
                z,
            ),
{
    let rows = table_rows(pages, t).unwrap();
    let cols = t.columns;
    assert forall|z: SRow| #[trigger] cur.contains(z) implies update_result(rows, filter, cols, targets, z) by {
        if updated_from(rows, rows.len() as int, filter, cols, targets, z) {
            let m = choose|m: int|
                0 <= m < rows.len() && chosen(filter, rows[m].1, cols) && z.1 == assigned(rows[m].1, targets);
            assert(rows.contains(rows[m]));
        } else if rows.contains(z) && chosen(filter, z.1, cols) {
            let m = choose|m: int| 0 <= m < rows.len() && rows[m] == z;
            assert(0 <= m < rows.len() && rows[m].0 == z.0 && chosen(filter, rows[m].1, cols));
        }
    }
}

/// Every row that passes the filter still fits a page once updated.
pub open spec fn updates_fit(
    rows: Seq<SRow>,
    filter: Option<SExpr>,
    cols: Seq<SColumn>,
    targets: Seq<(int, SValue)>,
) -> bool {
    forall|x: SRow|
        rows.contains(x) && chosen(filter, x.1, cols) ==> row_fits(#[trigger] assigned(x.1, targets))
}

/// Every row that passes the filter fits a page once updated and keeps the
/// length of its stored cell, so each is rewritten in place and none needs
/// room on its page.
#[verifier::opaque]
pub open spec fn updates_placed(
    pages: Seq<Seq<u8>>,
    rows: Seq<SRow>,
    filter: Option<SExpr>,
    cols: Seq<SColumn>,
    targets: Seq<(int, SValue)>,
) -> bool {
    &&& updates_fit(rows, filter, cols, targets)
    &&& all_in_place(pages, rows, rows.len() as int, filter, cols, targets)
}

/// When an `UPDATE` of table `t`, whose rows were `rows`, succeeds or fails on
/// a key: never when it assigns no key column to sound keys or changes no row;
/// for one changed row, exactly when its new key is missing or taken; for two
/// or more, whenever the first is rewritten in place with the assigned key.
#[verifier::opaque]
pub open spec fn key_outcome(
    t: STable,
    pages: Seq<Seq<u8>>,
    rows: Seq<SRow>,
    filter: Option<SExpr>,
    targets: Seq<(int, SValue)>,
    r: Result<ExecResult>,
) -> bool {
    let cols = t.columns;
    &&& (key_position(cols) matches Some(q) && !touches(targets, q) && table_keys_ok(t, pages)
        && updates_placed(pages, rows, filter, cols, targets)) ==> r is Ok
    &&& matched_count(rows, filter, cols) == 0 ==> r is Ok
    &&& match key_position(cols) {
        Some(q) => matched_count(rows, filter, cols) == 1 && updates_placed(pages, rows, filter, cols, targets)
            ==> (r is Ok <==> keys_free(rows, filter, cols, targets, q)),
        None => true,
    }
    &&& (matched_count(rows, filter, cols) >= 2 && exists|m: int|
        #[trigger] blocks_second(pages, rows, m, filter, cols, targets)) ==> r is Err
}

/// What an `UPDATE` did: `pages` before, `pages2` after, `r` its result.
pub open spec fn update_done(
    ts: Seq<STable>,
    pages: Seq<Seq<u8>>,
    pages2: Seq<Seq<u8>>,
    upd: SUpdate,
    r: Result<ExecResult>,
) -> bool {
    match table_position(ts, upd.table) {
        None => r matches Err(e) && e is Catalog && pages2 == pages,
        Some(i) => {
            let cols = ts[i].columns;
            let rows = table_rows(pages, ts[i]).unwrap();
            let filter = upd.filter;
            match update_targets(cols, upd.assignments) {
                Err(k) => r matches Err(e) && kind(e) == k && pages2 == pages,
                Ok(targets) => {
                    &&& forall|j: int|
                        0 <= j < ts.len() && j != i ==> #[trigger] table_rows(pages2, ts[j])
                            == table_rows(pages, ts[j])
                    &&& table_rows(pages2, ts[i]) is Some
                    &&& if rows.len() > 0 && filter_error(filter, cols) is Some {
                        r matches Err(e) && Some(kind(e)) == filter_error(filter, cols)
                            && pages2 == pages
                    } else {
                        &&& table_keys_ok(ts[i], pages) ==> table_keys_ok(ts[i], pages2)
                        &&& forall|y: SRow|
                            #[trigger] rows.contains(y) && !chosen(filter, y.1, cols) ==> table_rows(
                                pages2,
                                ts[i],
                            ).unwrap().contains(y)
                        &&& r matches Ok(x) ==> x@ == SResult::Affected(
                            matched_count(rows, filter, cols),
                        ) && forall|z: SRow|
                            #[trigger] table_rows(pages2, ts[i]).unwrap().contains(z) ==> update_result(
                                rows,
                                filter,
                                cols,
                                targets,
                                z,
                            )
                        &&& r matches Err(e) ==> (e is Constraint && key_position(cols) is Some)
                            || (e is Storage && !updates_placed(pages, rows, filter, cols, targets))
                        &&& (r matches Err(e) && e is Storage) ==> stopped_without_room(
                            pages,
                            pages2,
                            ts[i],
                            rows,
                            filter,
                            targets,
                        )
                        &&& key_position(cols) is None && updates_placed(pages, rows, filter, cols, targets)
                            ==> r is Ok
                        &&& key_outcome(ts[i], pages, rows, filter, targets, r)
                        &&& r is Ok ==> in_place_done(
                            pages,
                            pages2,
                            ts[i],
                            rows,
                            rows.len() as int,
                            filter,
                            targets,
                        )
                        &&& r is Ok ==> updated_present(
                            pages,
                            pages2,
                            ts[i],
                            rows,
                            rows.len() as int,
                            filter,
                            targets,
                        )
                        &&& r is Ok ==> rewritten_upto(
                            pages,
                            pages2,
                            ts[i],
                            rows,
                            rows.len() as int,
                            filter,
                            targets,
                        )
                    }
                },
            }
        },
    }
}

/// An update of the `k`-th row of the scan that found no room, on a page whose
/// cell for that row is as it was, is not one rewritten in place.
proof fn lemma_update_no_room(
    pages0: Seq<Seq<u8>>,
    pages: Seq<Seq<u8>>,
    rows: Seq<SRow>,
    k: int,
    tv: Seq<(int, SValue)>,
)
    requires
        0 <= k < rows.len(),
        unvisited_kept(pages0, pages, rows, k),
        !(enc_row(assigned(rows[k].1, tv)).len() <= PAGE_SIZE - 12 && crate::heap::room_for_update(
            pages[rows[k].0.page_id as int],
            rows[k].0.slot as int,
            enc_row(assigned(rows[k].1, tv)),
        )),
    ensures
        !row_fits(assigned(rows[k].1, tv)) || !in_place(pages0, rows[k], tv),
{
    assert(page_cell(pages[rows[k].0.page_id as int], rows[k].0.slot as int) == page_cell(
        pages0[rows[k].0.page_id as int],
        rows[k].0.slot as int,
    ));
}

/// The new cell of row `x` fits a page, and its page in `pages` has room for
/// it, in place or in its free space.
pub open spec fn fits_at(pages: Seq<Seq<u8>>, x: SRow, targets: Seq<(int, SValue)>) -> bool {
    &&& row_fits(assigned(x.1, targets))
    &&& crate::heap::room_for_update(
        pages[x.0.page_id as int],
        x.0.slot as int,
        enc_row(assigned(x.1, targets)),
    )
}

/// The `UPDATE` stopped at the `k`-th row of the scan, which passed the
/// filter, still has the cell it had, and whose new cell fits neither in place
/// nor in the free space of its page as that page stands when the statement
/// stopped; every earlier row that passed the filter is in the table with its
/// new values.
#[verifier::opaque]
pub open spec fn stopped_without_room(
    pages0: Seq<Seq<u8>>,
    pages2: Seq<Seq<u8>>,
    t: STable,
    rows: Seq<SRow>,
    filter: Option<SExpr>,
    targets: Seq<(int, SValue)>,
) -> bool {
    exists|k: int|
        0 <= k < rows.len() && chosen(filter, rows[k].1, t.columns) && page_cell(
            pages2[rows[k].0.page_id as int],
            rows[k].0.slot as int,
        ) == page_cell(pages0[rows[k].0.page_id as int], rows[k].0.slot as int) && !fits_at(
            pages2,
            rows[k],
            targets,
        ) && #[trigger] updated_present(pages0, pages2, t, rows, k, filter, targets)
}

proof fn lemma_update_storage_error(
    ts: Seq<STable>,
    pages: Seq<Seq<u8>>,
    pages2: Seq<Seq<u8>>,
    u: SUpdate,
    i: int,
    tv: Seq<(int, SValue)>,
    x: SRow,
    k: int,
    e: Error,
)
    requires
        0 <= i < ts.len(),
        table_position(ts, u.table) == Some(i),
        update_targets(ts[i].columns, u.assignments) == core::result::Result::<
            Seq<(int, SValue)>,
            ErrorKind,
        >::Ok(tv),
        table_rows(pages, ts[i]) is Some,
        table_rows(pages2, ts[i]) is Some,
        filter_error(u.filter, ts[i].columns) is None,
        forall|j: int|
            0 <= j < ts.len() && j != i ==> #[trigger] table_rows(pages2, ts[j]) == table_rows(pages, ts[j]),
        forall|y: SRow|
            #[trigger] table_rows(pages, ts[i]).unwrap().contains(y) && !chosen(u.filter, y.1, ts[i].columns)
                ==> table_rows(pages2, ts[i]).unwrap().contains(y),
        table_rows(pages, ts[i]).unwrap().contains(x),
        chosen(u.filter, x.1, ts[i].columns),
        !row_fits(assigned(x.1, tv)) || !in_place(pages, x, tv),
        0 <= k < table_rows(pages, ts[i]).unwrap().len(),
        table_rows(pages, ts[i]).unwrap()[k] == x,
        !fits_at(pages2, x, tv),
        updated_present(pages, pages2, ts[i], table_rows(pages, ts[i]).unwrap(), k, u.filter, tv),
        unvisited_kept(pages, pages2, table_rows(pages, ts[i]).unwrap(), k),
        e is Storage,
        table_keys_ok(ts[i], pages) ==> table_keys_ok(ts[i], pages2),
    ensures
        update_done(ts, pages, pages2, u, Err(e)),
{
    let rows = table_rows(pages, ts[i]).unwrap();
    let cols = ts[i].columns;
    if !row_fits(assigned(x.1, tv)) {
        assert(!updates_fit(rows, u.filter, cols, tv));
    } else {
        let m = choose|m: int| 0 <= m < rows.len() && rows[m] == x;
        assert(!in_place(pages, rows[m], tv));
    }
    assert(!updates_placed(pages, rows, u.filter, cols, tv)) by {
        reveal(updates_placed);
    }
    lemma_chosen_counted(rows, x, u.filter, cols);
    assert(key_outcome(ts[i], pages, rows, u.filter, tv, Err(e))) by {
        reveal(key_outcome);
    }
    assert(stopped_without_room(pages, pages2, ts[i], rows, u.filter, tv)) by {
        reveal(stopped_without_room);
    }
}

/// A row that passes the filter is counted.
proof fn lemma_chosen_counted(rows: Seq<SRow>, x: SRow, filter: Option<SExpr>, cols: Seq<SColumn>)
    requires
        rows.contains(x),
        chosen(filter, x.1, cols),
    ensures
        matched_count(rows, filter, cols) >= 1,
{
    let m = choose|m: int| 0 <= m < rows.len() && rows[m] == x;
    lemma_matched_grows(rows, m, rows.len() as int, filter, cols);
    assert(rows.take(rows.len() as int) =~= rows);
}

/// Checks the key a row gets from an `UPDATE`: it must be set, and no row of
/// the table but the one at `loc` may hold it.
fn check_new_key<S: Storage + ?Sized>(
    storage: &S,
    schema: &TableSchema,
    new_values: &[Value],
    loc: RowLocation,
) -> (r: Result<()>)
    requires
        pages_wf(storage.page_image()),
        table_rows(storage.page_image(), schema@) is Some,
    ensures
        match key_position(schema@.columns) {
            Some(q) => r is Ok <==> !(cell_at(values_view(new_values@), q) is Null) && !key_taken(
                table_rows(storage.page_image(), schema@).unwrap(),
                q,
                cell_at(values_view(new_values@), q),
                Some(loc),
            ),
            None => r is Ok,
        },
        r matches Err(e) ==> e is Constraint,
{
    if let Some(pk) = schema.primary_key_index() {
        let key = cell(new_values, pk);
        if key.is_null() {
            return Err(
                Error::Constraint(quoted("primary key '", schema.columns[pk].name.as_str(), "' cannot be NULL")),
            );
        }
        if pk_exists(storage, schema, pk, &key, Some(loc))? {
            return Err(
                Error::Constraint(
                    quoted("duplicate primary key value in column '", schema.columns[pk].name.as_str(), "'"),
                ),
            );
        }
    }
    Ok(())
}

/// An `UPDATE` stopped by the key check of the `k`-th row of the scan, after
/// `c` rows were updated.
proof fn lemma_update_key_error(
    ts: Seq<STable>,
    pages: Seq<Seq<u8>>,
    pages2: Seq<Seq<u8>>,
    u: SUpdate,
    i: int,
    tv: Seq<(int, SValue)>,
    rows: Seq<SRow>,
    k: int,
    c: int,
    q: int,
    e: Error,
)
    requires
        0 <= i < ts.len(),
        table_position(ts, u.table) == Some(i),
        update_targets(ts[i].columns, u.assignments) == core::result::Result::<
            Seq<(int, SValue)>,
            ErrorKind,
        >::Ok(tv),
        table_rows(pages, ts[i]) == Some(rows),
        table_rows(pages2, ts[i]) is Some,
        filter_error(u.filter, ts[i].columns) is None,
        forall|j: int|
            0 <= j < ts.len() && j != i ==> #[trigger] table_rows(pages2, ts[j]) == table_rows(pages, ts[j]),
        forall|y: SRow|
            #[trigger] rows.contains(y) && !chosen(u.filter, y.1, ts[i].columns) ==> table_rows(
                pages2,
                ts[i],
            ).unwrap().contains(y),
        table_keys_ok(ts[i], pages) ==> table_keys_ok(ts[i], pages2),
        e is Constraint,
        key_position(ts[i].columns) == Some(q),
        touches(tv, q) || !table_keys_ok(ts[i], pages),
        0 <= k < rows.len(),
        chosen(u.filter, rows[k].1, ts[i].columns),
        0 <= c,
        matched_count(rows, u.filter, ts[i].columns) >= c + 1,
        c == 0 ==> !key_free_at(rows, k, tv, q),
    ensures
        update_done(ts, pages, pages2, u, Err(e)),
{
    reveal(key_outcome);
}

#[verifier::spinoff_prover]
#[verifier::rlimit(100)]
fn exec_update<S: Storage + ?Sized>(catalog: &Catalog, storage: &mut S, upd: Update) -> (r: Result<ExecResult>)
    requires
        store_ok(catalog@, old(storage).page_image()),
    ensures
        store_ok(catalog@, final(storage).page_image()),
        update_done(catalog@, old(storage).page_image(), final(storage).page_image(), upd@, r),
{
    let ghost ts = catalog@;
    let ghost pages0 = storage.page_image();
    let pos = match catalog.position(upd.table.as_str()) {
        Some(p) => p,
        None => {
            return Err(Error::Catalog(quoted("no such table '", upd.table.as_str(), "'")));
        },
    };
    let schema = &catalog.tables()[pos];
    let ghost t = ts[pos as int];
    let ghost cols = t.columns;
    let targets = resolve_targets(schema, &upd.assignments)?;
    let ghost tv = targets_view(targets@);
    proof {
        assert(schema@ == t);
        assert(tv =~= update_targets(cols, upd@.assignments).unwrap());
        lemma_heap_chain(pages0, t);
    }
    let located = heap::scan(storage, schema)?;
    let ghost rows = located_view(located@);
    let mut count: usize = 0;
    let mut k: usize = 0;
    proof {
        assert(rows.take(0) =~= Seq::<SRow>::empty());
        lemma_rewritten_start(pages0, t, rows, upd@.filter, tv);
        lemma_updated_present_start(pages0, t, rows, upd@.filter, tv);
    }
    while k < located.len()
        invariant
            ts == catalog@,
            pages0 == old(storage).page_image(),
            store_ok(ts, pages0),
            0 <= pos < ts.len(),
            table_position(ts, upd@.table) == Some(pos as int),
            t == ts[pos as int],
            schema@ == t,
            cols == t.columns,
            tv == targets_view(targets@),
            update_targets(cols, upd@.assignments) == core::result::Result::<
                Seq<(int, SValue)>,
                ErrorKind,
            >::Ok(tv),
            rows == located_view(located@),
            table_rows(pages0, t) == Some(rows),
            k <= located@.len(),
            count == matched_count(rows.take(k as int), upd@.filter, cols),
            count <= k,
            k == 0 ==> storage.page_image() == pages0,
            k > 0 ==> filter_error(upd@.filter, cols) is None,
            store_ok(ts, storage.page_image()),
            storage.page_image().len() == pages0.len(),
            forall|q: int|
                0 <= q < pages0.len() ==> page_num_slots(#[trigger] pages0[q]) <= page_num_slots(
                    storage.page_image()[q],
                ),
            forall|j: int|
                0 <= j < ts.len() ==> #[trigger] heap_chain(storage.page_image(), ts[j]) == heap_chain(
                    pages0,
                    ts[j],
                ),
            forall|j: int|
                0 <= j < ts.len() && j != pos ==> #[trigger] table_rows(storage.page_image(), ts[j])
                    == table_rows(pages0, ts[j]),
            forall|y: SRow|
                #[trigger] rows.contains(y) && !chosen(upd@.filter, y.1, cols) ==> table_rows(
                    storage.page_image(),
                    t,
                ).unwrap().contains(y),
            forall|z: SRow|
                #[trigger] table_rows(storage.page_image(), t).unwrap().contains(z) ==> (rows.contains(z)
                    && !deleted_by(rows, k as int, upd@.filter, cols, z)) || updated_from(
                    rows,
                    k as int,
                    upd@.filter,
                    cols,
                    tv,
                    z,
                ),
            forall|x: SRow|
                rows.contains(x) && chosen(upd@.filter, x.1, cols) && !row_fits(
                    #[trigger] assigned(x.1, tv),
                ) ==> forall|m: int| 0 <= m < k ==> rows[m] != x,
            table_keys_ok(t, pages0) ==> table_keys_ok(t, storage.page_image()),
            unvisited_kept(pages0, storage.page_image(), rows, k as int),
            in_place_done(pages0, storage.page_image(), t, rows, k as int, upd@.filter, tv),
            count == 0 ==> storage.page_image() == pages0,
            first_key_checked(rows, k as int, upd@.filter, cols, tv),
            second_blocked(pages0, rows, k as int, upd@.filter, cols, tv) ==> count <= 1,
            rewritten_upto(pages0, storage.page_image(), t, rows, k as int, upd@.filter, tv),
            updated_present(pages0, storage.page_image(), t, rows, k as int, upd@.filter, tv),
        decreases located@.len() - k,
    {
        let ghost pages_now = storage.page_image();
        let ghost row = rows[k as int];
        proof {
            assert(rows.take(k + 1).drop_last() =~= rows.take(k as int));
            assert(rows.take(k + 1).last() == row);
            lemma_passes_error(upd@.filter, row.1, cols);
            assert(rows.contains(row));
        }
        let matched = filter_matches(&upd.filter, located[k].values.as_slice(), schema)?;
        if matched {
            let loc = located[k].location;
            let new_values = apply_targets(located[k].values.as_slice(), &targets);
            let ghost vs = values_view(new_values@);
            proof {
                lemma_heap_chain(pages0, t);
                let h = heap_chain(pages0, t);
                crate::heap::lemma_chain_rows_member(pages0, h, row);
                lemma_heap_chain(pages_now, t);
                let k1 = choose|q: int| 0 <= q < h.len() && h[q] == loc.page_id;
                assert(0 < h[k1] < pages_now.len());
                assert(page_num_slots(pages0[loc.page_id as int]) <= page_num_slots(
                    pages_now[loc.page_id as int],
                ));
            }
            let ghost key_free = match key_position(cols) {
                Some(q) => !(cell_at(vs, q) is Null) && !key_taken(
                    table_rows(pages_now, t).unwrap(),
                    q,
                    cell_at(vs, q),
                    Some(loc),
                ),
                None => true,
            };
            proof {
                assert(row.1 == values_view(located@[k as int].values@));
                if let Some(q) = key_position(cols) {
                    if !touches(tv, q) && table_keys_ok(t, pages0) {
                        lemma_assigned_untouched(row.1, tv, q);
                        lemma_unvisited_key_free(ts, pages0, pages_now, pos as int, rows, k as int, q);
                    }
                }
                lemma_matched_grows(rows, k as int, rows.len() as int, upd@.filter, cols);
                assert(rows.take(rows.len() as int) =~= rows);
                assert(matched_count(rows, upd@.filter, cols) >= count + 1);
            }
            let checked = check_new_key(storage, schema, new_values.as_slice(), loc);
            if let Err(e) = checked {
                proof {
                    assert(storage.page_image() == pages_now);
                    assert(filter_error(upd@.filter, cols) is None);
                    let q = key_position(cols).unwrap();
                    lemma_update_key_error(
                        ts,
                        pages0,
                        storage.page_image(),
                        upd@,
                        pos as int,
                        tv,
                        rows,
                        k as int,
                        count as int,
                        q,
                        e,
                    );
                }
                return Err(e);
            }
            proof {
                if count == 0 {
                    if let Some(q) = key_position(cols) {
                        assert(table_rows(pages_now, t) == Some(rows));
                        assert(key_free_at(rows, k as int, tv, q));
                    }
                }
                assert(checked_if_first(rows, k as int, upd@.filter, cols, tv));
                lemma_second_blocked_step(pages0, rows, k as int, upd@.filter, cols, tv);
                if count >= 1 {
                    lemma_no_second_block(ts, pages0, pages_now, pos as int, rows, k as int, upd@.filter, tv);
                }
            }
            match heap::update_row(storage, loc, new_values.as_slice()) {
                Ok(()) => {},
                Err(e) => {
                    proof {
                        assert(row.1 == values_view(located@[k as int].values@));
                        assert(storage.page_image() == pages_now);
                        assert(filter_error(upd@.filter, cols) is None);
                        lemma_update_no_room(pages0, pages_now, rows, k as int, tv);
                        lemma_update_storage_error(
                            ts,
                            pages0,
                            storage.page_image(),
                            upd@,
                            pos as int,
                            tv,
                            row,
                            k as int,
                            e,
                        );
                    }
                    return Err(e);
                },
            }
            proof {
                let p2 = storage.page_image()[loc.page_id as int];
                assert(storage.page_image() == pages_now.update(loc.page_id as int, p2));
                lemma_update_rows(ts, pages_now, pos as int, loc, vs, p2);
                assert(key_free);
                if table_keys_ok(t, pages0) {
                    if let Some(q) = key_position(cols) {
                        assert(heap_ok(storage.page_image(), ts[pos as int]));
                        lemma_table_locs(storage.page_image(), t);
                        lemma_update_keys(
                            table_rows(pages_now, t).unwrap(),
                            table_rows(storage.page_image(), t).unwrap(),
                            loc,
                            moved_to(pages_now[loc.page_id as int], p2, loc),
                            vs,
                            q,
                        );
                    }
                }
                lemma_update_members_step(
                    pages0,
                    pages_now,
                    storage.page_image(),
                    t,
                    rows,
                    k as int,
                    upd@.filter,
                    tv,
                    moved_to(pages_now[loc.page_id as int], p2, loc),
                );
                assert forall|q: int|
                    0 <= q < pages0.len() implies page_num_slots(#[trigger] pages0[q]) <= page_num_slots(
                    storage.page_image()[q],
                ) by {
                    assert(page_num_slots(pages0[q]) <= page_num_slots(pages_now[q]));
                }
            }
            proof {
                assert(row.1 == values_view(located@[k as int].values@));
                lemma_update_in_place_step(
                    ts,
                    pages0,
                    pages_now,
                    storage.page_image(),
                    pos as int,
                    rows,
                    k as int,
                    upd@.filter,
                    tv,
                );
                if in_place(pages0, row, tv) {
                    let p2 = storage.page_image()[loc.page_id as int];
                    assert(page_cell(pages_now[loc.page_id as int], loc.slot as int) == page_cell(
                        pages0[loc.page_id as int],
                        loc.slot as int,
                    ));
                    lemma_update_in_place_rows(ts, pages_now, pos as int, loc, vs, p2);
                }
                lemma_rewritten_step(
                    ts,
                    pages0,
                    pages_now,
                    storage.page_image(),
                    pos as int,
                    rows,
                    k as int,
                    upd@.filter,
                    tv,
                );
                lemma_updated_present_step(
                    ts,
                    pages0,
                    pages_now,
                    storage.page_image(),
                    pos as int,
                    rows,
                    k as int,
                    upd@.filter,
                    tv,
                );
            }
            count = count + 1;
        } else {
            proof {
                assert(row.1 == values_view(located@[k as int].values@));
                assert(checked_if_first(rows, k as int, upd@.filter, cols, tv));
                lemma_second_blocked_step(pages0, rows, k as int, upd@.filter, cols, tv);
                lemma_update_skip_step(pages0, storage.page_image(), t, rows, k as int, upd@.filter, tv);
                lemma_rewritten_skip(pages0, storage.page_image(), t, rows, k as int, upd@.filter, tv);
                lemma_updated_present_skip(pages0, storage.page_image(), t, rows, k as int, upd@.filter, tv);
                assert forall|z: SRow|
                    #[trigger] table_rows(storage.page_image(), t).unwrap().contains(z) implies (rows.contains(z)
                        && !deleted_by(rows, k + 1, upd@.filter, cols, z)) || updated_from(
                        rows,
                        k + 1,
                        upd@.filter,
                        cols,
                        tv,
                        z,
                    ) by {
                    if updated_from(rows, k as int, upd@.filter, cols, tv, z) {
                        let m = choose|m: int|
                            0 <= m < k && chosen(upd@.filter, rows[m].1, cols) && z.1 == assigned(rows[m].1, tv);
                        assert(0 <= m < k + 1);
                    }
                    if deleted_by(rows, k + 1, upd@.filter, cols, z) {
                        let m = choose|m: int|
                            0 <= m < k + 1 && rows[m].0 == z.0 && chosen(upd@.filter, rows[m].1, cols);
                        assert(m < k);
                    }
                }
            }
        }
        proof {
            assert forall|x: SRow|
                rows.contains(x) && chosen(upd@.filter, x.1, cols) && !row_fits(
                    #[trigger] assigned(x.1, tv),
                ) implies forall|m: int| 0 <= m < k + 1 ==> rows[m] != x by {
                if !matched {
                    assert(row != x);
                }
            }
        }
        k = k + 1;
    }
    proof {
        assert(rows.take(located@.len() as int) =~= rows);
        assert(heap_ok(storage.page_image(), ts[pos as int]));
        lemma_heap_chain(storage.page_image(), t);
        lemma_update_done(pages0, t, table_rows(storage.page_image(), t).unwrap(), upd@.filter, tv);
        assert(located@.len() > 0 ==> filter_error(upd@.filter, cols) is None);
        reveal(second_blocked);
        reveal(key_outcome);
        if let Some(q) = key_position(cols) {
            if matched_count(rows, upd@.filter, cols) == 1 {
                assert forall|m: int| #![trigger rows[m]]
                    0 <= m < rows.len() && chosen(upd@.filter, rows[m].1, cols) implies key_free_at(
                    rows,
                    m,
                    tv,
                    q,
                ) by {
                    lemma_single_match(rows, m, upd@.filter, cols);
                    assert(checked_if_first(rows, m, upd@.filter, cols, tv));
                }
            }
        }
    }
    Ok(ExecResult::Affected(count))
}

// --- Statements ------------------------------------------------------------------------------

/// A table without heap pages can join a sound store.
proof fn lemma_create_keeps_store(ts: Seq<STable>, pages: Seq<Seq<u8>>, t: STable)
    requires
        store_ok(ts, pages),
        t.first_page == 0,
        t.last_page == 0,
    ensures
        store_ok(ts.push(t), pages),
{
    let ts2 = ts.push(t);
    let e = Seq::<u32>::empty();
    assert(crate::heap::chain_links(pages, e));
    assert(chain_of(pages, t, e));
    assert(chain_rows(pages, e) is Some);
    assert(heap_ok(pages, t));
    lemma_heap_chain(pages, t);
    assert(heap_chain(pages, t) == e);
    assert forall|j: int| 0 <= j < ts2.len() implies #[trigger] heap_ok(pages, ts2[j]) by {
        if j < ts.len() {
            assert(ts2[j] == ts[j]);
        }
    }
    assert forall|a: int, b: int, x: u32|
        0 <= a < ts2.len() && 0 <= b < ts2.len() && a != b && #[trigger] heap_chain(
            pages,
            ts2[a],
        ).contains(x) implies !#[trigger] heap_chain(pages, ts2[b]).contains(x) by {
        if a < ts.len() && b < ts.len() {
            assert(ts2[a] == ts[a] && ts2[b] == ts[b]);
            assert(heap_chain(pages, ts[a]).contains(x));
        } else if a == ts.len() {
            assert(ts2[a] == t);
        } else {
            assert(ts2[b] == t);
        }
    }
}

/// What running a bound statement did: `ts`, `pages` before, `ts2`,
/// `pages2` after, `r` its result.
pub open spec fn executed(
    ts: Seq<STable>,
    pages: Seq<Seq<u8>>,
    st: SStatement,
    ts2: Seq<STable>,
    pages2: Seq<Seq<u8>>,
    r: Result<ExecResult>,
) -> bool {
    match st {
        SStatement::CreateTable(c) => pages2 == pages && match create_outcome(ts, c) {
            Ok((t2, res)) => r matches Ok(x) && x@ == res && ts2 == t2,
            Err(k) => r matches Err(e) && kind(e) == k && ts2 == ts,
        },
        SStatement::Insert(i) => insert_done(ts, pages, ts2, pages2, i, r),
        SStatement::Select(q) => ts2 == ts && pages2 == pages && match select_outcome(ts, pages, q) {
            Ok(res) => r matches Ok(x) && x@ == res,
            Err(k) => r matches Err(e) && kind(e) == k,
        },
        SStatement::Update(u) => ts2 == ts && update_done(ts, pages, pages2, u, r),
        SStatement::Delete(d) => ts2 == ts && delete_done(ts, pages, pages2, d, r),
    }
}

/// Executes one statement against the given catalog and storage, after
/// binding its placeholders to `params` in order.
pub fn execute<S: Storage + ?Sized>(
    catalog: &mut Catalog,
    storage: &mut S,
    stmt: Statement,
    params: &[Value],
) -> (r: Result<ExecResult>)
    requires
        store_ok(old(catalog)@, old(storage).page_image()),
    ensures
        store_ok(final(catalog)@, final(storage).page_image()),
        keys_ok(old(catalog)@, old(storage).page_image()) ==> keys_ok(
            final(catalog)@,
            final(storage).page_image(),
        ),
        match bind_all(stmt@, values_view(params@)) {
            None => r matches Err(e) && e is Parameter && final(catalog)@ == old(catalog)@
                && final(storage).page_image() == old(storage).page_image(),
            Some(st) => executed(
                old(catalog)@,
                old(storage).page_image(),
                st,
                final(catalog)@,
                final(storage).page_image(),
                r,
            ),
        },
{
    let ghost ts = catalog@;
    let ghost pages = storage.page_image();
    let stmt = bind_params(stmt, params)?;
    match stmt {
        Statement::CreateTable(c) => {
            let ghost cv = c@;
            let r = exec_create_table(catalog, c);
            proof {
                if r is Ok && table_position(ts, cv.name) is None {
                    lemma_create_keeps_store(ts, pages, new_table(cv));
                    if keys_ok(ts, pages) {
                        lemma_create_keeps_keys(ts, pages, new_table(cv));
                    }
                }
            }
            r
        },
        Statement::Insert(i) => {
            let ghost iv = i@;
            let r = exec_insert(catalog, storage, i);
            proof {
                if keys_ok(ts, pages) {
                    lemma_insert_keeps_keys(ts, pages, iv, catalog@, storage.page_image(), r);
                }
            }
            r
        },
        Statement::Select(s) => exec_select(catalog, storage, s),
        Statement::Update(u) => {
            let ghost uv = u@;
            let r = exec_update(catalog, storage, u);
            proof {
                if keys_ok(ts, pages) {
                    lemma_update_keeps_keys(ts, pages, storage.page_image(), uv, r);
                }
            }
            r
        },
        Statement::Delete(d) => {
            let ghost dv = d@;
            let r = exec_delete(catalog, storage, d);
            proof {
                if keys_ok(ts, pages) {
                    lemma_delete_keeps_keys(ts, pages, storage.page_image(), dv, r);
                }
            }
            r
        },
    }
}

/// The name and type of each column, in order.
pub fn describe_columns(cols: &[Column]) -> (r: Vec<(String, DataType)>)
    ensures
        r@.len() == cols@.len(),
        forall|i: int|
            0 <= i < cols@.len() ==> (#[trigger] r@[i]).0@ == cols@[i].name@ && r@[i].1
                == cols@[i].data_type,
{
    let mut out: Vec<(String, DataType)> = Vec::new();
    let mut i: usize = 0;
    while i < cols.len()
        invariant
            i <= cols@.len(),
            out@.len() == i,
            forall|k: int|
                0 <= k < i ==> (#[trigger] out@[k]).0@ == cols@[k].name@ && out@[k].1
                    == cols@[k].data_type,
        decreases cols@.len() - i,
    {
        out.push((cols[i].name.clone(), cols[i].data_type));
        i = i + 1;
    }
    out
}

// --- Primary keys stay unique ------------------------------------------------------------

/// The values in column `k` of the rows are set and pairwise different (by
/// `compare`).
pub open spec fn keys_unique(vals: Seq<Seq<SValue>>, k: int) -> bool {
    &&& forall|a: int| 0 <= a < vals.len() ==> !(#[trigger] cell_at(vals[a], k) is Null)
    &&& forall|a: int, b: int|
        0 <= a < vals.len() && 0 <= b < vals.len() && a != b ==> #[trigger] compare(
            cell_at(vals[a], k),
            cell_at(vals[b], k),
        ) != Some(Comparison::Equal)
}

/// A table with a primary key holds set, pairwise different keys.
pub open spec fn table_keys_ok(t: STable, pages: Seq<Seq<u8>>) -> bool {
    match key_position(t.columns) {
        Some(k) => keys_unique(values_of(table_rows(pages, t).unwrap()), k),
        None => true,
    }
}

/// Every table with a primary key holds set, pairwise different keys.
pub open spec fn keys_ok(ts: Seq<STable>, pages: Seq<Seq<u8>>) -> bool {
    forall|i: int| 0 <= i < ts.len() ==> #[trigger] table_keys_ok(ts[i], pages)
}

proof fn lemma_order_text_equal(a: Seq<char>, b: Seq<char>)
    ensures
        order_text(a, b) == Comparison::Equal <==> a == b,
    decreases a.len(),
{
    if a.len() > 0 && b.len() > 0 {
        lemma_order_text_equal(a.skip(1), b.skip(1));
        if a[0] == b[0] && a.skip(1) == b.skip(1) {
            assert(a =~= seq![a[0]] + a.skip(1));
            assert(b =~= seq![b[0]] + b.skip(1));
        }
        if a == b {
            assert(a.skip(1) == b.skip(1));
        }
    } else if a.len() == 0 && b.len() == 0 {
        assert(a =~= b);
    }
}

/// Comparing equal is symmetric.
pub proof fn lemma_compare_symmetric(a: SValue, b: SValue)
    ensures
        compare(a, b) == Some(Comparison::Equal) <==> compare(b, a) == Some(Comparison::Equal),
{
    match (a, b) {
        (SValue::Text(x), SValue::Text(y)) => {
            lemma_order_text_equal(x, y);
            lemma_order_text_equal(y, x);
        },
        _ => {},
    }
}

proof fn lemma_keys_prefix(vals: Seq<Seq<SValue>>, m: int, k: int)
    requires
        keys_unique(vals, k),
        0 <= m <= vals.len(),
    ensures
        keys_unique(vals.take(m), k),
{
    let t = vals.take(m);
    assert forall|a: int| 0 <= a < t.len() implies !(#[trigger] cell_at(t[a], k) is Null) by {
        assert(t[a] == vals[a]);
    }
    assert forall|a: int, b: int| 0 <= a < t.len() && 0 <= b < t.len() && a != b implies #[trigger] compare(
        cell_at(t[a], k),
        cell_at(t[b], k),
    ) != Some(Comparison::Equal) by {
        assert(t[a] == vals[a] && t[b] == vals[b]);
    }
}

/// One more row whose key is set and held by none of the rows keeps the
/// keys unique.
proof fn lemma_keys_push(vals: Seq<Seq<SValue>>, vs: Seq<SValue>, k: int)
    requires
        keys_unique(vals, k),
        !(cell_at(vs, k) is Null),
        !value_taken(vals, k, cell_at(vs, k)),
    ensures
        keys_unique(vals.push(vs), k),
{
    let w = vals.push(vs);
    let n = vals.len() as int;
    assert forall|a: int| 0 <= a < w.len() implies !(#[trigger] cell_at(w[a], k) is Null) by {
        if a < n {
            assert(w[a] == vals[a]);
        }
    }
    assert forall|a: int, b: int| 0 <= a < w.len() && 0 <= b < w.len() && a != b implies #[trigger] compare(
        cell_at(w[a], k),
        cell_at(w[b], k),
    ) != Some(Comparison::Equal) by {
        if a < n && b < n {
            assert(w[a] == vals[a] && w[b] == vals[b]);
        } else if a == n {
            assert(w[b] == vals[b]);
            lemma_compare_symmetric(cell_at(vals[b], k), cell_at(vs, k));
            assert(!(compare(cell_at(vals[b], k), cell_at(vs, k)) == Some(Comparison::Equal)));
        } else {
            assert(w[a] == vals[a]);
            assert(!(compare(cell_at(vals[a], k), cell_at(vs, k)) == Some(Comparison::Equal)));
        }
    }
}

/// The rows an `INSERT` appends keep the keys unique.
proof fn lemma_inserted_keys(
    cols: Seq<SColumn>,
    positions: Seq<int>,
    rows: Seq<Seq<SExpr>>,
    existing: Seq<Seq<SValue>>,
    k: int,
)
    requires
        key_position(cols) == Some(k),
        keys_unique(existing, k),
        forall|q: int| 0 <= q < positions.len() ==> 0 <= #[trigger] positions[q] < cols.len(),
    ensures
        keys_unique(existing + inserted(cols, positions, rows, existing).0, k),
    decreases rows.len(),
{
    if rows.len() == 0 {
        assert(existing + Seq::<Seq<SValue>>::empty() =~= existing);
    } else {
        match checked_row(cols, positions, rows[0], existing) {
            Ok(vs) => {
                lemma_built_row_len(cols, positions, rows[0]);
                let c = choose|c: int| crate::catalog::is_first_key(cols, c);
                assert(crate::catalog::is_first_key(cols, c));
                assert(cell_at(vs, k) == vs[k]);
                lemma_keys_push(existing, vs, k);
                lemma_inserted_keys(cols, positions, rows.skip(1), existing.push(vs), k);
                let rest = inserted(cols, positions, rows.skip(1), existing.push(vs)).0;
                assert(existing + (seq![vs] + rest) =~= existing.push(vs) + rest);
            },
            Err(_) => {
                assert(existing + Seq::<Seq<SValue>>::empty() =~= existing);
            },
        }
    }
}

/// Rows at distinct locations that all come from rows with unique keys have
/// unique keys.
proof fn lemma_keys_subset(old: Seq<SRow>, new: Seq<SRow>, k: int)
    requires
        keys_unique(values_of(old), k),
        forall|z: SRow| #[trigger] new.contains(z) ==> old.contains(z),
        forall|a: int, b: int|
            0 <= a < new.len() && 0 <= b < new.len() && a != b ==> (#[trigger] new[a]).0 != (
            #[trigger] new[b]).0,
    ensures
        keys_unique(values_of(new), k),
{
    let nv = values_of(new);
    let ov = values_of(old);
    assert forall|a: int| 0 <= a < nv.len() implies !(#[trigger] cell_at(nv[a], k) is Null) by {
        assert(new.contains(new[a]));
        let x = choose|x: int| 0 <= x < old.len() && old[x] == new[a];
        assert(ov[x] == nv[a]);
    }
    assert forall|a: int, b: int| 0 <= a < nv.len() && 0 <= b < nv.len() && a != b implies #[trigger] compare(
        cell_at(nv[a], k),
        cell_at(nv[b], k),
    ) != Some(Comparison::Equal) by {
        assert(new.contains(new[a]) && new.contains(new[b]));
        let x = choose|x: int| 0 <= x < old.len() && old[x] == new[a];
        let y = choose|y: int| 0 <= y < old.len() && old[y] == new[b];
        assert(new[a].0 != new[b].0);
        assert(ov[x] == nv[a] && ov[y] == nv[b]);
    }
}

/// Rows after an update of the row at `loc` to `vs`, whose key no other row
/// held, have unique keys.
proof fn lemma_update_keys(
    cur: Seq<SRow>,
    new: Seq<SRow>,
    loc: RowLocation,
    nl: RowLocation,
    vs: Seq<SValue>,
    k: int,
)
    requires
        keys_unique(values_of(cur), k),
        forall|z: SRow|
            #[trigger] new.contains(z) ==> (cur.contains(z) && z.0 != loc) || (z.0 == nl && z.1 == vs),
        forall|a: int, b: int|
            0 <= a < new.len() && 0 <= b < new.len() && a != b ==> (#[trigger] new[a]).0 != (
            #[trigger] new[b]).0,
        !(cell_at(vs, k) is Null),
        !key_taken(cur, k, cell_at(vs, k), Some(loc)),
    ensures
        keys_unique(values_of(new), k),
{
    let nv = values_of(new);
    let cv = values_of(cur);
    assert forall|a: int| 0 <= a < nv.len() implies !(#[trigger] cell_at(nv[a], k) is Null) by {
        assert(new.contains(new[a]));
        if cur.contains(new[a]) && new[a].0 != loc {
            let x = choose|x: int| 0 <= x < cur.len() && cur[x] == new[a];
            assert(cv[x] == nv[a]);
        }
    }
    assert forall|a: int, b: int| 0 <= a < nv.len() && 0 <= b < nv.len() && a != b implies #[trigger] compare(
        cell_at(nv[a], k),
        cell_at(nv[b], k),
    ) != Some(Comparison::Equal) by {
        let za = new[a];
        let zb = new[b];
        assert(new.contains(za) && new.contains(zb));
        assert(za.0 != zb.0);
        let oa = cur.contains(za) && za.0 != loc;
        let ob = cur.contains(zb) && zb.0 != loc;
        if oa && ob {
            let x = choose|x: int| 0 <= x < cur.len() && cur[x] == za;
            let y = choose|y: int| 0 <= y < cur.len() && cur[y] == zb;
            assert(cv[x] == nv[a] && cv[y] == nv[b]);
        } else if oa {
            let x = choose|x: int| 0 <= x < cur.len() && cur[x] == za;
            assert(!(compare(cell_at(cur[x].1, k), cell_at(vs, k)) == Some(Comparison::Equal)));
        } else if ob {
            let y = choose|y: int| 0 <= y < cur.len() && cur[y] == zb;
            assert(!(compare(cell_at(cur[y].1, k), cell_at(vs, k)) == Some(Comparison::Equal)));
            lemma_compare_symmetric(cell_at(cur[y].1, k), cell_at(vs, k));
        }
    }
}

/// The rows of a sound heap sit at distinct locations.
proof fn lemma_table_locs(pages: Seq<Seq<u8>>, t: STable)
    requires
        heap_ok(pages, t),
    ensures
        forall|a: int, b: int|
            0 <= a < table_rows(pages, t).unwrap().len() && 0 <= b < table_rows(pages, t).unwrap().len()
                && a != b ==> (#[trigger] table_rows(pages, t).unwrap()[a]).0 != (
            #[trigger] table_rows(pages, t).unwrap()[b]).0,
{
    lemma_heap_chain(pages, t);
    crate::heap::lemma_chain_rows_locs(pages, heap_chain(pages, t));
}

proof fn lemma_insert_keeps_keys(
    ts: Seq<STable>,
    pages: Seq<Seq<u8>>,
    ins: SInsert,
    ts2: Seq<STable>,
    pages2: Seq<Seq<u8>>,
    r: Result<ExecResult>,
)
    requires
        store_ok(ts, pages),
        store_ok(ts2, pages2),
        insert_done(ts, pages, ts2, pages2, ins, r),
        keys_ok(ts, pages),
    ensures
        keys_ok(ts2, pages2),
{
    match insert_target(ts, ins) {
        Err(_) => {},
        Ok((i, positions)) => {
            let cols = ts[i].columns;
            assert forall|q: int| 0 <= q < positions.len() implies 0 <= #[trigger] positions[q]
                < cols.len() by {
                match ins.columns {
                    None => {},
                    Some(ns) => {
                        assert(column_position(cols, ns[q]) is Some);
                        let c = choose|c: int| is_first_column(cols, ns[q], c);
                        assert(is_first_column(cols, ns[q], c));
                    },
                }
            }
            assert forall|j: int| 0 <= j < ts2.len() implies #[trigger] table_keys_ok(ts2[j], pages2) by {
                assert(table_keys_ok(ts[j], pages));
                if j != i {
                    assert(table_rows(pages2, ts2[j]) == table_rows(pages, ts[j]));
                    assert(ts2[j] == ts[j]);
                } else {
                    if let Some(k) = key_position(cols) {
                        assert(heap_ok(pages, ts[i]));
                        lemma_heap_chain(pages, ts[i]);
                        let old_rows = table_rows(pages, ts[i]).unwrap();
                        let new_rows = table_rows(pages2, ts2[i]).unwrap();
                        let ex = values_of(old_rows);
                        let out = inserted(cols, positions, ins.rows, ex);
                        lemma_inserted_keys(cols, positions, ins.rows, ex, k);
                        if values_of(new_rows) != ex + out.0 {
                            let m = new_rows.len() - old_rows.len();
                            assert(ex + out.0.take(m) =~= (ex + out.0).take(ex.len() + m));
                            lemma_keys_prefix(ex + out.0, ex.len() + m, k);
                        }
                    }
                }
            }
        },
    }
}

proof fn lemma_delete_keeps_keys(
    ts: Seq<STable>,
    pages: Seq<Seq<u8>>,
    pages2: Seq<Seq<u8>>,
    del: SDelete,
    r: Result<ExecResult>,
)
    requires
        store_ok(ts, pages),
        store_ok(ts, pages2),
        delete_done(ts, pages, pages2, del, r),
        keys_ok(ts, pages),
    ensures
        keys_ok(ts, pages2),
{
    if let Some(i) = table_position(ts, del.table) {
        assert forall|j: int| 0 <= j < ts.len() implies #[trigger] table_keys_ok(ts[j], pages2) by {
            assert(table_keys_ok(ts[j], pages));
            if j != i {
                assert(table_rows(pages2, ts[j]) == table_rows(pages, ts[j]));
            } else if pages2 != pages {
                if let Some(k) = key_position(ts[i].columns) {
                    assert(heap_ok(pages2, ts[i]));
                    lemma_table_locs(pages2, ts[i]);
                    lemma_keys_subset(
                        table_rows(pages, ts[i]).unwrap(),
                        table_rows(pages2, ts[i]).unwrap(),
                        k,
                    );
                }
            }
        }
    }
}

proof fn lemma_update_keeps_keys(
    ts: Seq<STable>,
    pages: Seq<Seq<u8>>,
    pages2: Seq<Seq<u8>>,
    upd: SUpdate,
    r: Result<ExecResult>,
)
    requires
        update_done(ts, pages, pages2, upd, r),
        keys_ok(ts, pages),
    ensures
        keys_ok(ts, pages2),
{
    if let Some(i) = table_position(ts, upd.table) {
        assert forall|j: int| 0 <= j < ts.len() implies #[trigger] table_keys_ok(ts[j], pages2) by {
            assert(table_keys_ok(ts[j], pages));
            if j != i && pages2 != pages {
                assert(table_rows(pages2, ts[j]) == table_rows(pages, ts[j]));
            }
        }
    }
}

proof fn lemma_create_keeps_keys(ts: Seq<STable>, pages: Seq<Seq<u8>>, t: STable)
    requires
        store_ok(ts.push(t), pages),
        keys_ok(ts, pages),
        t.first_page == 0,
    ensures
        keys_ok(ts.push(t), pages),
{
    let ts2 = ts.push(t);
    assert forall|j: int| 0 <= j < ts2.len() implies #[trigger] table_keys_ok(ts2[j], pages) by {
        if j < ts.len() {
            assert(ts2[j] == ts[j]);
            assert(table_keys_ok(ts[j], pages));
        } else {
            assert(ts2[j] == t);
            assert(crate::heap::table_rows(pages, t) == Some(Seq::<SRow>::empty()));
            assert(values_of(Seq::<SRow>::empty()) =~= Seq::<Seq<SValue>>::empty());
        }
    }
}

// --- Laws ------------------------------------------------------------------------------------

proof fn lemma_built_row_len(cols: Seq<SColumn>, positions: Seq<int>, exprs: Seq<SExpr>)
    requires
        built_row(cols, positions, exprs) is Ok,
        exprs.len() <= positions.len(),
        forall|q: int| 0 <= q < positions.len() ==> 0 <= #[trigger] positions[q] < cols.len(),
    ensures
        built_row(cols, positions, exprs).unwrap().len() == cols.len(),
    decreases exprs.len(),
{
    if exprs.len() > 0 {
        lemma_built_row_len(cols, positions, exprs.drop_last());
    }
}

/// Every row an `INSERT` appends has one value per column.
proof fn lemma_inserted_len(
    cols: Seq<SColumn>,
    positions: Seq<int>,
    rows: Seq<Seq<SExpr>>,
    existing: Seq<Seq<SValue>>,
)
    requires
        forall|q: int| 0 <= q < positions.len() ==> 0 <= #[trigger] positions[q] < cols.len(),
    ensures
        forall|k: int|
            0 <= k < inserted(cols, positions, rows, existing).0.len() ==> (#[trigger] inserted(
                cols,
                positions,
                rows,
                existing,
            ).0[k]).len() == cols.len(),
    decreases rows.len(),
{
    if rows.len() > 0 {
        match checked_row(cols, positions, rows[0], existing) {
            Ok(vs) => {
                lemma_built_row_len(cols, positions, rows[0]);
                lemma_inserted_len(cols, positions, rows.skip(1), existing.push(vs));
                let rest = inserted(cols, positions, rows.skip(1), existing.push(vs));
                assert forall|k: int| 0 <= k < inserted(cols, positions, rows, existing).0.len() implies (
                #[trigger] inserted(cols, positions, rows, existing).0[k]).len() == cols.len() by {
                    if k > 0 {
                        assert(inserted(cols, positions, rows, existing).0[k] == rest.0[k - 1]);
                    }
                }
            },
            Err(_) => {},
        }
    }
}

/// With no filter, a query returns the projection of every row, in order.
proof fn lemma_selected_all(rows: Seq<SRow>, cols: Seq<SColumn>, idx: Seq<int>)
    ensures
        selected(rows, None, cols, idx) == core::result::Result::<Seq<Seq<SValue>>, ErrorKind>::Ok(
            values_of(rows).map_values(|v: Seq<SValue>| project(v, idx)),
        ),
    decreases rows.len(),
{
    if rows.len() > 0 {
        lemma_selected_all(rows.drop_last(), cols, idx);
        assert(values_of(rows).map_values(|v: Seq<SValue>| project(v, idx)) =~= values_of(
            rows.drop_last(),
        ).map_values(|v: Seq<SValue>| project(v, idx)).push(project(rows.last().1, idx)));
    } else {
        assert(values_of(rows).map_values(|v: Seq<SValue>| project(v, idx)) =~= Seq::<
            Seq<SValue>,
        >::empty());
    }
}

/// Tables whose names stay the same keep their positions.
proof fn lemma_same_names(ts: Seq<STable>, ts2: Seq<STable>, name: Seq<char>)
    requires
        ts2.len() == ts.len(),
        forall|j: int| 0 <= j < ts.len() ==> #[trigger] ts2[j].name == ts[j].name,
    ensures
        table_position(ts2, name) == table_position(ts, name),
{
    if exists|i: int| crate::catalog::is_first_table(ts, name, i) {
        let i = choose|i: int| crate::catalog::is_first_table(ts, name, i);
        assert forall|j: int| 0 <= j < i implies !eq_ignore_case(#[trigger] ts2[j].name, name) by {
            assert(ts2[j].name == ts[j].name);
        }
        assert(ts2[i].name == ts[i].name);
        assert(crate::catalog::is_first_table(ts2, name, i));
        crate::catalog::lemma_first_table_unique(ts2, name, i);
        crate::catalog::lemma_first_table_unique(ts, name, i);
    } else {
        if exists|i: int| crate::catalog::is_first_table(ts2, name, i) {
            let i = choose|i: int| crate::catalog::is_first_table(ts2, name, i);
            assert forall|j: int| 0 <= j < i implies !eq_ignore_case(#[trigger] ts[j].name, name) by {
                assert(ts2[j].name == ts[j].name);
            }
            assert(ts2[i].name == ts[i].name);
            assert(crate::catalog::is_first_table(ts, name, i));
        }
    }
}

/// What `SELECT * FROM` a table returns after an `INSERT` into it succeeded:
/// what it returned before, followed by the inserted rows, in order.
pub proof fn lemma_insert_then_select(
    ts: Seq<STable>,
    pages: Seq<Seq<u8>>,
    ins: SInsert,
    ts2: Seq<STable>,
    pages2: Seq<Seq<u8>>,
    r: Result<ExecResult>,
)
    requires
        store_ok(ts, pages),
        store_ok(ts2, pages2),
        insert_done(ts, pages, ts2, pages2, ins, r),
        r is Ok,
    ensures
        ({
            let q = SSelect { projection: SProjection::All, table: ins.table, filter: None };
            let (i, positions) = insert_target(ts, ins).unwrap();
            let added = inserted(
                ts[i].columns,
                positions,
                ins.rows,
                values_of(table_rows(pages, ts[i]).unwrap()),
            ).0;
            select_outcome(ts, pages, q) matches Ok(SResult::Rows(names, before)) && select_outcome(
                ts2,
                pages2,
                q,
            ) == core::result::Result::<SResult, ErrorKind>::Ok(SResult::Rows(names, before + added))
        }),
{
    let (i, positions) = insert_target(ts, ins).unwrap();
    let cols = ts[i].columns;
    let idx = Seq::new(cols.len(), |k: int| k);
    let old_rows = table_rows(pages, ts[i]).unwrap();
    let new_rows = table_rows(pages2, ts2[i]).unwrap();
    let added = inserted(cols, positions, ins.rows, values_of(old_rows)).0;
    assert forall|j: int| 0 <= j < ts.len() implies #[trigger] ts2[j].name == ts[j].name by {
        if j != i {
            assert(table_rows(pages2, ts2[j]) == table_rows(pages, ts[j]));
            assert(ts2[j] == ts[j]);
        }
    }
    assert forall|q: int| 0 <= q < positions.len() implies 0 <= #[trigger] positions[q] < cols.len() by {
        match ins.columns {
            None => {},
            Some(ns) => {
                assert(column_position(cols, ns[q]) is Some);
                let c = choose|c: int| is_first_column(cols, ns[q], c);
                assert(is_first_column(cols, ns[q], c));
            },
        }
    }
    lemma_same_names(ts, ts2, ins.table);
    assert(heap_ok(pages, ts[i]));
    lemma_heap_chain(pages, ts[i]);
    lemma_selected_all(old_rows, cols, idx);
    lemma_selected_all(new_rows, cols, idx);
    lemma_inserted_len(cols, positions, ins.rows, values_of(old_rows));
    let f = |v: Seq<SValue>| project(v, idx);
    assert(values_of(new_rows) == values_of(old_rows) + added);
    assert forall|k: int| 0 <= k < added.len() implies #[trigger] project(added[k], idx) == added[k] by {
        assert(project(added[k], idx) =~= added[k]);
    }
    assert((values_of(old_rows) + added).map_values(f) =~= values_of(old_rows).map_values(f) + added);
}

/// Once an `UPDATE` went through rewriting every row it changed in place,
/// `SELECT *` from its table returns the rows of before, in order, the changed
/// ones with their new values.
pub proof fn lemma_update_then_select(
    ts: Seq<STable>,
    pages: Seq<Seq<u8>>,
    upd: SUpdate,
    pages2: Seq<Seq<u8>>,
    r: Result<ExecResult>,
)
    requires
        store_ok(ts, pages),
        update_done(ts, pages, pages2, upd, r),
        r is Ok,
        table_position(ts, upd.table) matches Some(i) && update_targets(ts[i].columns, upd.assignments)
            matches Ok(targets) && all_in_place(
            pages,
            table_rows(pages, ts[i]).unwrap(),
            table_rows(pages, ts[i]).unwrap().len() as int,
            upd.filter,
            ts[i].columns,
            targets,
        ),
    ensures
        ({
            let i = table_position(ts, upd.table).unwrap();
            let cols = ts[i].columns;
            let targets = update_targets(cols, upd.assignments).unwrap();
            let rows = table_rows(pages, ts[i]).unwrap();
            let idx = Seq::new(cols.len(), |k: int| k);
            let after = renewed(rows, rows.len() as int, upd.filter, cols, targets);
            select_outcome(ts, pages2, SSelect { projection: SProjection::All, table: upd.table, filter: None })
                == core::result::Result::<SResult, ErrorKind>::Ok(
                SResult::Rows(
                    Seq::new(idx.len(), |k: int| cols[idx[k]].name),
                    values_of(after).map_values(|v: Seq<SValue>| project(v, idx)),
                ),
            )
        }),
{
    reveal(rewritten_upto);
    let i = table_position(ts, upd.table).unwrap();
    let cols = ts[i].columns;
    let targets = update_targets(cols, upd.assignments).unwrap();
    let rows = table_rows(pages, ts[i]).unwrap();
    let idx = Seq::new(cols.len(), |k: int| k);
    let after = renewed(rows, rows.len() as int, upd.filter, cols, targets);
    lemma_selected_all(after, cols, idx);
}

/// Rows of which the filter holds of none select nothing.
proof fn lemma_selected_none(rows: Seq<SRow>, filter: Option<SExpr>, cols: Seq<SColumn>, idx: Seq<int>)
    requires
        forall|k: int|
            0 <= k < rows.len() ==> passes(filter, #[trigger] rows[k].1, cols)
                == core::result::Result::<bool, ErrorKind>::Ok(false),
    ensures
        selected(rows, filter, cols, idx) == core::result::Result::<Seq<Seq<SValue>>, ErrorKind>::Ok(
            Seq::<Seq<SValue>>::empty(),
        ),
    decreases rows.len(),
{
    if rows.len() > 0 {
        assert forall|k: int| 0 <= k < rows.drop_last().len() implies passes(
            filter,
            #[trigger] rows.drop_last()[k].1,
            cols,
        ) == core::result::Result::<bool, ErrorKind>::Ok(false) by {
            assert(rows.drop_last()[k] == rows[k]);
        }
        lemma_selected_none(rows.drop_last(), filter, cols, idx);
        assert(passes(filter, rows[rows.len() - 1].1, cols) == core::result::Result::<bool, ErrorKind>::Ok(
            false,
        ));
    }
}

/// Once a `DELETE` went through, selecting with its filter from its table
/// finds no row.
pub proof fn lemma_delete_then_select(
    ts: Seq<STable>,
    pages: Seq<Seq<u8>>,
    del: SDelete,
    pages2: Seq<Seq<u8>>,
    r: Result<ExecResult>,
)
    requires
        store_ok(ts, pages),
        delete_done(ts, pages, pages2, del, r),
        r is Ok,
    ensures
        select_outcome(ts, pages2, SSelect { projection: SProjection::All, table: del.table, filter: del.filter })
            matches Ok(SResult::Rows(_, out)) && out.len() == 0,
{
    let i = table_position(ts, del.table).unwrap();
    let cols = ts[i].columns;
    let rows = table_rows(pages, ts[i]).unwrap();
    let rows2 = sieve(rows, unchosen(del.filter, cols));
    assert forall|k: int| 0 <= k < rows2.len() implies passes(del.filter, #[trigger] rows2[k].1, cols)
        == core::result::Result::<bool, ErrorKind>::Ok(false) by {
        assert(rows2.contains(rows2[k]));
        crate::heap::lemma_sieve_contains(rows, unchosen(del.filter, cols), rows2[k]);
        lemma_passes_error(del.filter, rows2[k].1, cols);
        if rows.len() == 0 {
            assert(rows2.len() == 0);
        }
    }
    lemma_selected_none(rows2, del.filter, cols, Seq::new(cols.len(), |j: int| j));
}

/// Creating a table that exists, with `IF NOT EXISTS`, changes nothing and
/// affects no row.
pub proof fn lemma_create_existing_is_noop(ts: Seq<STable>, c: SCreateTable)
    requires
        table_position(ts, c.name) is Some,
        c.if_not_exists,
    ensures
        create_outcome(ts, c) == core::result::Result::<(Seq<STable>, SResult), ErrorKind>::Ok(
            (ts, SResult::Affected(0)),
        ),
{
}


// --- Laws of comparison --------------------------------------------------------------

/// On integers the comparison operators mean the integer order: `<` is strict,
/// `<=` is not, and so on.
pub proof fn lemma_integer_comparisons(x: i64, y: i64)
    ensures
        apply_op(BinOp::Lt, SValue::Integer(x), SValue::Integer(y)) == SValue::Boolean(x < y),
        apply_op(BinOp::LtEq, SValue::Integer(x), SValue::Integer(y)) == SValue::Boolean(x <= y),
        apply_op(BinOp::Gt, SValue::Integer(x), SValue::Integer(y)) == SValue::Boolean(x > y),
        apply_op(BinOp::GtEq, SValue::Integer(x), SValue::Integer(y)) == SValue::Boolean(x >= y),
        apply_op(BinOp::Eq, SValue::Integer(x), SValue::Integer(y)) == SValue::Boolean(x == y),
        apply_op(BinOp::NotEq, SValue::Integer(x), SValue::Integer(y)) == SValue::Boolean(x != y),
{
}

/// No value that is not `NULL` is less or greater than itself; each is equal
/// to itself.
pub proof fn lemma_comparisons_reflexive(v: SValue)
    requires
        !(v is Null),
    ensures
        apply_op(BinOp::Lt, v, v) == SValue::Boolean(false),
        apply_op(BinOp::Gt, v, v) == SValue::Boolean(false),
        apply_op(BinOp::LtEq, v, v) == SValue::Boolean(true),
        apply_op(BinOp::GtEq, v, v) == SValue::Boolean(true),
        apply_op(BinOp::Eq, v, v) == SValue::Boolean(true),
        apply_op(BinOp::NotEq, v, v) == SValue::Boolean(false),
{
    lemma_compare_reflexive(v);
}

/// On values that compare, `<` and `>=` are each other's negation, and so are
/// `>` and `<=`, and `=` and `!=`.
pub proof fn lemma_comparisons_negate(l: SValue, r: SValue)
    requires
        compare(l, r) is Some,
    ensures
        apply_op(BinOp::Lt, l, r) is Boolean,
        apply_op(BinOp::Lt, l, r) == SValue::Boolean(!truthy(apply_op(BinOp::GtEq, l, r))),
        apply_op(BinOp::Gt, l, r) == SValue::Boolean(!truthy(apply_op(BinOp::LtEq, l, r))),
        apply_op(BinOp::Eq, l, r) == SValue::Boolean(!truthy(apply_op(BinOp::NotEq, l, r))),
{
}


// --- Laws of the rows an INSERT builds ---------------------------------------------------

/// A row built for an `INSERT` holds, at the position of each listed column,
/// the coerced value given for it (the last one, when a column is listed
/// twice), and `NULL` at every column that is not listed.
pub proof fn lemma_built_row_places(cols: Seq<SColumn>, positions: Seq<int>, exprs: Seq<SExpr>)
    requires
        built_row(cols, positions, exprs) is Ok,
        exprs.len() <= positions.len(),
        forall|q: int| 0 <= q < positions.len() ==> 0 <= #[trigger] positions[q] < cols.len(),
    ensures
        ({
            let vs = built_row(cols, positions, exprs).unwrap();
            &&& vs.len() == cols.len()
            &&& forall|i: int|
                0 <= i < cols.len() && (forall|j: int| 0 <= j < exprs.len() ==> #[trigger] positions[j] != i)
                    ==> vs[i] == SValue::Null
            &&& forall|j: int|
                0 <= j < exprs.len() && (forall|m: int| j < m < exprs.len() ==> #[trigger] positions[m]
                    != positions[j]) ==> (const_value(#[trigger] exprs[j]) matches Ok(v) && coerce(
                    v,
                    cols[positions[j]].data_type,
                ) == Some(vs[positions[j]]))
        }),
    decreases exprs.len(),
{
    lemma_built_row_len(cols, positions, exprs);
    if exprs.len() > 0 {
        let init = exprs.drop_last();
        let n = exprs.len() - 1;
        lemma_built_row_places(cols, positions, init);
        let vs0 = built_row(cols, positions, init).unwrap();
        let vs = built_row(cols, positions, exprs).unwrap();
        let p = positions[n];
        assert forall|i: int|
            0 <= i < cols.len() && (forall|j: int| 0 <= j < exprs.len() ==> #[trigger] positions[j] != i)
                implies vs[i] == SValue::Null by {
            assert(positions[n] != i);
            assert forall|j: int| 0 <= j < init.len() implies #[trigger] positions[j] != i by {
                assert(positions[j] != i);
            }
        }
        assert forall|j: int|
            0 <= j < exprs.len() && (forall|m: int| j < m < exprs.len() ==> #[trigger] positions[m]
                != positions[j]) implies (const_value(#[trigger] exprs[j]) matches Ok(v) && coerce(
                v,
                cols[positions[j]].data_type,
            ) == Some(vs[positions[j]])) by {
            if j < n {
                assert(positions[n] != positions[j]);
                assert(init[j] == exprs[j]);
                assert forall|m: int| j < m < init.len() implies #[trigger] positions[m] != positions[j] by {
                    assert(positions[m] != positions[j]);
                }
            }
        }
    }
}


// --- Laws of parameter binding ---------------------------------------------------------

/// The number of `?` placeholders in an expression.
pub open spec fn placeholders(e: SExpr) -> nat
    decreases e,
{
    match e {
        SExpr::Param => 1,
        SExpr::Binary { left, op, right } => placeholders(*left) + placeholders(*right),
        _ => 0,
    }
}

/// `e` with its placeholders, counted from the left, replaced by `vs[0]`,
/// `vs[1]`, ... in turn.
pub open spec fn filled(e: SExpr, vs: Seq<SValue>) -> SExpr
    decreases e,
{
    match e {
        SExpr::Param => SExpr::Literal(vs[0]),
        SExpr::Binary { left, op, right } => binary(
            filled(*left, vs),
            op,
            filled(*right, vs.skip(placeholders(*left) as int)),
        ),
        _ => e,
    }
}

/// Binding an expression from parameter `i` on takes the next parameters in
/// textual order: the k-th placeholder from the left gets parameter `i + k`,
/// so every placeholder of a left operand comes before those of the right
/// one; it fails exactly when too few parameters are left.
pub proof fn lemma_bind_in_textual_order(e: SExpr, ps: Seq<SValue>, i: int)
    requires
        0 <= i <= ps.len(),
    ensures
        bound_expr(e, ps, i) == if i + placeholders(e) <= ps.len() {
            Some((filled(e, ps.skip(i)), i + placeholders(e)))
        } else {
            None::<(SExpr, int)>
        },
    decreases e,
{
    match e {
        SExpr::Binary { left, op, right } => {
            let cl = placeholders(*left);
            lemma_bind_in_textual_order(*left, ps, i);
            let cr = placeholders(*right);
            assert(placeholders(e) == cl + cr);
            if i + cl <= ps.len() {
                lemma_bind_in_textual_order(*right, ps, i + cl);
                assert(ps.skip(i).skip(cl as int) =~= ps.skip(i + cl));
                assert(filled(e, ps.skip(i)) == binary(
                    filled(*left, ps.skip(i)),
                    op,
                    filled(*right, ps.skip(i + cl)),
                ));
            }
        },
        SExpr::Param => {
            if i < ps.len() {
                assert(ps.skip(i)[0] == ps[i]);
            }
        },
        _ => {},
    }
}


/// Text order read backwards: `a` comes before `b` exactly when `b` comes
/// after `a`.
proof fn lemma_order_text_swap(a: Seq<char>, b: Seq<char>)
    ensures
        order_text(a, b) == Comparison::Less <==> order_text(b, a) == Comparison::Greater,
        order_text(a, b) == Comparison::Equal <==> order_text(b, a) == Comparison::Equal,
    decreases a.len(),
{
    if a.len() > 0 && b.len() > 0 && a[0] == b[0] {
        lemma_order_text_swap(a.skip(1), b.skip(1));
    }
}

/// `l < r` holds exactly when `r > l` does, and `l <= r` exactly when
/// `r >= l` does.
pub proof fn lemma_comparisons_swap(l: SValue, r: SValue)
    ensures
        apply_op(BinOp::Lt, l, r) == apply_op(BinOp::Gt, r, l),
        apply_op(BinOp::LtEq, l, r) == apply_op(BinOp::GtEq, r, l),
        apply_op(BinOp::Eq, l, r) == apply_op(BinOp::Eq, r, l),
{
    if let (SValue::Text(x), SValue::Text(y)) = (l, r) {
        lemma_order_text_swap(x, y);
    }
}


/// An `UPDATE` gives every column it assigns the value of its last
/// assignment, and leaves every other column of the row as it was.
pub proof fn lemma_assigned_values(row: Seq<SValue>, targets: Seq<(int, SValue)>)
    requires
        forall|j: int| 0 <= j < targets.len() ==> 0 <= #[trigger] targets[j].0 < row.len(),
    ensures
        assigned(row, targets).len() == row.len(),
        forall|i: int|
            0 <= i < row.len() && (forall|j: int| 0 <= j < targets.len() ==> #[trigger] targets[j].0 != i)
                ==> assigned(row, targets)[i] == row[i],
        forall|j: int|
            0 <= j < targets.len() && (forall|m: int| j < m < targets.len() ==> #[trigger] targets[m].0
                != targets[j].0) ==> assigned(row, targets)[#[trigger] targets[j].0] == targets[j].1,
    decreases targets.len(),
{
    if targets.len() > 0 {
        let init = targets.drop_last();
        let n = targets.len() - 1;
        lemma_assigned_values(row, init);
        assert forall|i: int|
            0 <= i < row.len() && (forall|j: int| 0 <= j < targets.len() ==> #[trigger] targets[j].0 != i)
                implies assigned(row, targets)[i] == row[i] by {
            assert(targets[n].0 != i);
            assert forall|j: int| 0 <= j < init.len() implies #[trigger] init[j].0 != i by {
                assert(targets[j].0 != i);
            }
        }
        assert forall|j: int|
            0 <= j < targets.len() && (forall|m: int| j < m < targets.len() ==> #[trigger] targets[m].0
                != targets[j].0) implies assigned(row, targets)[#[trigger] targets[j].0] == targets[j].1 by {
            if j < n {
                assert(targets[n].0 != targets[j].0);
                assert(init[j] == targets[j]);
                assert forall|m: int| j < m < init.len() implies #[trigger] init[m].0 != init[j].0 by {
                    assert(targets[m].0 != targets[j].0);
                }
            }
        }
    }
}

} // verus!
