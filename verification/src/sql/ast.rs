//! Abstract syntax tree for the supported SQL subset.

use crate::value::{DataType, SValue, Value};
use vstd::prelude::*;

verus! {

#[derive(Debug)]
pub enum Statement {
    CreateTable(CreateTable),
    Insert(Insert),
    Select(Select),
    Update(Update),
    Delete(Delete),
}

#[derive(Debug)]
pub struct CreateTable {
    pub name: String,
    pub if_not_exists: bool,
    pub columns: Vec<ColumnDef>,
}

#[derive(Debug)]
pub struct ColumnDef {
    pub name: String,
    pub data_type: DataType,
    pub primary_key: bool,
}

#[derive(Debug)]
pub struct Insert {
    pub table: String,
    /// Explicit column list, or `None` for "all columns in order".
    pub columns: Option<Vec<String>>,
    pub rows: Vec<Vec<Expr>>,
}

#[derive(Debug)]
pub enum Projection {
    All,
    Columns(Vec<String>),
}

#[derive(Debug)]
pub struct Select {
    pub projection: Projection,
    pub table: String,
    pub filter: Option<Expr>,
}

#[derive(Debug)]
pub struct Update {
    pub table: String,
    pub assignments: Vec<(String, Expr)>,
    pub filter: Option<Expr>,
}

#[derive(Debug)]
pub struct Delete {
    pub table: String,
    pub filter: Option<Expr>,
}

/// Scalar expression used in values and `WHERE` clauses.
#[derive(Debug)]
pub enum Expr {
    Literal(Value),
    /// A positional `?` parameter.
    Param,
    Column(String),
    Binary { left: Box<Expr>, op: BinOp, right: Box<Expr> },
}

#[derive(Debug, Clone, Copy, PartialEq, Eq, Structural)]
pub enum BinOp {
    Eq,
    NotEq,
    Lt,
    LtEq,
    Gt,
    GtEq,
    And,
    Or,
}

// --- Mathematical forms --------------------------------------------------------

pub enum SExpr {
    Literal(SValue),
    Param,
    Column(Seq<char>),
    Binary { left: Box<SExpr>, op: BinOp, right: Box<SExpr> },
}

impl View for Expr {
    type V = SExpr;

    open spec fn view(&self) -> SExpr
        decreases self,
    {
        match self {
            Expr::Literal(v) => SExpr::Literal(v@),
            Expr::Param => SExpr::Param,
            Expr::Column(c) => SExpr::Column(c@),
            Expr::Binary { left, op, right } => SExpr::Binary {
                left: Box::new((**left).view()),
                op: *op,
                right: Box::new((**right).view()),
            },
        }
    }
}

pub open spec fn names_view(ns: Seq<String>) -> Seq<Seq<char>> {
    ns.map_values(|n: String| n@)
}

pub open spec fn exprs_view(es: Seq<Expr>) -> Seq<SExpr> {
    es.map_values(|e: Expr| e@)
}

pub open spec fn rows_view(rs: Seq<Vec<Expr>>) -> Seq<Seq<SExpr>> {
    rs.map_values(|r: Vec<Expr>| exprs_view(r@))
}

pub open spec fn filter_view(f: Option<Expr>) -> Option<SExpr> {
    match f {
        Some(e) => Some(e@),
        None => None,
    }
}

pub enum SProjection {
    All,
    Columns(Seq<Seq<char>>),
}

pub struct SSelect {
    pub projection: SProjection,
    pub table: Seq<char>,
    pub filter: Option<SExpr>,
}

pub struct SInsert {
    pub table: Seq<char>,
    pub columns: Option<Seq<Seq<char>>>,
    pub rows: Seq<Seq<SExpr>>,
}

pub struct SUpdate {
    pub table: Seq<char>,
    pub assignments: Seq<(Seq<char>, SExpr)>,
    pub filter: Option<SExpr>,
}

pub struct SDelete {
    pub table: Seq<char>,
    pub filter: Option<SExpr>,
}

pub struct SColumnDef {
    pub name: Seq<char>,
    pub data_type: DataType,
    pub primary_key: bool,
}

pub struct SCreateTable {
    pub name: Seq<char>,
    pub if_not_exists: bool,
    pub columns: Seq<SColumnDef>,
}

pub enum SStatement {
    CreateTable(SCreateTable),
    Insert(SInsert),
    Select(SSelect),
    Update(SUpdate),
    Delete(SDelete),
}

impl View for Projection {
    type V = SProjection;

    open spec fn view(&self) -> SProjection {
        match self {
            Projection::All => SProjection::All,
            Projection::Columns(cs) => SProjection::Columns(names_view(cs@)),
        }
    }
}

impl View for Select {
    type V = SSelect;

    open spec fn view(&self) -> SSelect {
        SSelect {
            projection: self.projection@,
            table: self.table@,
            filter: filter_view(self.filter),
        }
    }
}

impl View for Insert {
    type V = SInsert;

    open spec fn view(&self) -> SInsert {
        SInsert {
            table: self.table@,
            columns: match self.columns {
                Some(cs) => Some(names_view(cs@)),
                None => None,
            },
            rows: rows_view(self.rows@),
        }
    }
}

pub open spec fn assignments_view(a: Seq<(String, Expr)>) -> Seq<(Seq<char>, SExpr)> {
    a.map_values(|p: (String, Expr)| (p.0@, p.1@))
}

impl View for Update {
    type V = SUpdate;

    open spec fn view(&self) -> SUpdate {
        SUpdate {
            table: self.table@,
            assignments: assignments_view(self.assignments@),
            filter: filter_view(self.filter),
        }
    }
}

impl View for Delete {
    type V = SDelete;

    open spec fn view(&self) -> SDelete {
        SDelete { table: self.table@, filter: filter_view(self.filter) }
    }
}

impl View for ColumnDef {
    type V = SColumnDef;

    open spec fn view(&self) -> SColumnDef {
        SColumnDef { name: self.name@, data_type: self.data_type, primary_key: self.primary_key }
    }
}

pub open spec fn column_defs_view(cs: Seq<ColumnDef>) -> Seq<SColumnDef> {
    cs.map_values(|c: ColumnDef| c@)
}

impl View for CreateTable {
    type V = SCreateTable;

    open spec fn view(&self) -> SCreateTable {
        SCreateTable {
            name: self.name@,
            if_not_exists: self.if_not_exists,
            columns: column_defs_view(self.columns@),
        }
    }
}

impl View for Statement {
    type V = SStatement;

    open spec fn view(&self) -> SStatement {
        match self {
            Statement::CreateTable(c) => SStatement::CreateTable(c@),
            Statement::Insert(i) => SStatement::Insert(i@),
            Statement::Select(s) => SStatement::Select(s@),
            Statement::Update(u) => SStatement::Update(u@),
            Statement::Delete(d) => SStatement::Delete(d@),
        }
    }
}

} // verus!
