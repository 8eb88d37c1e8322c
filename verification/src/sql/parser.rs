//! Recursive-descent parser for the supported SQL subset.
//!
//! The grammar is given by the spec functions below, each of which reads a
//! construct from the token sequence at a position and yields the construct
//! with the position after it, or `None` when the tokens do not form one.
//! Expressions follow the precedence OR < AND < comparison < primary.

use crate::error::{quoted, text, Error, Result};
use crate::sql::ast::{
    assignments_view, column_defs_view, exprs_view, filter_view, names_view, rows_view, BinOp, ColumnDef,
    CreateTable, Delete, Expr, Insert, Projection, SColumnDef, SCreateTable, SDelete, SExpr,
    SInsert, SProjection, SSelect, SStatement, SUpdate, Select, Statement, Update,
};
use crate::sql::token::{lex, tokenize, tokens_view, SToken, Token};
use crate::strings::{eq_ignore_case, str_eq_ignore_case};
use crate::value::{keyword_type, DataType, SValue, Value};
use vstd::prelude::*;

verus! {

broadcast use vstd::seq_lib::group_seq_properties;

// --- The grammar ------------------------------------------------------------------

/// The token at `p` is the keyword `kw` (in any ASCII case).
pub open spec fn at_keyword(ts: Seq<SToken>, p: int, kw: Seq<char>) -> bool {
    0 <= p < ts.len() && (ts[p] matches SToken::Word(w) && eq_ignore_case(w, kw))
}

/// The token at `p` is `t`.
pub open spec fn at_token(ts: Seq<SToken>, p: int, t: SToken) -> bool {
    0 <= p < ts.len() && ts[p] == t
}

/// The word at `p`, if the token there is a word.
pub open spec fn word_at(ts: Seq<SToken>, p: int) -> Option<Seq<char>> {
    if 0 <= p < ts.len() {
        match ts[p] {
            SToken::Word(w) => Some(w),
            _ => None,
        }
    } else {
        None
    }
}

/// A parse that ended at `q`, having started at `p`, moved forward.
pub open spec fn advanced(ts: Seq<SToken>, p: int, q: int) -> bool {
    p < q <= ts.len()
}

/// The comparison operator a token spells, if any.
pub open spec fn comparison_op(t: SToken) -> Option<BinOp> {
    match t {
        SToken::Eq => Some(BinOp::Eq),
        SToken::NotEq => Some(BinOp::NotEq),
        SToken::Lt => Some(BinOp::Lt),
        SToken::LtEq => Some(BinOp::LtEq),
        SToken::Gt => Some(BinOp::Gt),
        SToken::GtEq => Some(BinOp::GtEq),
        _ => None,
    }
}

pub open spec fn binary(left: SExpr, op: BinOp, right: SExpr) -> SExpr {
    SExpr::Binary { left: Box::new(left), op, right: Box::new(right) }
}

/// A full expression.
pub open spec fn expr_at(ts: Seq<SToken>, p: int) -> Option<(SExpr, int)>
    decreases ts.len() - p, 7int,
{
    or_at(ts, p)
}

/// Operands joined by `OR`, grouped to the left.
pub open spec fn or_at(ts: Seq<SToken>, p: int) -> Option<(SExpr, int)>
    decreases ts.len() - p, 6int,
{
    match and_at(ts, p) {
        Some((left, q)) => if advanced(ts, p, q) {
            or_rest(ts, left, q)
        } else {
            None
        },
        None => None,
    }
}

/// The `OR` operands that follow `left`, which ends at `q`.
pub open spec fn or_rest(ts: Seq<SToken>, left: SExpr, q: int) -> Option<(SExpr, int)>
    decreases ts.len() - q, 5int,
{
    if at_keyword(ts, q, "OR"@) {
        match and_at(ts, q + 1) {
            Some((right, r)) => if advanced(ts, q, r) {
                or_rest(ts, binary(left, BinOp::Or, right), r)
            } else {
                None
            },
            None => None,
        }
    } else {
        Some((left, q))
    }
}

/// Comparisons joined by `AND`, grouped to the left.
pub open spec fn and_at(ts: Seq<SToken>, p: int) -> Option<(SExpr, int)>
    decreases ts.len() - p, 4int,
{
    match comparison_at(ts, p) {
        Some((left, q)) => if advanced(ts, p, q) {
            and_rest(ts, left, q)
        } else {
            None
        },
        None => None,
    }
}

/// The `AND` operands that follow `left`, which ends at `q`.
pub open spec fn and_rest(ts: Seq<SToken>, left: SExpr, q: int) -> Option<(SExpr, int)>
    decreases ts.len() - q, 3int,
{
    if at_keyword(ts, q, "AND"@) {
        match comparison_at(ts, q + 1) {
            Some((right, r)) => if advanced(ts, q, r) {
                and_rest(ts, binary(left, BinOp::And, right), r)
            } else {
                None
            },
            None => None,
        }
    } else {
        Some((left, q))
    }
}

/// A primary, optionally compared with a second one.
pub open spec fn comparison_at(ts: Seq<SToken>, p: int) -> Option<(SExpr, int)>
    decreases ts.len() - p, 2int,
{
    match primary_at(ts, p) {
        Some((left, q)) => if advanced(ts, p, q) && q < ts.len() && comparison_op(ts[q]) is Some {
            match primary_at(ts, q + 1) {
                Some((right, r)) => Some((binary(left, comparison_op(ts[q]).unwrap(), right), r)),
                None => None,
            }
        } else {
            Some((left, q))
        },
        None => None,
    }
}

/// A parenthesized expression, a parameter, a literal or a column name.
pub open spec fn primary_at(ts: Seq<SToken>, p: int) -> Option<(SExpr, int)>
    decreases ts.len() - p, 1int,
{
    if 0 <= p < ts.len() {
        match ts[p] {
            SToken::LParen => match expr_at(ts, p + 1) {
                Some((e, q)) => if at_token(ts, q, SToken::RParen) {
                    Some((e, q + 1))
                } else {
                    None
                },
                None => None,
            },
            SToken::Question => Some((SExpr::Param, p + 1)),
            SToken::Integer(i) => Some((SExpr::Literal(SValue::Integer(i)), p + 1)),
            SToken::Str(s) => Some((SExpr::Literal(SValue::Text(s)), p + 1)),
            SToken::Word(w) => Some(
                (
                    if eq_ignore_case(w, "TRUE"@) {
                        SExpr::Literal(SValue::Boolean(true))
                    } else if eq_ignore_case(w, "FALSE"@) {
                        SExpr::Literal(SValue::Boolean(false))
                    } else if eq_ignore_case(w, "NULL"@) {
                        SExpr::Literal(SValue::Null)
                    } else {
                        SExpr::Column(w)
                    },
                    p + 1,
                ),
            ),
            _ => None,
        }
    } else {
        None
    }
}


/// `WHERE` and a condition, if the keyword is at `q`.
pub open spec fn where_at(ts: Seq<SToken>, q: int) -> Option<(Option<SExpr>, int)> {
    if at_keyword(ts, q, "WHERE"@) {
        match expr_at(ts, q + 1) {
            Some((e, r)) => Some((Some(e), r)),
            None => None,
        }
    } else {
        Some((None, q))
    }
}

/// Column constraints from `q` on (`PRIMARY KEY`, `NOT NULL`, in any number
/// and order): whether `PRIMARY KEY` is among them, and where they end.
pub open spec fn constraints_at(ts: Seq<SToken>, q: int) -> Option<(bool, int)>
    decreases ts.len() - q,
{
    if at_keyword(ts, q, "PRIMARY"@) {
        if at_keyword(ts, q + 1, "KEY"@) {
            match constraints_at(ts, q + 2) {
                Some((_, r)) => Some((true, r)),
                None => None,
            }
        } else {
            None
        }
    } else if at_keyword(ts, q, "NOT"@) {
        if at_keyword(ts, q + 1, "NULL"@) {
            constraints_at(ts, q + 2)
        } else {
            None
        }
    } else {
        Some((false, q))
    }
}

/// A column definition: name, type keyword, constraints.
pub open spec fn column_def_at(ts: Seq<SToken>, q: int) -> Option<(SColumnDef, int)> {
    match (word_at(ts, q), word_at(ts, q + 1)) {
        (Some(name), Some(kw)) => match keyword_type(kw) {
            Some(t) => match constraints_at(ts, q + 2) {
                Some((pk, r)) => Some((SColumnDef { name, data_type: t, primary_key: pk }, r)),
                None => None,
            },
            None => None,
        },
        _ => None,
    }
}

/// Column definitions separated by commas, through the closing parenthesis.
pub open spec fn column_defs_at(ts: Seq<SToken>, q: int) -> Option<(Seq<SColumnDef>, int)>
    decreases ts.len() - q,
{
    match column_def_at(ts, q) {
        Some((c, r)) => if at_token(ts, r, SToken::Comma) {
            if advanced(ts, q, r) {
                prefixed(seq![c], column_defs_at(ts, r + 1))
            } else {
                None
            }
        } else if at_token(ts, r, SToken::RParen) {
            Some((seq![c], r + 1))
        } else {
            None
        },
        None => None,
    }
}

/// `IF NOT EXISTS`, if `IF` is at `q`.
pub open spec fn if_not_exists_at(ts: Seq<SToken>, q: int) -> Option<(bool, int)> {
    if at_keyword(ts, q, "IF"@) {
        if at_keyword(ts, q + 1, "NOT"@) && at_keyword(ts, q + 2, "EXISTS"@) {
            Some((true, q + 3))
        } else {
            None
        }
    } else {
        Some((false, q))
    }
}

/// `CREATE TABLE [IF NOT EXISTS] name (column, ...)`.
pub open spec fn create_table_at(ts: Seq<SToken>, p: int) -> Option<(SCreateTable, int)> {
    if at_keyword(ts, p, "CREATE"@) && at_keyword(ts, p + 1, "TABLE"@) {
        match if_not_exists_at(ts, p + 2) {
            Some((ine, n)) => match word_at(ts, n) {
                Some(name) => if at_token(ts, n + 1, SToken::LParen) {
                    match column_defs_at(ts, n + 2) {
                        Some((cols, e)) => Some(
                            (SCreateTable { name, if_not_exists: ine, columns: cols }, e),
                        ),
                        None => None,
                    }
                } else {
                    None
                },
                None => None,
            },
            None => None,
        }
    } else {
        None
    }
}

/// Names separated by commas, through the closing parenthesis.
pub open spec fn names_at(ts: Seq<SToken>, q: int) -> Option<(Seq<Seq<char>>, int)>
    decreases ts.len() - q,
{
    match word_at(ts, q) {
        Some(w) => if at_token(ts, q + 1, SToken::Comma) {
            prefixed(seq![w], names_at(ts, q + 2))
        } else if at_token(ts, q + 1, SToken::RParen) {
            Some((seq![w], q + 2))
        } else {
            None
        },
        None => None,
    }
}

/// Expressions separated by commas, through the closing parenthesis.
pub open spec fn values_at(ts: Seq<SToken>, q: int) -> Option<(Seq<SExpr>, int)>
    decreases ts.len() - q,
{
    match expr_at(ts, q) {
        Some((e, r)) => if at_token(ts, r, SToken::Comma) {
            if advanced(ts, q, r) {
                prefixed(seq![e], values_at(ts, r + 1))
            } else {
                None
            }
        } else if at_token(ts, r, SToken::RParen) {
            Some((seq![e], r + 1))
        } else {
            None
        },
        None => None,
    }
}

/// Parenthesized value lists separated by commas.
pub open spec fn rows_at(ts: Seq<SToken>, q: int) -> Option<(Seq<Seq<SExpr>>, int)>
    decreases ts.len() - q,
{
    if at_token(ts, q, SToken::LParen) {
        match values_at(ts, q + 1) {
            Some((row, r)) => if at_token(ts, r, SToken::Comma) {
                if advanced(ts, q, r) {
                    prefixed(seq![row], rows_at(ts, r + 1))
                } else {
                    None
                }
            } else {
                Some((seq![row], r))
            },
            None => None,
        }
    } else {
        None
    }
}

/// The optional parenthesized column list of an `INSERT`.
pub open spec fn insert_columns_at(ts: Seq<SToken>, q: int) -> Option<(Option<Seq<Seq<char>>>, int)> {
    if at_token(ts, q, SToken::LParen) {
        match names_at(ts, q + 1) {
            Some((ns, e)) => Some((Some(ns), e)),
            None => None,
        }
    } else {
        Some((None, q))
    }
}

/// `INSERT INTO table [(column, ...)] VALUES (value, ...), ...`.
pub open spec fn insert_at(ts: Seq<SToken>, p: int) -> Option<(SInsert, int)> {
    if at_keyword(ts, p, "INSERT"@) && at_keyword(ts, p + 1, "INTO"@) {
        match word_at(ts, p + 2) {
            Some(table) => match insert_columns_at(ts, p + 3) {
                Some((columns, v)) => if at_keyword(ts, v, "VALUES"@) {
                    match rows_at(ts, v + 1) {
                        Some((rows, e)) => Some((SInsert { table, columns, rows }, e)),
                        None => None,
                    }
                } else {
                    None
                },
                None => None,
            },
            None => None,
        }
    } else {
        None
    }
}

/// Column names separated by commas, as listed after `SELECT`.
pub open spec fn select_columns_at(ts: Seq<SToken>, q: int) -> Option<(Seq<Seq<char>>, int)>
    decreases ts.len() - q,
{
    match word_at(ts, q) {
        Some(w) => if at_token(ts, q + 1, SToken::Comma) {
            prefixed(seq![w], select_columns_at(ts, q + 2))
        } else {
            Some((seq![w], q + 1))
        },
        None => None,
    }
}

/// `*` or a list of column names.
pub open spec fn projection_at(ts: Seq<SToken>, q: int) -> Option<(SProjection, int)> {
    if at_token(ts, q, SToken::Star) {
        Some((SProjection::All, q + 1))
    } else {
        match select_columns_at(ts, q) {
            Some((ns, e)) => Some((SProjection::Columns(ns), e)),
            None => None,
        }
    }
}

/// `SELECT projection FROM table [WHERE condition]`.
pub open spec fn select_at(ts: Seq<SToken>, p: int) -> Option<(SSelect, int)> {
    if at_keyword(ts, p, "SELECT"@) {
        match projection_at(ts, p + 1) {
            Some((projection, q)) => if at_keyword(ts, q, "FROM"@) {
                match word_at(ts, q + 1) {
                    Some(table) => match where_at(ts, q + 2) {
                        Some((filter, e)) => Some((SSelect { projection, table, filter }, e)),
                        None => None,
                    },
                    None => None,
                }
            } else {
                None
            },
            None => None,
        }
    } else {
        None
    }
}

/// `column = value` pairs separated by commas.
pub open spec fn assignments_at(ts: Seq<SToken>, q: int) -> Option<(Seq<(Seq<char>, SExpr)>, int)>
    decreases ts.len() - q,
{
    match word_at(ts, q) {
        Some(c) => if at_token(ts, q + 1, SToken::Eq) {
            match expr_at(ts, q + 2) {
                Some((e, r)) => if at_token(ts, r, SToken::Comma) {
                    if advanced(ts, q, r) {
                        prefixed(seq![(c, e)], assignments_at(ts, r + 1))
                    } else {
                        None
                    }
                } else {
                    Some((seq![(c, e)], r))
                },
                None => None,
            }
        } else {
            None
        },
        None => None,
    }
}

/// `UPDATE table SET column = value, ... [WHERE condition]`.
pub open spec fn update_at(ts: Seq<SToken>, p: int) -> Option<(SUpdate, int)> {
    if at_keyword(ts, p, "UPDATE"@) && at_keyword(ts, p + 2, "SET"@) {
        match word_at(ts, p + 1) {
            Some(table) => match assignments_at(ts, p + 3) {
                Some((assignments, q)) => match where_at(ts, q) {
                    Some((filter, e)) => Some((SUpdate { table, assignments, filter }, e)),
                    None => None,
                },
                None => None,
            },
            None => None,
        }
    } else {
        None
    }
}

/// `DELETE FROM table [WHERE condition]`.
pub open spec fn delete_at(ts: Seq<SToken>, p: int) -> Option<(SDelete, int)> {
    if at_keyword(ts, p, "DELETE"@) && at_keyword(ts, p + 1, "FROM"@) {
        match word_at(ts, p + 2) {
            Some(table) => match where_at(ts, p + 3) {
                Some((filter, e)) => Some((SDelete { table, filter }, e)),
                None => None,
            },
            None => None,
        }
    } else {
        None
    }
}

/// One statement, chosen by its first keyword.
pub open spec fn statement_at(ts: Seq<SToken>, p: int) -> Option<(SStatement, int)> {
    if at_keyword(ts, p, "CREATE"@) {
        match create_table_at(ts, p) {
            Some((c, e)) => Some((SStatement::CreateTable(c), e)),
            None => None,
        }
    } else if at_keyword(ts, p, "INSERT"@) {
        match insert_at(ts, p) {
            Some((i, e)) => Some((SStatement::Insert(i), e)),
            None => None,
        }
    } else if at_keyword(ts, p, "SELECT"@) {
        match select_at(ts, p) {
            Some((s, e)) => Some((SStatement::Select(s), e)),
            None => None,
        }
    } else if at_keyword(ts, p, "UPDATE"@) {
        match update_at(ts, p) {
            Some((u, e)) => Some((SStatement::Update(u), e)),
            None => None,
        }
    } else if at_keyword(ts, p, "DELETE"@) {
        match delete_at(ts, p) {
            Some((d, e)) => Some((SStatement::Delete(d), e)),
            None => None,
        }
    } else {
        None
    }
}

/// The statement a SQL text spells: one statement over all its tokens,
/// optionally followed by a semicolon.
/// `cs` reads as one statement, then an optional semicolon, and more tokens.
pub open spec fn trailing_tokens(cs: Seq<char>) -> bool {
    lex(cs) matches Some(ts) && statement_at(ts, 0) matches Some((st, q)) && (if at_token(
        ts,
        q,
        SToken::Semicolon,
    ) {
        q + 1
    } else {
        q
    }) != ts.len()
}

pub open spec fn parse_sql(cs: Seq<char>) -> Option<SStatement> {
    match lex(cs) {
        Some(ts) => match statement_at(ts, 0) {
            Some((st, q)) => {
                let e = if at_token(ts, q, SToken::Semicolon) {
                    q + 1
                } else {
                    q
                };
                if e == ts.len() {
                    Some(st)
                } else {
                    None
                }
            },
            None => None,
        },
        None => None,
    }
}

// --- Parser state ---------------------------------------------------------------------

/// What a parser function returned agrees with what the grammar gives: the
/// construct and the position after it, or a parse error where there is none.
pub open spec fn parsed<T: View>(s: Option<(T::V, int)>, r: Result<(T, usize)>) -> bool {
    match s {
        Some((x, q)) => r matches Ok((v, q2)) && v@ == x && q2 == q,
        None => r matches Err(e) && e is Parse,
    }
}

/// `pre` put in front of the list that `s` gives, if it gives one.
pub open spec fn prefixed<A>(pre: Seq<A>, s: Option<(Seq<A>, int)>) -> Option<(Seq<A>, int)> {
    match s {
        Some((xs, e)) => Some((pre + xs, e)),
        None => None,
    }
}

proof fn lemma_prefixed_push<A>(pre: Seq<A>, x: A, s: Option<(Seq<A>, int)>)
    ensures
        prefixed(pre, prefixed(seq![x], s)) == prefixed(pre.push(x), s),
{
    match s {
        Some((xs, e)) => {
            assert(pre + (seq![x] + xs) =~= pre.push(x) + xs);
        },
        None => {},
    }
}

struct Parser {
    tokens: Vec<Token>,
}

impl Parser {
    spec fn ts(&self) -> Seq<SToken> {
        tokens_view(self.tokens@)
    }

    fn fail(msg: &str) -> (e: Error)
        ensures
            e matches Error::Parse(m) && m@ == msg@,
    {
        Error::Parse(text(msg))
    }

    /// Whether the token at `p` is the keyword `kw`.
    fn keyword_at(&self, p: usize, kw: &str) -> (b: bool)
        ensures
            b == at_keyword(self.ts(), p as int, kw@),
            b ==> p < self.tokens.len(),
    {
        if p < self.tokens.len() {
            match &self.tokens[p] {
                Token::Word(w) => str_eq_ignore_case(w.as_str(), kw),
                _ => false,
            }
        } else {
            false
        }
    }

    /// Whether the token at `p` is the punctuation token `t`.
    fn token_is(&self, p: usize, t: &Token) -> (b: bool)
        requires
            !(t is Word || t is String || t is Integer),
        ensures
            b == at_token(self.ts(), p as int, t@),
            b ==> p < self.tokens.len(),
    {
        if p < self.tokens.len() {
            match (&self.tokens[p], t) {
                (Token::LParen, Token::LParen) => true,
                (Token::RParen, Token::RParen) => true,
                (Token::Comma, Token::Comma) => true,
                (Token::Semicolon, Token::Semicolon) => true,
                (Token::Star, Token::Star) => true,
                (Token::Question, Token::Question) => true,
                (Token::Eq, Token::Eq) => true,
                (Token::NotEq, Token::NotEq) => true,
                (Token::Lt, Token::Lt) => true,
                (Token::LtEq, Token::LtEq) => true,
                (Token::Gt, Token::Gt) => true,
                (Token::GtEq, Token::GtEq) => true,
                _ => false,
            }
        } else {
            false
        }
    }

    /// The word at `p` (any word, keywords included, may serve as a name).
    fn word(&self, p: usize) -> (r: Result<String>)
        ensures
            match word_at(self.ts(), p as int) {
                Some(w) => r matches Ok(s) && s@ == w,
                None => r matches Err(e) && e is Parse,
            },
            r is Ok ==> p < self.tokens.len(),
    {
        if p < self.tokens.len() {
            match &self.tokens[p] {
                Token::Word(w) => Ok(w.clone()),
                _ => Err(Self::fail("expected identifier")),
            }
        } else {
            Err(Self::fail("unexpected end of input"))
        }
    }

    // --- Expressions ------------------------------------------------------------------

    fn parse_expr(&self, p: usize) -> (r: Result<(Expr, usize)>)
        ensures
            parsed(expr_at(self.ts(), p as int), r),
            r matches Ok((_, q)) ==> advanced(self.ts(), p as int, q as int),
        decreases self.tokens@.len() - p, 7int,
    {
        self.parse_or(p)
    }

    fn parse_or(&self, p: usize) -> (r: Result<(Expr, usize)>)
        ensures
            parsed(or_at(self.ts(), p as int), r),
            r matches Ok((_, q)) ==> advanced(self.ts(), p as int, q as int),
        decreases self.tokens@.len() - p, 6int,
    {
        let ghost ts = self.ts();
        let (mut left, mut q) = self.parse_and(p)?;
        while self.keyword_at(q, "OR")
            invariant
                ts == self.ts(),
                ts.len() == self.tokens.len(),
                advanced(ts, p as int, q as int),
                or_rest(ts, left@, q as int) == or_at(ts, p as int),
            decreases self.tokens@.len() - q,
        {
            let (right, r) = self.parse_and(q + 1)?;
            left = Expr::Binary { left: Box::new(left), op: BinOp::Or, right: Box::new(right) };
            q = r;
        }
        Ok((left, q))
    }

    fn parse_and(&self, p: usize) -> (r: Result<(Expr, usize)>)
        ensures
            parsed(and_at(self.ts(), p as int), r),
            r matches Ok((_, q)) ==> advanced(self.ts(), p as int, q as int),
        decreases self.tokens@.len() - p, 4int,
    {
        let ghost ts = self.ts();
        let (mut left, mut q) = self.parse_comparison(p)?;
        while self.keyword_at(q, "AND")
            invariant
                ts == self.ts(),
                ts.len() == self.tokens.len(),
                advanced(ts, p as int, q as int),
                and_rest(ts, left@, q as int) == and_at(ts, p as int),
            decreases self.tokens@.len() - q,
        {
            let (right, r) = self.parse_comparison(q + 1)?;
            left = Expr::Binary { left: Box::new(left), op: BinOp::And, right: Box::new(right) };
            q = r;
        }
        Ok((left, q))
    }

    fn parse_comparison(&self, p: usize) -> (r: Result<(Expr, usize)>)
        ensures
            parsed(comparison_at(self.ts(), p as int), r),
            r matches Ok((_, q)) ==> advanced(self.ts(), p as int, q as int),
        decreases self.tokens@.len() - p, 2int,
    {
        let (left, q) = self.parse_primary(p)?;
        let op = if q < self.tokens.len() {
            match &self.tokens[q] {
                Token::Eq => Some(BinOp::Eq),
                Token::NotEq => Some(BinOp::NotEq),
                Token::Lt => Some(BinOp::Lt),
                Token::LtEq => Some(BinOp::LtEq),
                Token::Gt => Some(BinOp::Gt),
                Token::GtEq => Some(BinOp::GtEq),
                _ => None,
            }
        } else {
            None
        };
        match op {
            None => Ok((left, q)),
            Some(op) => {
                let (right, r) = self.parse_primary(q + 1)?;
                Ok((Expr::Binary { left: Box::new(left), op, right: Box::new(right) }, r))
            },
        }
    }

    fn parse_primary(&self, p: usize) -> (r: Result<(Expr, usize)>)
        ensures
            parsed(primary_at(self.ts(), p as int), r),
            r matches Ok((_, q)) ==> advanced(self.ts(), p as int, q as int),
        decreases self.tokens@.len() - p, 1int,
    {
        if p >= self.tokens.len() {
            return Err(Self::fail("unexpected end of input"));
        }
        match &self.tokens[p] {
            Token::LParen => {
                let (e, q) = self.parse_expr(p + 1)?;
                if self.token_is(q, &Token::RParen) {
                    Ok((e, q + 1))
                } else {
                    Err(Self::fail("expected ')' after expression"))
                }
            },
            Token::Question => Ok((Expr::Param, p + 1)),
            Token::Integer(i) => Ok((Expr::Literal(Value::Integer(*i)), p + 1)),
            Token::String(s) => Ok((Expr::Literal(Value::Text(s.clone())), p + 1)),
            Token::Word(w) => {
                let e = if str_eq_ignore_case(w.as_str(), "TRUE") {
                    Expr::Literal(Value::Boolean(true))
                } else if str_eq_ignore_case(w.as_str(), "FALSE") {
                    Expr::Literal(Value::Boolean(false))
                } else if str_eq_ignore_case(w.as_str(), "NULL") {
                    Expr::Literal(Value::Null)
                } else {
                    Expr::Column(w.clone())
                };
                Ok((e, p + 1))
            },
            _ => Err(Self::fail("unexpected token in expression")),
        }
    }
    // --- Statements -------------------------------------------------------------------

    fn parse_where(&self, q: usize) -> (r: Result<(Option<Expr>, usize)>)
        ensures
            match where_at(self.ts(), q as int) {
                Some((f, e)) => r matches Ok((x, e2)) && filter_view(x) == f && e2 == e,
                None => r matches Err(err) && err is Parse,
            },
    {
        if self.keyword_at(q, "WHERE") {
            let (e, r) = self.parse_expr(q + 1)?;
            Ok((Some(e), r))
        } else {
            Ok((None, q))
        }
    }

    fn parse_constraints(&self, q0: usize) -> (r: Result<(bool, usize)>)
        ensures
            match constraints_at(self.ts(), q0 as int) {
                Some((pk, e)) => r matches Ok((b, e2)) && b == pk && e2 == e,
                None => r matches Err(err) && err is Parse,
            },
            r matches Ok((_, e)) ==> q0 <= e,
    {
        let ghost ts = self.ts();
        let mut primary_key = false;
        let mut q = q0;
        loop
            invariant
                ts == self.ts(),
                ts.len() == self.tokens.len(),
                q0 <= q,
                constraints_at(ts, q0 as int) == match constraints_at(ts, q as int) {
                    Some((pk, e)) => Some((primary_key || pk, e)),
                    None => None,
                },
            decreases ts.len() - q,
        {
            if self.keyword_at(q, "PRIMARY") {
                if !self.keyword_at(q + 1, "KEY") {
                    return Err(Self::fail("expected keyword 'KEY'"));
                }
                primary_key = true;
                q = q + 2;
            } else if self.keyword_at(q, "NOT") {
                if !self.keyword_at(q + 1, "NULL") {
                    return Err(Self::fail("expected keyword 'NULL'"));
                }
                q = q + 2;
            } else {
                return Ok((primary_key, q));
            }
        }
    }

    fn parse_column_def(&self, q: usize) -> (r: Result<(ColumnDef, usize)>)
        ensures
            parsed(column_def_at(self.ts(), q as int), r),
            r matches Ok((_, e)) ==> q < e,
    {
        let name = self.word(q)?;
        let kw = self.word(q + 1)?;
        let data_type = match DataType::from_keyword(kw.as_str()) {
            Some(t) => t,
            None => {
                return Err(Error::Parse(quoted("unknown column type '", kw.as_str(), "'")));
            },
        };
        let (primary_key, r) = self.parse_constraints(q + 2)?;
        Ok((ColumnDef { name, data_type, primary_key }, r))
    }

    fn parse_column_defs(&self, q0: usize) -> (r: Result<(Vec<ColumnDef>, usize)>)
        ensures
            match column_defs_at(self.ts(), q0 as int) {
                Some((cs, e)) => r matches Ok((v, e2)) && column_defs_view(v@) == cs && e2 == e,
                None => r matches Err(err) && err is Parse,
            },
    {
        let ghost ts = self.ts();
        let mut columns: Vec<ColumnDef> = Vec::new();
        let mut q = q0;
        loop
            invariant
                ts == self.ts(),
                ts.len() == self.tokens.len(),
                column_defs_at(ts, q0 as int) == prefixed(
                    column_defs_view(columns@),
                    column_defs_at(ts, q as int),
                ),
            decreases ts.len() - q,
        {
            let (c, r) = self.parse_column_def(q)?;
            let ghost before = column_defs_view(columns@);
            if self.token_is(r, &Token::Comma) {
                proof {
                    lemma_prefixed_push(before, c@, column_defs_at(ts, r + 1));
                }
                columns.push(c);
                proof {
                    assert(column_defs_view(columns@) =~= before.push(c@));
                }
                q = r + 1;
            } else if self.token_is(r, &Token::RParen) {
                columns.push(c);
                proof {
                    assert(column_defs_view(columns@) =~= before + seq![c@]);
                }
                return Ok((columns, r + 1));
            } else {
                return Err(Self::fail("expected ',' or ')' in column list"));
            }
        }
    }

    fn parse_create_table(&self, p: usize) -> (r: Result<(CreateTable, usize)>)
        ensures
            parsed(create_table_at(self.ts(), p as int), r),
    {
        if !self.keyword_at(p, "CREATE") {
            return Err(Self::fail("expected keyword 'CREATE'"));
        }
        if !self.keyword_at(p + 1, "TABLE") {
            return Err(Self::fail("expected keyword 'TABLE'"));
        }
        let (if_not_exists, n) = if self.keyword_at(p + 2, "IF") {
            if !(self.keyword_at(p + 3, "NOT") && self.keyword_at(p + 4, "EXISTS")) {
                return Err(Self::fail("expected 'IF NOT EXISTS'"));
            }
            (true, p + 5)
        } else {
            (false, p + 2)
        };
        let name = self.word(n)?;
        if !self.token_is(n + 1, &Token::LParen) {
            return Err(Self::fail("expected '(' after the table name"));
        }
        let (columns, e) = self.parse_column_defs(n + 2)?;
        Ok((CreateTable { name, if_not_exists, columns }, e))
    }

    fn parse_names(&self, q0: usize) -> (r: Result<(Vec<String>, usize)>)
        ensures
            match names_at(self.ts(), q0 as int) {
                Some((ns, e)) => r matches Ok((v, e2)) && names_view(v@) == ns && e2 == e,
                None => r matches Err(err) && err is Parse,
            },
    {
        let ghost ts = self.ts();
        let mut names: Vec<String> = Vec::new();
        let mut q = q0;
        loop
            invariant
                ts == self.ts(),
                ts.len() == self.tokens.len(),
                names_at(ts, q0 as int) == prefixed(names_view(names@), names_at(ts, q as int)),
            decreases ts.len() - q,
        {
            let w = self.word(q)?;
            let ghost before = names_view(names@);
            if self.token_is(q + 1, &Token::Comma) {
                proof {
                    lemma_prefixed_push(before, w@, names_at(ts, q + 2));
                }
                names.push(w);
                proof {
                    assert(names_view(names@) =~= before.push(w@));
                }
                q = q + 2;
            } else if self.token_is(q + 1, &Token::RParen) {
                names.push(w);
                proof {
                    assert(names_view(names@) =~= before + seq![w@]);
                }
                return Ok((names, q + 2));
            } else {
                return Err(Self::fail("expected ',' or ')' in column list"));
            }
        }
    }

    fn parse_values(&self, q0: usize) -> (r: Result<(Vec<Expr>, usize)>)
        ensures
            match values_at(self.ts(), q0 as int) {
                Some((es, e)) => r matches Ok((v, e2)) && exprs_view(v@) == es && e2 == e,
                None => r matches Err(err) && err is Parse,
            },
            r matches Ok((_, e)) ==> advanced(self.ts(), q0 as int, e as int),
    {
        let ghost ts = self.ts();
        let mut values: Vec<Expr> = Vec::new();
        let mut q = q0;
        loop
            invariant
                ts == self.ts(),
                ts.len() == self.tokens.len(),
                q0 <= q,
                values_at(ts, q0 as int) == prefixed(exprs_view(values@), values_at(ts, q as int)),
            decreases ts.len() - q,
        {
            let (x, r) = self.parse_expr(q)?;
            let ghost before = exprs_view(values@);
            if self.token_is(r, &Token::Comma) {
                proof {
                    lemma_prefixed_push(before, x@, values_at(ts, r + 1));
                }
                values.push(x);
                proof {
                    assert(exprs_view(values@) =~= before.push(x@));
                }
                q = r + 1;
            } else if self.token_is(r, &Token::RParen) {
                values.push(x);
                proof {
                    assert(exprs_view(values@) =~= before + seq![x@]);
                }
                return Ok((values, r + 1));
            } else {
                return Err(Self::fail("expected ',' or ')' in value list"));
            }
        }
    }

    fn parse_rows(&self, q0: usize) -> (r: Result<(Vec<Vec<Expr>>, usize)>)
        ensures
            match rows_at(self.ts(), q0 as int) {
                Some((rs, e)) => r matches Ok((v, e2)) && rows_view(v@) == rs && e2 == e,
                None => r matches Err(err) && err is Parse,
            },
    {
        let ghost ts = self.ts();
        let mut rows: Vec<Vec<Expr>> = Vec::new();
        let mut q = q0;
        loop
            invariant
                ts == self.ts(),
                ts.len() == self.tokens.len(),
                rows_at(ts, q0 as int) == prefixed(rows_view(rows@), rows_at(ts, q as int)),
            decreases ts.len() - q,
        {
            if !self.token_is(q, &Token::LParen) {
                return Err(Self::fail("expected '(' before a value list"));
            }
            let (row, r) = self.parse_values(q + 1)?;
            let ghost before = rows_view(rows@);
            let ghost rv = exprs_view(row@);
            if self.token_is(r, &Token::Comma) {
                proof {
                    lemma_prefixed_push(before, rv, rows_at(ts, r + 1));
                }
                rows.push(row);
                proof {
                    assert(rows_view(rows@) =~= before.push(rv));
                }
                q = r + 1;
            } else {
                rows.push(row);
                proof {
                    assert(rows_view(rows@) =~= before + seq![rv]);
                }
                return Ok((rows, r));
            }
        }
    }

    fn parse_insert(&self, p: usize) -> (r: Result<(Insert, usize)>)
        ensures
            parsed(insert_at(self.ts(), p as int), r),
    {
        if !self.keyword_at(p, "INSERT") {
            return Err(Self::fail("expected keyword 'INSERT'"));
        }
        if !self.keyword_at(p + 1, "INTO") {
            return Err(Self::fail("expected keyword 'INTO'"));
        }
        let table = self.word(p + 2)?;
        let (columns, v) = if self.token_is(p + 3, &Token::LParen) {
            let (names, e) = self.parse_names(p + 4)?;
            (Some(names), e)
        } else {
            (None, p + 3)
        };
        if !self.keyword_at(v, "VALUES") {
            return Err(Self::fail("expected keyword 'VALUES'"));
        }
        let (rows, e) = self.parse_rows(v + 1)?;
        Ok((Insert { table, columns, rows }, e))
    }

    fn parse_select_columns(&self, q0: usize) -> (r: Result<(Vec<String>, usize)>)
        ensures
            match select_columns_at(self.ts(), q0 as int) {
                Some((ns, e)) => r matches Ok((v, e2)) && names_view(v@) == ns && e2 == e,
                None => r matches Err(err) && err is Parse,
            },
    {
        let ghost ts = self.ts();
        let mut names: Vec<String> = Vec::new();
        let mut q = q0;
        loop
            invariant
                ts == self.ts(),
                ts.len() == self.tokens.len(),
                select_columns_at(ts, q0 as int) == prefixed(
                    names_view(names@),
                    select_columns_at(ts, q as int),
                ),
            decreases ts.len() - q,
        {
            let w = self.word(q)?;
            let ghost before = names_view(names@);
            if self.token_is(q + 1, &Token::Comma) {
                proof {
                    lemma_prefixed_push(before, w@, select_columns_at(ts, q + 2));
                }
                names.push(w);
                proof {
                    assert(names_view(names@) =~= before.push(w@));
                }
                q = q + 2;
            } else {
                names.push(w);
                proof {
                    assert(names_view(names@) =~= before + seq![w@]);
                }
                return Ok((names, q + 1));
            }
        }
    }

    fn parse_select(&self, p: usize) -> (r: Result<(Select, usize)>)
        ensures
            parsed(select_at(self.ts(), p as int), r),
    {
        if !self.keyword_at(p, "SELECT") {
            return Err(Self::fail("expected keyword 'SELECT'"));
        }
        let (projection, q) = if self.token_is(p + 1, &Token::Star) {
            (Projection::All, p + 2)
        } else {
            let (names, e) = self.parse_select_columns(p + 1)?;
            (Projection::Columns(names), e)
        };
        if !self.keyword_at(q, "FROM") {
            return Err(Self::fail("expected keyword 'FROM'"));
        }
        let table = self.word(q + 1)?;
        let (filter, e) = self.parse_where(q + 2)?;
        Ok((Select { projection, table, filter }, e))
    }

    fn parse_assignments(&self, q0: usize) -> (r: Result<(Vec<(String, Expr)>, usize)>)
        ensures
            match assignments_at(self.ts(), q0 as int) {
                Some((xs, e)) => r matches Ok((v, e2)) && assignments_view(v@) == xs && e2 == e,
                None => r matches Err(err) && err is Parse,
            },
    {
        let ghost ts = self.ts();
        let mut assignments: Vec<(String, Expr)> = Vec::new();
        let mut q = q0;
        loop
            invariant
                ts == self.ts(),
                ts.len() == self.tokens.len(),
                assignments_at(ts, q0 as int) == prefixed(
                    assignments_view(assignments@),
                    assignments_at(ts, q as int),
                ),
            decreases ts.len() - q,
        {
            let column = self.word(q)?;
            if !self.token_is(q + 1, &Token::Eq) {
                return Err(Self::fail("expected '=' in assignment"));
            }
            let (value, r) = self.parse_expr(q + 2)?;
            let ghost before = assignments_view(assignments@);
            let ghost pair = (column@, value@);
            if self.token_is(r, &Token::Comma) {
                proof {
                    lemma_prefixed_push(before, pair, assignments_at(ts, r + 1));
                }
                assignments.push((column, value));
                proof {
                    assert(assignments_view(assignments@) =~= before.push(pair));
                }
                q = r + 1;
            } else {
                assignments.push((column, value));
                proof {
                    assert(assignments_view(assignments@) =~= before + seq![pair]);
                }
                return Ok((assignments, r));
            }
        }
    }

    fn parse_update(&self, p: usize) -> (r: Result<(Update, usize)>)
        ensures
            parsed(update_at(self.ts(), p as int), r),
    {
        if !self.keyword_at(p, "UPDATE") {
            return Err(Self::fail("expected keyword 'UPDATE'"));
        }
        let table = self.word(p + 1)?;
        if !self.keyword_at(p + 2, "SET") {
            return Err(Self::fail("expected keyword 'SET'"));
        }
        let (assignments, q) = self.parse_assignments(p + 3)?;
        let (filter, e) = self.parse_where(q)?;
        Ok((Update { table, assignments, filter }, e))
    }

    fn parse_delete(&self, p: usize) -> (r: Result<(Delete, usize)>)
        ensures
            parsed(delete_at(self.ts(), p as int), r),
    {
        if !self.keyword_at(p, "DELETE") {
            return Err(Self::fail("expected keyword 'DELETE'"));
        }
        if !self.keyword_at(p + 1, "FROM") {
            return Err(Self::fail("expected keyword 'FROM'"));
        }
        let table = self.word(p + 2)?;
        let (filter, e) = self.parse_where(p + 3)?;
        Ok((Delete { table, filter }, e))
    }

    fn parse_statement(&self, p: usize) -> (r: Result<(Statement, usize)>)
        ensures
            parsed(statement_at(self.ts(), p as int), r),
    {
        if self.keyword_at(p, "CREATE") {
            let (c, e) = self.parse_create_table(p)?;
            Ok((Statement::CreateTable(c), e))
        } else if self.keyword_at(p, "INSERT") {
            let (i, e) = self.parse_insert(p)?;
            Ok((Statement::Insert(i), e))
        } else if self.keyword_at(p, "SELECT") {
            let (s, e) = self.parse_select(p)?;
            Ok((Statement::Select(s), e))
        } else if self.keyword_at(p, "UPDATE") {
            let (u, e) = self.parse_update(p)?;
            Ok((Statement::Update(u), e))
        } else if self.keyword_at(p, "DELETE") {
            let (d, e) = self.parse_delete(p)?;
            Ok((Statement::Delete(d), e))
        } else {
            Err(Self::fail("unsupported or unknown statement start"))
        }
    }
}

/// Parses a single SQL statement, optionally followed by a semicolon.
pub fn parse(sql: &str) -> (r: Result<Statement>)
    ensures
        match parse_sql(sql@) {
            Some(st) => r matches Ok(s) && s@ == st,
            None => r matches Err(e) && e is Parse,
        },
        trailing_tokens(sql@) ==> (r matches Err(Error::Parse(m)) && m@
            == "unexpected trailing tokens after statement"@),
{
    let tokens = tokenize(sql)?;
    let parser = Parser { tokens };
    let (stmt, q) = parser.parse_statement(0)?;
    let end = if parser.token_is(q, &Token::Semicolon) {
        q + 1
    } else {
        q
    };
    if end != parser.tokens.len() {
        return Err(Parser::fail("unexpected trailing tokens after statement"));
    }
    Ok(stmt)
}


// --- Laws of the grammar -------------------------------------------------------------

/// The constraints of a column definition make it a primary key exactly when
/// the keyword `PRIMARY` is among the tokens they span; `NOT NULL` alone
/// does not.
pub proof fn lemma_constraints_primary(ts: Seq<SToken>, q: int)
    requires
        constraints_at(ts, q) is Some,
    ensures
        ({
            let (pk, r) = constraints_at(ts, q).unwrap();
            &&& q <= r
            &&& pk <==> exists|k: int| q <= k < r && #[trigger] at_keyword(ts, k, "PRIMARY"@)
        }),
    decreases ts.len() - q,
{
    reveal_strlit("PRIMARY");
    reveal_strlit("KEY");
    reveal_strlit("NOT");
    reveal_strlit("NULL");
    let (pk, r) = constraints_at(ts, q).unwrap();
    if at_keyword(ts, q, "PRIMARY"@) {
        lemma_constraints_primary(ts, q + 2);
        assert(q <= q && q < r && at_keyword(ts, q, "PRIMARY"@));
    } else if at_keyword(ts, q, "NOT"@) {
        lemma_constraints_primary(ts, q + 2);
        let (pk2, r2) = constraints_at(ts, q + 2).unwrap();
        assert(!at_keyword(ts, q + 1, "PRIMARY"@)) by {
            if at_keyword(ts, q + 1, "PRIMARY"@) {
                let w = ts[q + 1]->Word_0;
                assert(eq_ignore_case(w, "NULL"@));
                assert(w.len() == 4);
            }
        }
        if exists|k: int| q <= k < r && #[trigger] at_keyword(ts, k, "PRIMARY"@) {
            let k = choose|k: int| q <= k < r && #[trigger] at_keyword(ts, k, "PRIMARY"@);
            assert(k != q);
            assert(k != q + 1);
        }
    } else {
        assert(r == q);
    }
}


/// No comma among the tokens `p .. q`.
pub open spec fn no_commas(ts: Seq<SToken>, p: int, q: int) -> bool {
    forall|k: int| p <= k < q ==> #[trigger] ts[k] != SToken::Comma
}

/// The number of commas among the tokens `p .. q`.
pub open spec fn comma_count(ts: Seq<SToken>, p: int, q: int) -> nat
    decreases q - p,
{
    if q <= p {
        0
    } else {
        comma_count(ts, p, q - 1) + if ts[q - 1] == SToken::Comma {
            1nat
        } else {
            0nat
        }
    }
}

proof fn lemma_comma_count_split(ts: Seq<SToken>, p: int, m: int, q: int)
    requires
        p <= m <= q,
    ensures
        comma_count(ts, p, q) == comma_count(ts, p, m) + comma_count(ts, m, q),
    decreases q - m,
{
    if m < q {
        lemma_comma_count_split(ts, p, m, q - 1);
    }
}

proof fn lemma_no_commas_count(ts: Seq<SToken>, p: int, q: int)
    requires
        p <= q,
        no_commas(ts, p, q),
    ensures
        comma_count(ts, p, q) == 0,
    decreases q - p,
{
    if p < q {
        lemma_no_commas_count(ts, p, q - 1);
    }
}

proof fn lemma_expr_no_comma(ts: Seq<SToken>, p: int)
    ensures
        expr_at(ts, p) matches Some((e, q)) ==> p < q <= ts.len() && no_commas(ts, p, q),
    decreases ts.len() - p, 7int,
{
    lemma_or_no_comma(ts, p);
}

proof fn lemma_or_no_comma(ts: Seq<SToken>, p: int)
    ensures
        or_at(ts, p) matches Some((e, q)) ==> p < q <= ts.len() && no_commas(ts, p, q),
    decreases ts.len() - p, 6int,
{
    lemma_and_no_comma(ts, p);
    if let Some((left, q)) = and_at(ts, p) {
        if advanced(ts, p, q) {
            lemma_or_rest_no_comma(ts, left, q);
        }
    }
}

proof fn lemma_or_rest_no_comma(ts: Seq<SToken>, left: SExpr, q: int)
    requires
        q <= ts.len(),
    ensures
        or_rest(ts, left, q) matches Some((e, r)) ==> q <= r <= ts.len() && no_commas(ts, q, r),
    decreases ts.len() - q, 5int,
{
    if at_keyword(ts, q, "OR"@) {
        lemma_and_no_comma(ts, q + 1);
        if let Some((right, r)) = and_at(ts, q + 1) {
            if advanced(ts, q, r) {
                lemma_or_rest_no_comma(ts, binary(left, BinOp::Or, right), r);
            }
        }
    }
}

proof fn lemma_and_no_comma(ts: Seq<SToken>, p: int)
    ensures
        and_at(ts, p) matches Some((e, q)) ==> p < q <= ts.len() && no_commas(ts, p, q),
    decreases ts.len() - p, 4int,
{
    lemma_comparison_no_comma(ts, p);
    if let Some((left, q)) = comparison_at(ts, p) {
        if advanced(ts, p, q) {
            lemma_and_rest_no_comma(ts, left, q);
        }
    }
}

proof fn lemma_and_rest_no_comma(ts: Seq<SToken>, left: SExpr, q: int)
    requires
        q <= ts.len(),
    ensures
        and_rest(ts, left, q) matches Some((e, r)) ==> q <= r <= ts.len() && no_commas(ts, q, r),
    decreases ts.len() - q, 3int,
{
    if at_keyword(ts, q, "AND"@) {
        lemma_comparison_no_comma(ts, q + 1);
        if let Some((right, r)) = comparison_at(ts, q + 1) {
            if advanced(ts, q, r) {
                lemma_and_rest_no_comma(ts, binary(left, BinOp::And, right), r);
            }
        }
    }
}

proof fn lemma_comparison_no_comma(ts: Seq<SToken>, p: int)
    ensures
        comparison_at(ts, p) matches Some((e, q)) ==> p < q <= ts.len() && no_commas(ts, p, q),
    decreases ts.len() - p, 2int,
{
    lemma_primary_no_comma(ts, p);
    if let Some((left, q)) = primary_at(ts, p) {
        if advanced(ts, p, q) && q < ts.len() && comparison_op(ts[q]) is Some {
            lemma_primary_no_comma(ts, q + 1);
        }
    }
}

proof fn lemma_primary_no_comma(ts: Seq<SToken>, p: int)
    ensures
        primary_at(ts, p) matches Some((e, q)) ==> p < q <= ts.len() && no_commas(ts, p, q),
    decreases ts.len() - p, 1int,
{
    if 0 <= p < ts.len() {
        if ts[p] == SToken::LParen {
            lemma_expr_no_comma(ts, p + 1);
        }
    }
}

/// The assignments of `SET c1 = e1, ..., cn = en` are as many as the pairs:
/// one more than the commas between them (no expression holds a comma), and
/// the first names the column that the list starts with.
pub proof fn lemma_assignments_count(ts: Seq<SToken>, q: int)
    requires
        assignments_at(ts, q) is Some,
    ensures
        ({
            let (a, r) = assignments_at(ts, q).unwrap();
            &&& q < r <= ts.len()
            &&& a.len() == 1 + comma_count(ts, q, r)
            &&& word_at(ts, q) == Some(a[0].0)
        }),
    decreases ts.len() - q,
{
    let (a, r) = assignments_at(ts, q).unwrap();
    lemma_expr_no_comma(ts, q + 2);
    let (e, r1) = expr_at(ts, q + 2).unwrap();
    assert(ts[q] != SToken::Comma);
    assert(ts[q + 1] != SToken::Comma);
    lemma_no_commas_count(ts, q + 2, r1);
    lemma_comma_count_split(ts, q, q + 2, r1);
    assert(comma_count(ts, q, q + 2) == 0) by {
        assert(comma_count(ts, q, q) == 0);
        assert(comma_count(ts, q, q + 1) == 0);
    }
    if at_token(ts, r1, SToken::Comma) {
        lemma_assignments_count(ts, r1 + 1);
        let (b, r2) = assignments_at(ts, r1 + 1).unwrap();
        lemma_comma_count_split(ts, q, r1, r2);
        lemma_comma_count_split(ts, r1, r1 + 1, r2);
        assert(comma_count(ts, r1, r1) == 0);
        assert(comma_count(ts, r1, r1 + 1) == 1);
        assert(a == seq![(word_at(ts, q).unwrap(), e)] + b);
    }
}

} // verus!
