//! Hand-written SQL tokenizer.
//!
//! The tokenizer is specified by `lex`, a function over the characters of the
//! input that reads one token at a time, left to right.

use crate::error::{quoted, text, Error, Result};
use crate::strings::{
    char_is_alphabetic, char_is_alphanumeric, char_is_whitespace, chars_of, is_digit, push_char,
    string_of, unicode_alphabetic, unicode_alphanumeric, unicode_whitespace,
};
use vstd::prelude::*;

verus! {

broadcast use vstd::seq_lib::group_seq_properties;

#[derive(Debug, Clone, PartialEq)]
pub enum Token {
    /// A bare word: keyword or identifier (kept verbatim; matched later).
    Word(String),
    /// A quoted string literal (contents, unescaped).
    String(String),
    /// An integer literal.
    Integer(i64),
    LParen,
    RParen,
    Comma,
    Semicolon,
    Star,
    Question,
    Eq,
    NotEq,
    Lt,
    LtEq,
    Gt,
    GtEq,
}

/// The mathematical form of a [`Token`].
pub enum SToken {
    Word(Seq<char>),
    Str(Seq<char>),
    Integer(i64),
    LParen,
    RParen,
    Comma,
    Semicolon,
    Star,
    Question,
    Eq,
    NotEq,
    Lt,
    LtEq,
    Gt,
    GtEq,
}

impl View for Token {
    type V = SToken;

    open spec fn view(&self) -> SToken {
        match self {
            Token::Word(w) => SToken::Word(w@),
            Token::String(s) => SToken::Str(s@),
            Token::Integer(i) => SToken::Integer(*i),
            Token::LParen => SToken::LParen,
            Token::RParen => SToken::RParen,
            Token::Comma => SToken::Comma,
            Token::Semicolon => SToken::Semicolon,
            Token::Star => SToken::Star,
            Token::Question => SToken::Question,
            Token::Eq => SToken::Eq,
            Token::NotEq => SToken::NotEq,
            Token::Lt => SToken::Lt,
            Token::LtEq => SToken::LtEq,
            Token::Gt => SToken::Gt,
            Token::GtEq => SToken::GtEq,
        }
    }
}

pub open spec fn tokens_view(ts: Seq<Token>) -> Seq<SToken> {
    ts.map_values(|t: Token| t@)
}

impl Token {
    /// A copy of the token.
    pub fn duplicate(&self) -> (t: Token)
        ensures
            t@ == self@,
    {
        match self {
            Token::Word(w) => Token::Word(w.clone()),
            Token::String(s) => Token::String(s.clone()),
            Token::Integer(i) => Token::Integer(*i),
            Token::LParen => Token::LParen,
            Token::RParen => Token::RParen,
            Token::Comma => Token::Comma,
            Token::Semicolon => Token::Semicolon,
            Token::Star => Token::Star,
            Token::Question => Token::Question,
            Token::Eq => Token::Eq,
            Token::NotEq => Token::NotEq,
            Token::Lt => Token::Lt,
            Token::LtEq => Token::LtEq,
            Token::Gt => Token::Gt,
            Token::GtEq => Token::GtEq,
        }
    }
}

// --- The lexical grammar ---------------------------------------------------------

/// A character that may continue a word.
pub open spec fn word_char(c: char) -> bool {
    unicode_alphanumeric(c) || c == '_'
}

/// The end of the word whose characters continue from `i`.
pub open spec fn word_end(cs: Seq<char>, i: int) -> int
    decreases cs.len() - i,
{
    if 0 <= i < cs.len() && word_char(cs[i]) {
        word_end(cs, i + 1)
    } else {
        i
    }
}

/// The end of the run of ASCII digits from `i`.
pub open spec fn digits_end(cs: Seq<char>, i: int) -> int
    decreases cs.len() - i,
{
    if 0 <= i < cs.len() && is_digit(cs[i]) {
        digits_end(cs, i + 1)
    } else {
        i
    }
}

/// The position of the first line break at or after `i` (or the end).
pub open spec fn line_end(cs: Seq<char>, i: int) -> int
    decreases cs.len() - i,
{
    if 0 <= i < cs.len() && cs[i] != '\n' {
        line_end(cs, i + 1)
    } else {
        i
    }
}

/// The contents of a string literal whose text starts at `i` (just after the
/// opening quote), with `''` standing for one quote, and the position after
/// its closing quote; `None` when the literal is not terminated.
pub open spec fn string_lit(cs: Seq<char>, i: int) -> Option<(Seq<char>, int)>
    decreases cs.len() - i,
{
    if i < 0 || i >= cs.len() {
        None
    } else if cs[i] == '\'' {
        if i + 1 < cs.len() && cs[i + 1] == '\'' {
            match string_lit(cs, i + 2) {
                Some((s, e)) => Some((seq!['\''] + s, e)),
                None => None,
            }
        } else {
            Some((Seq::<char>::empty(), i + 1))
        }
    } else {
        match string_lit(cs, i + 1) {
            Some((s, e)) => Some((seq![cs[i]] + s, e)),
            None => None,
        }
    }
}

/// The value of a run of ASCII digits.
pub open spec fn digits_value(ds: Seq<char>) -> int
    decreases ds.len(),
{
    if ds.len() == 0 {
        0
    } else {
        digits_value(ds.drop_last()) * 10 + (ds.last() as u32 - 48)
    }
}

/// The value of an integer literal (digits with an optional leading minus),
/// when it fits an `i64`.
pub open spec fn int_lit(t: Seq<char>) -> Option<i64> {
    if t.len() > 0 && t[0] == '-' {
        let v = -digits_value(t.skip(1));
        if i64::MIN <= v {
            Some(v as i64)
        } else {
            None
        }
    } else {
        let v = digits_value(t);
        if v <= i64::MAX {
            Some(v as i64)
        } else {
            None
        }
    }
}

pub proof fn lemma_ends(cs: Seq<char>, i: int)
    requires
        0 <= i <= cs.len(),
    ensures
        i <= word_end(cs, i) <= cs.len(),
        i <= digits_end(cs, i) <= cs.len(),
        i <= line_end(cs, i) <= cs.len(),
        string_lit(cs, i) matches Some((_, e)) ==> i < e <= cs.len(),
    decreases cs.len() - i,
{
    if i < cs.len() {
        lemma_ends(cs, i + 1);
        if i + 2 <= cs.len() {
            lemma_ends(cs, i + 2);
        }
    }
}

/// A single token spelled by one character, if `c` is one.
pub open spec fn single_char_token(c: char) -> Option<SToken> {
    if c == '(' {
        Some(SToken::LParen)
    } else if c == ')' {
        Some(SToken::RParen)
    } else if c == ',' {
        Some(SToken::Comma)
    } else if c == ';' {
        Some(SToken::Semicolon)
    } else if c == '*' {
        Some(SToken::Star)
    } else if c == '?' {
        Some(SToken::Question)
    } else if c == '=' {
        Some(SToken::Eq)
    } else {
        None
    }
}

/// The tokens of `cs` from position `i` on, or `None` on a lexical error.
pub open spec fn lex_from(cs: Seq<char>, i: int) -> Option<Seq<SToken>>
    decreases cs.len() - i,
{
    if i < 0 || i >= cs.len() {
        Some(Seq::<SToken>::empty())
    } else {
        let c = cs[i];
        let has_next = i + 1 < cs.len();
        if unicode_whitespace(c) {
            lex_from(cs, i + 1)
        } else if c == '-' && (has_next && cs[i + 1] == '-') {
            proof {
                lemma_ends(cs, i + 2);
            }
            lex_from(cs, line_end(cs, i + 2))
        } else if single_char_token(c) is Some {
            prepend(single_char_token(c).unwrap(), lex_from(cs, i + 1))
        } else if c == '!' && (has_next && cs[i + 1] == '=') {
            prepend(SToken::NotEq, lex_from(cs, i + 2))
        } else if c == '<' {
            if (has_next && cs[i + 1] == '=') {
                prepend(SToken::LtEq, lex_from(cs, i + 2))
            } else if (has_next && cs[i + 1] == '>') {
                prepend(SToken::NotEq, lex_from(cs, i + 2))
            } else {
                prepend(SToken::Lt, lex_from(cs, i + 1))
            }
        } else if c == '>' {
            if (has_next && cs[i + 1] == '=') {
                prepend(SToken::GtEq, lex_from(cs, i + 2))
            } else {
                prepend(SToken::Gt, lex_from(cs, i + 1))
            }
        } else if c == '\'' {
            proof {
                lemma_ends(cs, i + 1);
            }
            match string_lit(cs, i + 1) {
                Some((s, e)) => prepend(SToken::Str(s), lex_from(cs, e)),
                None => None,
            }
        } else if is_digit(c) || (c == '-' && i + 1 < cs.len() && is_digit(cs[i + 1])) {
            let start = if c == '-' {
                i + 1
            } else {
                i
            };
            proof {
                lemma_ends(cs, start + 1);
            }
            let end = digits_end(cs, start + 1);
            match int_lit(cs.subrange(i, end)) {
                Some(v) => prepend(SToken::Integer(v), lex_from(cs, end)),
                None => None,
            }
        } else if unicode_alphabetic(c) || c == '_' {
            proof {
                lemma_ends(cs, i + 1);
            }
            let end = word_end(cs, i + 1);
            prepend(SToken::Word(cs.subrange(i, end)), lex_from(cs, end))
        } else {
            None
        }
    }
}

/// The message of the first lexical error in `cs` from position `i` on (the
/// empty text when there is none).
pub open spec fn lex_failure(cs: Seq<char>, i: int) -> Seq<char>
    decreases cs.len() - i,
{
    if i < 0 || i >= cs.len() {
        Seq::<char>::empty()
    } else {
        let c = cs[i];
        let has_next = i + 1 < cs.len();
        if unicode_whitespace(c) {
            lex_failure(cs, i + 1)
        } else if c == '-' && (has_next && cs[i + 1] == '-') {
            proof {
                lemma_ends(cs, i + 2);
            }
            lex_failure(cs, line_end(cs, i + 2))
        } else if single_char_token(c) is Some {
            lex_failure(cs, i + 1)
        } else if c == '!' && (has_next && cs[i + 1] == '=') {
            lex_failure(cs, i + 2)
        } else if c == '<' {
            if (has_next && cs[i + 1] == '=') || (has_next && cs[i + 1] == '>') {
                lex_failure(cs, i + 2)
            } else {
                lex_failure(cs, i + 1)
            }
        } else if c == '>' {
            if has_next && cs[i + 1] == '=' {
                lex_failure(cs, i + 2)
            } else {
                lex_failure(cs, i + 1)
            }
        } else if c == '\'' {
            proof {
                lemma_ends(cs, i + 1);
            }
            match string_lit(cs, i + 1) {
                Some((s, e)) => lex_failure(cs, e),
                None => "unterminated string literal"@,
            }
        } else if is_digit(c) || (c == '-' && i + 1 < cs.len() && is_digit(cs[i + 1])) {
            let start = if c == '-' {
                i + 1
            } else {
                i
            };
            proof {
                lemma_ends(cs, start + 1);
            }
            let end = digits_end(cs, start + 1);
            match int_lit(cs.subrange(i, end)) {
                Some(v) => lex_failure(cs, end),
                None => "invalid integer '"@ + cs.subrange(i, end) + "'"@,
            }
        } else if unicode_alphabetic(c) || c == '_' {
            proof {
                lemma_ends(cs, i + 1);
            }
            lex_failure(cs, word_end(cs, i + 1))
        } else {
            "unexpected character '"@ + seq![c] + "'"@
        }
    }
}

pub open spec fn prepend(t: SToken, rest: Option<Seq<SToken>>) -> Option<Seq<SToken>> {
    match rest {
        Some(r) => Some(seq![t] + r),
        None => None,
    }
}

/// The tokens of a SQL text, or `None` on a lexical error.
pub open spec fn lex(cs: Seq<char>) -> Option<Seq<SToken>> {
    lex_from(cs, 0)
}

// --- Scanners ----------------------------------------------------------------------

fn scan_word_end(cs: &Vec<char>, i: usize) -> (j: usize)
    requires
        i <= cs@.len(),
    ensures
        j == word_end(cs@, i as int),
{
    let mut j = i;
    while j < cs.len() && (char_is_alphanumeric(cs[j]) || cs[j] == '_')
        invariant
            i <= j <= cs@.len(),
            word_end(cs@, i as int) == word_end(cs@, j as int),
        decreases cs@.len() - j,
    {
        j = j + 1;
    }
    j
}

fn scan_digits_end(cs: &Vec<char>, i: usize) -> (j: usize)
    requires
        i <= cs@.len(),
    ensures
        j == digits_end(cs@, i as int),
{
    let mut j = i;
    while j < cs.len() && '0' <= cs[j] && cs[j] <= '9'
        invariant
            i <= j <= cs@.len(),
            digits_end(cs@, i as int) == digits_end(cs@, j as int),
        decreases cs@.len() - j,
    {
        j = j + 1;
    }
    j
}

fn scan_line_end(cs: &Vec<char>, i: usize) -> (j: usize)
    requires
        i <= cs@.len(),
    ensures
        j == line_end(cs@, i as int),
{
    let mut j = i;
    while j < cs.len() && cs[j] != '\n'
        invariant
            i <= j <= cs@.len(),
            line_end(cs@, i as int) == line_end(cs@, j as int),
        decreases cs@.len() - j,
    {
        j = j + 1;
    }
    j
}

fn scan_string(cs: &Vec<char>, i: usize) -> (r: Option<(String, usize)>)
    requires
        i <= cs@.len(),
    ensures
        match string_lit(cs@, i as int) {
            Some((s, e)) => r matches Some((t, f)) && t@ == s && f == e,
            None => r is None,
        },
{
    let mut s = String::new();
    let mut j = i;
    loop
        invariant
            i <= j <= cs@.len(),
            string_lit(cs@, i as int) == match string_lit(cs@, j as int) {
                Some((t, e)) => Some((s@ + t, e)),
                None => None,
            },
        decreases cs@.len() - j,
    {
        if j >= cs.len() {
            return None;
        }
        let ch = cs[j];
        if ch == '\'' {
            if j + 1 < cs.len() && cs[j + 1] == '\'' {
                let ghost before = s@;
                push_char(&mut s, '\'');
                proof {
                    match string_lit(cs@, j + 2) {
                        Some((t, e)) => {
                            assert(before + (seq!['\''] + t) =~= s@ + t);
                        },
                        None => {},
                    }
                }
                j = j + 2;
            } else {
                proof {
                    assert(s@ + Seq::<char>::empty() =~= s@);
                }
                return Some((s, j + 1));
            }
        } else {
            let ghost before = s@;
            push_char(&mut s, ch);
            proof {
                match string_lit(cs@, j + 1) {
                    Some((t, e)) => {
                        assert(before + (seq![ch] + t) =~= s@ + t);
                    },
                    None => {},
                }
            }
            j = j + 1;
        }
    }
}

/// The digits are nonnegative, and a prefix of them is worth no more than
/// the whole.
proof fn lemma_digits_value_prefix(ds: Seq<char>, k: int)
    requires
        0 <= k <= ds.len(),
        forall|i: int| 0 <= i < ds.len() ==> is_digit(#[trigger] ds[i]),
    ensures
        0 <= digits_value(ds.take(k)) <= digits_value(ds),
    decreases ds.len(),
{
    if k < ds.len() {
        assert(ds.drop_last().take(k) =~= ds.take(k));
        lemma_digits_value_prefix(ds.drop_last(), k);
        lemma_digits_value_prefix(ds.drop_last(), ds.len() - 1);
        assert(ds.drop_last().take(ds.len() - 1) =~= ds.drop_last());
    } else {
        assert(ds.take(k) =~= ds);
        if ds.len() > 0 {
            lemma_digits_value_prefix(ds.drop_last(), ds.len() - 1);
            assert(ds.drop_last().take(ds.len() - 1) =~= ds.drop_last());
        }
    }
}

/// The value of the integer literal `cs[start..end]`.
fn int_value(cs: &Vec<char>, start: usize, end: usize) -> (r: Option<i64>)
    requires
        start < end <= cs@.len(),
        cs@[start as int] == '-' ==> start + 1 < end,
        forall|k: int|
            start <= k < end && (k > start || cs@[start as int] != '-') ==> is_digit(
                #[trigger] cs@[k],
            ),
    ensures
        r == int_lit(cs@.subrange(start as int, end as int)),
{
    let ghost t = cs@.subrange(start as int, end as int);
    let neg = cs[start] == '-';
    let first = if neg {
        start + 1
    } else {
        start
    };
    let ghost ds = cs@.subrange(first as int, end as int);
    proof {
        if neg {
            assert(t.skip(1) =~= ds);
        } else {
            assert(t =~= ds);
        }
        assert forall|i: int| 0 <= i < ds.len() implies is_digit(#[trigger] ds[i]) by {
            assert(ds[i] == cs@[first + i]);
        }
    }
    let mut acc: i64 = 0;
    let mut j = first;
    while j < end
        invariant
            first <= j <= end <= cs@.len(),
            ds == cs@.subrange(first as int, end as int),
            forall|i: int| 0 <= i < ds.len() ==> is_digit(#[trigger] ds[i]),
            t == cs@.subrange(start as int, end as int),
            start < end,
            neg ==> t.skip(1) == ds && t[0] == '-',
            !neg ==> t == ds && t[0] != '-',
            neg ==> acc == -digits_value(ds.take(j - first)),
            !neg ==> acc == digits_value(ds.take(j - first)),
        decreases end - j,
    {
        proof {
            assert(ds[j - first] == cs@[j as int]);
            assert(is_digit(ds[j - first]));
            assert(ds.take(j - first + 1).drop_last() =~= ds.take(j - first));
            assert(ds.take(j - first + 1).last() == cs@[j as int]);
            lemma_digits_value_prefix(ds, j - first + 1);
            lemma_digits_value_prefix(ds, j - first);
        }
        let d = (cs[j] as u32 - 48) as i64;
        assert(digits_value(ds.take(j - first + 1)) == digits_value(ds.take(j - first)) * 10 + d);
        let next = match acc.checked_mul(10) {
            Some(m) => if neg {
                m.checked_sub(d)
            } else {
                m.checked_add(d)
            },
            None => None,
        };
        match next {
            Some(v) => {
                acc = v;
            },
            None => {
                proof {
                    if neg {
                        assert(-digits_value(ds) < i64::MIN);
                    } else {
                        assert(digits_value(ds) > i64::MAX);
                    }
                }
                return None;
            },
        }
        j = j + 1;
    }
    proof {
        assert(ds.take(j - first) =~= ds);
    }
    Some(acc)
}

/// Tokenizes SQL text into a flat token vector.
pub fn tokenize(input: &str) -> (r: Result<Vec<Token>>)
    ensures
        match lex(input@) {
            Some(ts) => r matches Ok(v) && tokens_view(v@) == ts,
            None => r matches Err(Error::Parse(m)) && m@ == lex_failure(input@, 0),
        },
{
    let chars = chars_of(input);
    let ghost cs = input@;
    let mut tokens: Vec<Token> = Vec::new();
    let mut i: usize = 0;
    while i < chars.len()
        invariant
            chars@ == cs,
            cs == input@,
            i <= cs.len(),
            lex(cs) == match lex_from(cs, i as int) {
                Some(rest) => Some(tokens_view(tokens@) + rest),
                None => None,
            },
            lex_failure(cs, 0) == lex_failure(cs, i as int),
        decreases cs.len() - i,
    {
        let c = chars[i];
        let ghost before = tokens_view(tokens@);
        let next = if i + 1 < chars.len() {
            Some(chars[i + 1])
        } else {
            None
        };
        let single = if c == '(' {
            Some(Token::LParen)
        } else if c == ')' {
            Some(Token::RParen)
        } else if c == ',' {
            Some(Token::Comma)
        } else if c == ';' {
            Some(Token::Semicolon)
        } else if c == '*' {
            Some(Token::Star)
        } else if c == '?' {
            Some(Token::Question)
        } else if c == '=' {
            Some(Token::Eq)
        } else {
            None
        };
        let (tok, end): (Option<Token>, usize) = if char_is_whitespace(c) {
            (None, i + 1)
        } else if c == '-' && next == Some('-') {
            proof {
                lemma_ends(cs, i + 2);
            }
            (None, scan_line_end(&chars, i + 2))
        } else if let Some(t) = single {
            (Some(t), i + 1)
        } else if c == '!' && next == Some('=') {
            (Some(Token::NotEq), i + 2)
        } else if c == '<' {
            if next == Some('=') {
                (Some(Token::LtEq), i + 2)
            } else if next == Some('>') {
                (Some(Token::NotEq), i + 2)
            } else {
                (Some(Token::Lt), i + 1)
            }
        } else if c == '>' {
            if next == Some('=') {
                (Some(Token::GtEq), i + 2)
            } else {
                (Some(Token::Gt), i + 1)
            }
        } else if c == '\'' {
            proof {
                lemma_ends(cs, i + 1);
            }
            match scan_string(&chars, i + 1) {
                Some((s, e)) => (Some(Token::String(s)), e),
                None => {
                    return Err(Error::Parse(text("unterminated string literal")));
                },
            }
        } else if ('0' <= c && c <= '9') || (c == '-' && i + 1 < chars.len() && '0' <= chars[i
            + 1] && chars[i + 1] <= '9') {
            let start = if c == '-' {
                i + 1
            } else {
                i
            };
            proof {
                lemma_ends(cs, start + 1);
            }
            let end = scan_digits_end(&chars, start + 1);
            proof {
                assert forall|k: int|
                    i <= k < end && (k > i || cs[i as int] != '-') implies is_digit(
                    #[trigger] cs[k],
                ) by {
                    if k > start {
                        lemma_digits_run(cs, start + 1, k);
                    }
                }
            }
            match int_value(&chars, i, end) {
                Some(v) => (Some(Token::Integer(v)), end),
                None => {
                    let literal = string_of(&chars, i, end);
                    return Err(Error::Parse(quoted("invalid integer '", literal.as_str(), "'")));
                },
            }
        } else if char_is_alphabetic(c) || c == '_' {
            proof {
                lemma_ends(cs, i + 1);
            }
            let end = scan_word_end(&chars, i + 1);
            (Some(Token::Word(string_of(&chars, i, end))), end)
        } else {
            let found = string_of(&chars, i, i + 1);
            return Err(Error::Parse(quoted("unexpected character '", found.as_str(), "'")));
        };
        match tok {
            Some(t) => {
                tokens.push(t);
                proof {
                    match lex_from(cs, end as int) {
                        Some(rest) => {
                            assert(tokens_view(tokens@) =~= before.push(t@));
                            assert(before + (seq![t@] + rest) =~= tokens_view(tokens@) + rest);
                        },
                        None => {},
                    }
                }
            },
            None => {},
        }
        i = end;
    }
    proof {
        assert(tokens_view(tokens@) + Seq::<SToken>::empty() =~= tokens_view(tokens@));
    }
    Ok(tokens)
}

/// Every character before the end of a run of digits is a digit.
proof fn lemma_digits_run(cs: Seq<char>, i: int, k: int)
    requires
        0 <= i <= k < digits_end(cs, i),
        i <= cs.len(),
    ensures
        is_digit(cs[k]),
    decreases k - i,
{
    if i < k {
        lemma_digits_run(cs, i + 1, k);
    }
}

} // verus!
