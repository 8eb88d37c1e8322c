//! Value and data-type model.
//!
//! The supported types are `INTEGER`, `TEXT`, and `BOOLEAN`, plus `NULL`.

use crate::bytes::{
    enc_i64, enc_string, enc_u8, lemma_i64_roundtrip, lemma_string_roundtrip, lemma_u8_roundtrip,
    parse_bytes, parse_i64, parse_string, parse_u8, string_encodable, ByteReader, ByteWriter,
};
use crate::error::{text, Error, Result};
use crate::strings::{decimal, decimal_string, eq_ignore_case, str_eq_ignore_case};
use vstd::prelude::*;

verus! {

/// The declared type of a column.
#[derive(Debug, Clone, Copy, PartialEq, Eq, Structural)]
pub enum DataType {
    Integer,
    Text,
    Boolean,
}

/// The keywords accepted for each type, compared without regard to ASCII case.
pub open spec fn keyword_type(kw: Seq<char>) -> Option<DataType> {
    if eq_ignore_case(kw, "INTEGER"@) || eq_ignore_case(kw, "INT"@) {
        Some(DataType::Integer)
    } else if eq_ignore_case(kw, "TEXT"@) || eq_ignore_case(kw, "STRING"@) || eq_ignore_case(
        kw,
        "VARCHAR"@,
    ) {
        Some(DataType::Text)
    } else if eq_ignore_case(kw, "BOOLEAN"@) || eq_ignore_case(kw, "BOOL"@) {
        Some(DataType::Boolean)
    } else {
        None
    }
}

/// The canonical SQL name of a type.
pub open spec fn sql_type_name(t: DataType) -> Seq<char> {
    match t {
        DataType::Integer => "INTEGER"@,
        DataType::Text => "TEXT"@,
        DataType::Boolean => "BOOLEAN"@,
    }
}

/// The on-page tag of a data type.
pub open spec fn type_tag(t: DataType) -> u8 {
    match t {
        DataType::Integer => 1,
        DataType::Text => 2,
        DataType::Boolean => 3,
    }
}

pub open spec fn tag_type(tag: u8) -> Option<DataType> {
    if tag == 1 {
        Some(DataType::Integer)
    } else if tag == 2 {
        Some(DataType::Text)
    } else if tag == 3 {
        Some(DataType::Boolean)
    } else {
        None
    }
}

pub open spec fn enc_type(t: DataType) -> Seq<u8> {
    enc_u8(type_tag(t))
}

pub open spec fn parse_type(s: Seq<u8>) -> Option<(DataType, int)> {
    match parse_u8(s) {
        Some((tag, k)) => match tag_type(tag) {
            Some(t) => Some((t, k)),
            None => None,
        },
        None => None,
    }
}

pub proof fn lemma_type_roundtrip(t: DataType, rest: Seq<u8>)
    ensures
        enc_type(t).len() == 1,
        parse_type(enc_type(t) + rest) == Some((t, 1int)),
{
    lemma_u8_roundtrip(type_tag(t), rest);
}

impl DataType {
    pub fn as_str(&self) -> (s: &'static str)
        ensures
            s@ == sql_type_name(*self),
    {
        match self {
            DataType::Integer => "INTEGER",
            DataType::Text => "TEXT",
            DataType::Boolean => "BOOLEAN",
        }
    }

    pub fn from_keyword(kw: &str) -> (r: Option<DataType>)
        ensures
            r == keyword_type(kw@),
    {
        if str_eq_ignore_case(kw, "INTEGER") || str_eq_ignore_case(kw, "INT") {
            Some(DataType::Integer)
        } else if str_eq_ignore_case(kw, "TEXT") || str_eq_ignore_case(kw, "STRING")
            || str_eq_ignore_case(kw, "VARCHAR") {
            Some(DataType::Text)
        } else if str_eq_ignore_case(kw, "BOOLEAN") || str_eq_ignore_case(kw, "BOOL") {
            Some(DataType::Boolean)
        } else {
            None
        }
    }

    fn tag(&self) -> (t: u8)
        ensures
            t == type_tag(*self),
    {
        match self {
            DataType::Integer => 1,
            DataType::Text => 2,
            DataType::Boolean => 3,
        }
    }

    fn from_tag(tag: u8) -> (r: Result<DataType>)
        ensures
            match tag_type(tag) {
                Some(t) => r == Ok::<DataType, Error>(t),
                None => r matches Err(Error::Storage(m)) && m@ == "unknown data type tag "@ + decimal(
                    tag as nat,
                ),
            },
    {
        if tag == 1 {
            Ok(DataType::Integer)
        } else if tag == 2 {
            Ok(DataType::Text)
        } else if tag == 3 {
            Ok(DataType::Boolean)
        } else {
            let n = decimal_string(tag as u64);
            proof {
                reveal_strlit("");
            }
            Err(Error::Storage(crate::error::quoted("unknown data type tag ", n.as_str(), "")))
        }
    }

    pub fn write(&self, w: &mut ByteWriter)
        ensures
            final(w)@ == old(w)@ + enc_type(*self),
    {
        w.u8(self.tag());
    }

    pub fn read(r: &mut ByteReader) -> (res: Result<DataType>)
        requires
            old(r).wf(),
        ensures
            final(r).wf(),
            final(r).data() == old(r).data(),
            match parse_type(old(r).remaining()) {
                Some((t, k)) => res == Ok::<DataType, Error>(t) && final(r).remaining() == old(r).remaining().skip(k),
                None => res matches Err(e) && e is Storage,
            },
            old(r).remaining().len() > 0 && parse_type(old(r).remaining()) is None ==> (res matches Err(
                Error::Storage(m),
            ) && m@ == "unknown data type tag "@ + decimal(old(r).remaining()[0] as nat)),
    {
        let tag = r.u8()?;
        DataType::from_tag(tag)
    }
}

/// A concrete runtime value.
#[derive(Debug, Clone, PartialEq)]
pub enum Value {
    Null,
    Integer(i64),
    Text(String),
    Boolean(bool),
}

/// The mathematical form of a [`Value`]: text is its character sequence.
pub enum SValue {
    Null,
    Integer(i64),
    Text(Seq<char>),
    Boolean(bool),
}

impl View for Value {
    type V = SValue;

    open spec fn view(&self) -> SValue {
        match self {
            Value::Null => SValue::Null,
            Value::Integer(i) => SValue::Integer(*i),
            Value::Text(s) => SValue::Text(s@),
            Value::Boolean(b) => SValue::Boolean(*b),
        }
    }
}

impl DeepView for Value {
    type V = SValue;

    open spec fn deep_view(&self) -> SValue {
        self@
    }
}

/// The type of a non-null value.
pub open spec fn value_type(v: SValue) -> Option<DataType> {
    match v {
        SValue::Null => None,
        SValue::Integer(_) => Some(DataType::Integer),
        SValue::Text(_) => Some(DataType::Text),
        SValue::Boolean(_) => Some(DataType::Boolean),
    }
}

/// What storing `v` in a column of type `ty` gives: the value itself when the
/// types agree (NULL fits every type), a boolean for the integers 0 and 1 in a
/// BOOLEAN column, and nothing otherwise.
pub open spec fn coerce(v: SValue, ty: DataType) -> Option<SValue> {
    match v {
        SValue::Null => Some(SValue::Null),
        SValue::Integer(i) => match ty {
            DataType::Integer => Some(v),
            DataType::Boolean => if i == 0 {
                Some(SValue::Boolean(false))
            } else if i == 1 {
                Some(SValue::Boolean(true))
            } else {
                None
            },
            DataType::Text => None,
        },
        SValue::Text(_) => if ty == DataType::Text {
            Some(v)
        } else {
            None
        },
        SValue::Boolean(_) => if ty == DataType::Boolean {
            Some(v)
        } else {
            None
        },
    }
}

pub open spec fn value_tag(v: SValue) -> u8 {
    match v {
        SValue::Null => 0,
        SValue::Integer(_) => 1,
        SValue::Text(_) => 2,
        SValue::Boolean(_) => 3,
    }
}

/// The encoding of a value: its tag, then its payload.
pub open spec fn enc_value(v: SValue) -> Seq<u8> {
    enc_u8(value_tag(v)) + match v {
        SValue::Null => Seq::<u8>::empty(),
        SValue::Integer(i) => enc_i64(i),
        SValue::Text(s) => enc_string(s),
        SValue::Boolean(b) => enc_u8(
            if b {
                1u8
            } else {
                0u8
            },
        ),
    }
}

/// A value can be encoded when its text (if any) fits the u32 length prefix.
pub open spec fn value_encodable(v: SValue) -> bool {
    match v {
        SValue::Text(s) => string_encodable(s),
        _ => true,
    }
}

pub open spec fn parse_value(s: Seq<u8>) -> Option<(SValue, int)> {
    match parse_u8(s) {
        Some((tag, k)) => {
            let rest = s.skip(k);
            if tag == 0 {
                Some((SValue::Null, k))
            } else if tag == 1 {
                match parse_i64(rest) {
                    Some((i, n)) => Some((SValue::Integer(i), k + n)),
                    None => None,
                }
            } else if tag == 2 {
                match parse_string(rest) {
                    Some((t, n)) => Some((SValue::Text(t), k + n)),
                    None => None,
                }
            } else if tag == 3 {
                match parse_u8(rest) {
                    Some((b, n)) => Some((SValue::Boolean(b != 0), k + n)),
                    None => None,
                }
            } else {
                None
            }
        },
        None => None,
    }
}

/// Decoding an encoded value gives it back and consumes exactly its bytes.
pub proof fn lemma_value_roundtrip(v: SValue, rest: Seq<u8>)
    requires
        value_encodable(v),
    ensures
        parse_value(enc_value(v) + rest) == Some((v, enc_value(v).len() as int)),
{
    let payload = enc_value(v).skip(1);
    assert(enc_value(v) =~= enc_u8(value_tag(v)) + payload);
    assert(enc_value(v) + rest =~= enc_u8(value_tag(v)) + (payload + rest));
    lemma_u8_roundtrip(value_tag(v), payload + rest);
    assert((enc_value(v) + rest).skip(1) =~= payload + rest);
    match v {
        SValue::Null => {
            assert(enc_value(v) =~= seq![0u8]);
            assert(parse_u8(enc_value(v) + rest) == Some((0u8, 1int)));
            assert(parse_value(enc_value(v) + rest) == Some((SValue::Null, 1int)));
        },
        SValue::Integer(i) => {
            lemma_i64_roundtrip(i, rest);
            assert(payload =~= enc_i64(i));
        },
        SValue::Text(s) => {
            lemma_string_roundtrip(s, rest);
            assert(payload =~= enc_string(s));
        },
        SValue::Boolean(b) => {
            lemma_u8_roundtrip(
                if b {
                    1u8
                } else {
                    0u8
                },
                rest,
            );
            assert(payload =~= enc_u8(
                if b {
                    1u8
                } else {
                    0u8
                },
            ));
        },
    }
}

/// Every decoded value can be encoded again.
pub proof fn lemma_parse_value_encodable(s: Seq<u8>)
    requires
        parse_value(s) is Some,
    ensures
        value_encodable(parse_value(s).unwrap().0),
        0 < parse_value(s).unwrap().1 <= s.len(),
{
    let rest = s.skip(1);
    if s[0] == 2 {
        let b = parse_bytes(rest).unwrap().0;
        vstd::utf8::decode_utf8_encode_utf8(b);
    }
}

impl Value {
    pub fn is_null(&self) -> (b: bool)
        ensures
            b == (self@ is Null),
    {
        match self {
            Value::Null => true,
            _ => false,
        }
    }

    /// Returns the type of a non-null value, or `None` for `NULL`.
    pub fn data_type(&self) -> (t: Option<DataType>)
        ensures
            t == value_type(self@),
    {
        match self {
            Value::Null => None,
            Value::Integer(_) => Some(DataType::Integer),
            Value::Text(_) => Some(DataType::Text),
            Value::Boolean(_) => Some(DataType::Boolean),
        }
    }

    /// A copy of the value.
    pub fn duplicate(&self) -> (r: Value)
        ensures
            r@ == self@,
    {
        match self {
            Value::Null => Value::Null,
            Value::Integer(i) => Value::Integer(*i),
            Value::Text(s) => Value::Text(s.clone()),
            Value::Boolean(b) => Value::Boolean(*b),
        }
    }

    /// Coerces/validates a value against a declared column type.
    ///
    /// A limited amount of coercion is allowed to make the SQL surface
    /// ergonomic (integers `0`/`1` into booleans).
    pub fn coerce_to(self, ty: DataType) -> (r: Result<Value>)
        ensures
            match coerce(self@, ty) {
                Some(v) => r matches Ok(w) && w@ == v,
                None => r matches Err(e) && e is Type,
            },
    {
        match (ty, self) {
            (_, Value::Null) => Ok(Value::Null),
            (DataType::Integer, Value::Integer(i)) => Ok(Value::Integer(i)),
            (DataType::Text, Value::Text(s)) => Ok(Value::Text(s)),
            (DataType::Boolean, Value::Boolean(b)) => Ok(Value::Boolean(b)),
            (DataType::Boolean, Value::Integer(0)) => Ok(Value::Boolean(false)),
            (DataType::Boolean, Value::Integer(1)) => Ok(Value::Boolean(true)),
            (ty, _) => Err(Error::Type(crate::error::quoted(
                "cannot store the value in a column of type ",
                ty.as_str(),
                "",
            ))),
        }
    }

    fn tag(&self) -> (t: u8)
        ensures
            t == value_tag(self@),
    {
        match self {
            Value::Null => 0,
            Value::Integer(_) => 1,
            Value::Text(_) => 2,
            Value::Boolean(_) => 3,
        }
    }

    pub fn write(&self, w: &mut ByteWriter)
        requires
            value_encodable(self@),
        ensures
            final(w)@ == old(w)@ + enc_value(self@),
    {
        w.u8(self.tag());
        match self {
            Value::Null => {},
            Value::Integer(i) => w.i64(*i),
            Value::Text(s) => w.string(s.as_str()),
            Value::Boolean(b) => w.u8(
                if *b {
                    1
                } else {
                    0
                },
            ),
        }
        assert(w@ =~= old(w)@ + enc_value(self@));
    }

    pub fn read(r: &mut ByteReader) -> (res: Result<Value>)
        requires
            old(r).wf(),
        ensures
            final(r).wf(),
            final(r).data() == old(r).data(),
            match parse_value(old(r).remaining()) {
                Some((v, k)) => res matches Ok(w) && w@ == v && final(r).remaining() == old(r).remaining().skip(k),
                None => res matches Err(e) && e is Storage,
            },
    {
        let ghost rem0 = r.remaining();
        let tag = r.u8()?;
        proof {
            assert(r.remaining() =~= rem0.skip(1));
        }
        if tag == 0 {
            Ok(Value::Null)
        } else if tag == 1 {
            let i = r.i64()?;
            proof {
                assert(r.remaining() =~= rem0.skip(9));
            }
            Ok(Value::Integer(i))
        } else if tag == 2 {
            let ghost rem1 = r.remaining();
            let s = r.string()?;
            proof {
                let k = parse_string(rem1).unwrap().1;
                assert(r.remaining() =~= rem0.skip(1 + k));
            }
            Ok(Value::Text(s))
        } else if tag == 3 {
            let b = r.u8()?;
            proof {
                assert(r.remaining() =~= rem0.skip(2));
            }
            Ok(Value::Boolean(b != 0))
        } else {
            let n = decimal_string(tag as u64);
            Err(Error::Storage(crate::error::quoted("unknown value tag ", n.as_str(), "")))
        }
    }
}

} // verus!
