//! Row (record) serialization.
//!
//! A row is stored as a self-describing sequence of tagged values in column
//! order: a u32 count, then each value with its type tag.

use crate::bytes::{enc_u32, lemma_u32_roundtrip, parse_u32, ByteReader, ByteWriter};
use crate::error::Result;
use crate::value::{
    enc_value, lemma_parse_value_encodable, lemma_value_roundtrip, parse_value, value_encodable,
    SValue, Value,
};
use vstd::prelude::*;

verus! {

/// The mathematical form of a row.
pub open spec fn values_view(vs: Seq<Value>) -> Seq<SValue> {
    vs.map_values(|v: Value| v@)
}

/// The values of a row, encoded one after the other.
pub open spec fn enc_values(vs: Seq<SValue>) -> Seq<u8>
    decreases vs.len(),
{
    if vs.len() == 0 {
        Seq::<u8>::empty()
    } else {
        enc_values(vs.drop_last()) + enc_value(vs.last())
    }
}

/// The cell payload of a row: the count of values, then the values.
pub open spec fn enc_row(vs: Seq<SValue>) -> Seq<u8> {
    enc_u32(vs.len() as u32) + enc_values(vs)
}

/// A row can be encoded when its count and every text fit their u32 prefixes.
pub open spec fn row_encodable(vs: Seq<SValue>) -> bool {
    &&& vs.len() <= u32::MAX
    &&& forall|i: int| 0 <= i < vs.len() ==> value_encodable(#[trigger] vs[i])
}

/// Parses `n` values one after the other.
pub open spec fn parse_values(s: Seq<u8>, n: nat) -> Option<(Seq<SValue>, int)>
    decreases n,
{
    if n == 0 {
        Some((Seq::<SValue>::empty(), 0))
    } else {
        match parse_values(s, (n - 1) as nat) {
            Some((vs, m)) => match parse_value(s.skip(m)) {
                Some((v, k)) => Some((vs.push(v), m + k)),
                None => None,
            },
            None => None,
        }
    }
}

/// Parses a cell payload into a row. Bytes after the last value are ignored.
pub open spec fn parse_row(s: Seq<u8>) -> Option<Seq<SValue>> {
    match parse_u32(s) {
        Some((n, k)) => match parse_values(s.skip(k), n as nat) {
            Some((vs, _)) => Some(vs),
            None => None,
        },
        None => None,
    }
}

pub proof fn lemma_parse_values_len(s: Seq<u8>, n: nat)
    ensures
        parse_values(s, n) matches Some((vs, m)) ==> 0 <= m <= s.len() && vs.len() == n && (
        forall|i: int| 0 <= i < vs.len() ==> value_encodable(#[trigger] vs[i])),
    decreases n,
{
    if n > 0 {
        lemma_parse_values_len(s, (n - 1) as nat);
        if let Some((vs, m)) = parse_values(s, (n - 1) as nat) {
            if parse_value(s.skip(m)) is Some {
                lemma_parse_value_encodable(s.skip(m));
                let (v, k) = parse_value(s.skip(m)).unwrap();
                assert forall|i: int| 0 <= i < vs.push(v).len() implies value_encodable(
                    #[trigger] vs.push(v)[i],
                ) by {
                    if i < vs.len() {
                        assert(vs.push(v)[i] == vs[i]);
                    }
                }
            }
        }
    }
}

/// Once parsing fails after some number of values, it fails for every
/// larger number of values.
pub proof fn lemma_parse_values_fails_on(s: Seq<u8>, i: nat, n: nat)
    requires
        i <= n,
        parse_values(s, i) is None,
    ensures
        parse_values(s, n) is None,
    decreases n - i,
{
    if i < n {
        lemma_parse_values_fails_on(s, i, (n - 1) as nat);
    }
}

/// Decoding encoded values gives them back and consumes exactly their bytes.
pub proof fn lemma_values_roundtrip(vs: Seq<SValue>, rest: Seq<u8>)
    requires
        forall|i: int| 0 <= i < vs.len() ==> value_encodable(#[trigger] vs[i]),
    ensures
        parse_values(enc_values(vs) + rest, vs.len()) == Some((vs, enc_values(vs).len() as int)),
    decreases vs.len(),
{
    if vs.len() > 0 {
        let init = vs.drop_last();
        let last = vs.last();
        assert forall|i: int| 0 <= i < init.len() implies value_encodable(#[trigger] init[i]) by {
            assert(init[i] == vs[i]);
        }
        assert(value_encodable(vs[vs.len() - 1]));
        let tail = enc_value(last) + rest;
        lemma_values_roundtrip(init, tail);
        assert(enc_values(vs) + rest =~= enc_values(init) + tail);
        let m = enc_values(init).len() as int;
        assert((enc_values(vs) + rest).skip(m) =~= tail);
        lemma_value_roundtrip(last, rest);
        assert(init.push(last) =~= vs);
    }
}

/// Decoding an encoded row gives it back.
pub proof fn lemma_row_roundtrip(vs: Seq<SValue>, rest: Seq<u8>)
    requires
        row_encodable(vs),
    ensures
        parse_row(enc_row(vs) + rest) == Some(vs),
{
    let body = enc_values(vs) + rest;
    lemma_u32_roundtrip(vs.len() as u32, body);
    assert(enc_row(vs) + rest =~= enc_u32(vs.len() as u32) + body);
    assert((enc_row(vs) + rest).skip(4) =~= body);
    lemma_values_roundtrip(vs, rest);
}

/// Every decoded row can be encoded again.
pub proof fn lemma_parse_row_encodable(s: Seq<u8>)
    requires
        parse_row(s) is Some,
    ensures
        row_encodable(parse_row(s).unwrap()),
{
    let (n, k) = parse_u32(s).unwrap();
    lemma_parse_values_len(s.skip(k), n as nat);
}

/// The length of an encoded value.
proof fn lemma_value_len(v: SValue)
    ensures
        enc_value(v).len() == match v {
            SValue::Null => 1int,
            SValue::Integer(_) => 9int,
            SValue::Text(t) => 5 + vstd::utf8::encode_utf8(t).len() as int,
            SValue::Boolean(_) => 2int,
        },
{
    vstd::bytes::lemma_auto_spec_u32_to_from_le_bytes();
    vstd::bytes::lemma_auto_spec_u64_to_from_le_bytes();
}

/// The encoded length of a row, when it is at most `cap` (a small cap, so
/// that a row within it can always be encoded).
pub fn row_len_within(values: &[Value], cap: usize) -> (r: Option<usize>)
    requires
        cap <= u16::MAX,
    ensures
        r is Some <==> enc_row(values_view(values@)).len() <= cap,
        r matches Some(n) ==> n == enc_row(values_view(values@)).len() && row_encodable(
            values_view(values@),
        ),
{
    proof {
        vstd::bytes::lemma_auto_spec_u32_to_from_le_bytes();
    }
    let ghost vs = values_view(values@);
    let mut acc: usize = 4;
    if acc > cap {
        proof {
            lemma_values_prefix_len(vs, 0);
        }
        return None;
    }
    let mut i: usize = 0;
    while i < values.len()
        invariant
            i <= values@.len(),
            vs == values_view(values@),
            cap <= u16::MAX,
            acc == 4 + enc_values(vs.take(i as int)).len(),
            acc <= cap,
            forall|k: int| 0 <= k < i ==> value_encodable(#[trigger] vs[k]),
            forall|x: u32| (#[trigger] enc_u32(x)).len() == 4,
        decreases values@.len() - i,
    {
        proof {
            lemma_value_len(vs[i as int]);
        }
        let len: usize = match &values[i] {
            Value::Null => 1,
            Value::Integer(_) => 9,
            Value::Text(t) => {
                let n = crate::strings::utf8_len(t.as_str());
                if n > cap {
                    proof {
                        lemma_values_prefix_len(vs, i as int + 1);
                        assert(vs.take(i + 1).drop_last() =~= vs.take(i as int));
                    }
                    return None;
                }
                5 + n
            },
            Value::Boolean(_) => 2,
        };
        if len > cap - acc {
            proof {
                lemma_values_prefix_len(vs, i as int + 1);
                assert(vs.take(i + 1).drop_last() =~= vs.take(i as int));
            }
            return None;
        }
        acc = acc + len;
        i = i + 1;
        proof {
            assert(vs.take(i as int).drop_last() =~= vs.take(i - 1));
        }
    }
    assert(vs.take(i as int) =~= vs);
    proof {
        lemma_values_count(vs);
    }
    Some(acc)
}

/// The encoded length of a row, when it is at most `u64::MAX`.
pub fn row_len(values: &[Value]) -> (r: Option<u64>)
    ensures
        r is Some <==> enc_row(values_view(values@)).len() <= u64::MAX,
        r matches Some(n) ==> n == enc_row(values_view(values@)).len(),
{
    proof {
        vstd::bytes::lemma_auto_spec_u32_to_from_le_bytes();
    }
    let ghost vs = values_view(values@);
    let mut acc: u64 = 4;
    let mut i: usize = 0;
    while i < values.len()
        invariant
            i <= values@.len(),
            vs == values_view(values@),
            acc == 4 + enc_values(vs.take(i as int)).len(),
            forall|x: u32| (#[trigger] enc_u32(x)).len() == 4,
        decreases values@.len() - i,
    {
        proof {
            lemma_value_len(vs[i as int]);
            assert(vs.take(i + 1).drop_last() =~= vs.take(i as int));
        }
        let len: u64 = match &values[i] {
            Value::Null => 1,
            Value::Integer(_) => 9,
            Value::Text(t) => {
                let n = crate::strings::utf8_len(t.as_str()) as u64;
                match n.checked_add(5) {
                    Some(m) => m,
                    None => {
                        proof {
                            lemma_values_prefix_len(vs, i as int + 1);
                        }
                        return None;
                    },
                }
            },
            Value::Boolean(_) => 2,
        };
        match acc.checked_add(len) {
            Some(a) => {
                acc = a;
            },
            None => {
                proof {
                    lemma_values_prefix_len(vs, i as int + 1);
                }
                return None;
            },
        }
        i = i + 1;
    }
    assert(vs.take(i as int) =~= vs);
    proof {
        lemma_values_count(vs);
    }
    Some(acc)
}

/// A prefix of a row never encodes to more bytes than the whole row.
proof fn lemma_values_prefix_len(vs: Seq<SValue>, i: int)
    requires
        0 <= i <= vs.len(),
    ensures
        enc_values(vs.take(i)).len() <= enc_values(vs).len(),
    decreases vs.len(),
{
    if i < vs.len() {
        assert(vs.drop_last().take(i) =~= vs.take(i));
        lemma_values_prefix_len(vs.drop_last(), i);
    } else {
        assert(vs.take(i) =~= vs);
    }
}

/// Every value takes at least one byte.
proof fn lemma_values_count(vs: Seq<SValue>)
    ensures
        vs.len() <= enc_values(vs).len(),
    decreases vs.len(),
{
    if vs.len() > 0 {
        lemma_values_count(vs.drop_last());
        lemma_value_len(vs.last());
    }
}

/// Serializes a row into a cell payload.
pub fn encode_row(values: &[Value]) -> (cell: Vec<u8>)
    requires
        row_encodable(values_view(values@)),
    ensures
        cell@ == enc_row(values_view(values@)),
{
    let ghost vs = values_view(values@);
    let mut w = ByteWriter::new();
    w.u32(values.len() as u32);
    let mut i: usize = 0;
    while i < values.len()
        invariant
            i <= values@.len(),
            vs == values_view(values@),
            row_encodable(vs),
            w@ == enc_u32(vs.len() as u32) + enc_values(vs.take(i as int)),
        decreases values@.len() - i,
    {
        assert(value_encodable(vs[i as int]));
        values[i].write(&mut w);
        proof {
            assert(vs.take(i + 1).drop_last() =~= vs.take(i as int));
            assert(vs.take(i + 1).last() == values[i as int]@);
        }
        i = i + 1;
        assert(w@ =~= enc_u32(vs.len() as u32) + enc_values(vs.take(i as int)));
    }
    assert(vs.take(i as int) =~= vs);
    w.into_vec()
}

/// Deserializes a row from a cell payload.
pub fn decode_row(cell: &[u8]) -> (r: Result<Vec<Value>>)
    ensures
        match parse_row(cell@) {
            Some(vs) => r matches Ok(values) && values_view(values@) == vs,
            None => r matches Err(e) && e is Storage,
        },
{
    let mut r = ByteReader::new(cell);
    let n = r.u32()?;
    let ghost body = r.remaining();
    proof {
        assert(body =~= cell@.skip(4));
    }
    let mut values: Vec<Value> = Vec::new();
    let mut i: u32 = 0;
    let ghost mut m: int = 0;
    while i < n
        invariant
            i <= n,
            r.wf(),
            r.data() == cell@,
            parse_u32(cell@) == Some((n, 4int)),
            body == cell@.skip(4),
            parse_values(body, i as nat) == Some((values_view(values@), m)),
            0 <= m <= body.len(),
            r.remaining() == body.skip(m),
        decreases n - i,
    {
        let ghost rem = r.remaining();
        let v = match Value::read(&mut r) {
            Ok(v) => v,
            Err(e) => {
                proof {
                    lemma_parse_values_fails_on(body, (i + 1) as nat, n as nat);
                }
                return Err(e);
            },
        };
        proof {
            let k = parse_value(rem).unwrap().1;
            lemma_parse_value_encodable(rem);
            assert(r.remaining() =~= body.skip(m + k));
            m = m + k;
        }
        values.push(v);
        i = i + 1;
        assert(values_view(values@) =~= parse_values(body, i as nat).unwrap().0);
    }
    Ok(values)
}

} // verus!
