//! Minimal little-endian byte reader/writer helpers.
//!
//! These helpers provide just enough primitives to encode catalog metadata
//! and records into pages. Every encoder has a spec counterpart (`enc_*`) and
//! every decoder is specified by a spec parser (`parse_*`) that returns the
//! decoded value together with the number of bytes it consumed.

use crate::error::{text, Error, Result};
use vstd::bytes::*;
use vstd::prelude::*;
use vstd::utf8::*;

verus! {

broadcast use vstd::seq_lib::group_seq_properties;

// --- Spec encoders ---------------------------------------------------------

pub open spec fn enc_u8(v: u8) -> Seq<u8> {
    seq![v]
}

pub open spec fn enc_u16(v: u16) -> Seq<u8> {
    spec_u16_to_le_bytes(v)
}

pub open spec fn enc_u32(v: u32) -> Seq<u8> {
    spec_u32_to_le_bytes(v)
}

pub open spec fn enc_i64(v: i64) -> Seq<u8> {
    spec_u64_to_le_bytes(v as u64)
}

/// A length-prefixed (u32) byte string.
pub open spec fn enc_bytes(b: Seq<u8>) -> Seq<u8> {
    enc_u32(b.len() as u32) + b
}

/// A length-prefixed (u32) UTF-8 string.
pub open spec fn enc_string(s: Seq<char>) -> Seq<u8> {
    enc_bytes(encode_utf8(s))
}

/// True when a string's UTF-8 form is short enough for its u32 length prefix.
pub open spec fn string_encodable(s: Seq<char>) -> bool {
    encode_utf8(s).len() <= u32::MAX
}

// --- Spec parsers ----------------------------------------------------------
// Each returns the decoded value and the number of bytes consumed.

pub open spec fn parse_u8(s: Seq<u8>) -> Option<(u8, int)> {
    if 1 <= s.len() {
        Some((s[0], 1))
    } else {
        None
    }
}

pub open spec fn parse_u16(s: Seq<u8>) -> Option<(u16, int)> {
    if 2 <= s.len() {
        Some((spec_u16_from_le_bytes(s.take(2)), 2))
    } else {
        None
    }
}

pub open spec fn parse_u32(s: Seq<u8>) -> Option<(u32, int)> {
    if 4 <= s.len() {
        Some((spec_u32_from_le_bytes(s.take(4)), 4))
    } else {
        None
    }
}

pub open spec fn parse_i64(s: Seq<u8>) -> Option<(i64, int)> {
    if 8 <= s.len() {
        Some((spec_u64_from_le_bytes(s.take(8)) as i64, 8))
    } else {
        None
    }
}

pub open spec fn parse_bytes(s: Seq<u8>) -> Option<(Seq<u8>, int)> {
    match parse_u32(s) {
        Some((n, k)) => if k + n <= s.len() {
            Some((s.subrange(k, k + n), k + n))
        } else {
            None
        },
        None => None,
    }
}

pub open spec fn parse_string(s: Seq<u8>) -> Option<(Seq<char>, int)> {
    match parse_bytes(s) {
        Some((b, k)) => if valid_utf8(b) {
            Some((decode_utf8(b), k))
        } else {
            None
        },
        None => None,
    }
}

// --- Round-trip laws -------------------------------------------------------

/// Decoding an encoded u8 gives it back and consumes exactly its bytes.
pub proof fn lemma_u8_roundtrip(v: u8, rest: Seq<u8>)
    ensures
        parse_u8(enc_u8(v) + rest) == Some((v, 1int)),
{
}

/// Decoding an encoded u16 gives it back and consumes exactly its bytes.
pub proof fn lemma_u16_roundtrip(v: u16, rest: Seq<u8>)
    ensures
        enc_u16(v).len() == 2,
        parse_u16(enc_u16(v) + rest) == Some((v, 2int)),
{
    lemma_auto_spec_u16_to_from_le_bytes();
    assert((enc_u16(v) + rest).take(2) =~= enc_u16(v));
}

/// Decoding an encoded u32 gives it back and consumes exactly its bytes.
pub proof fn lemma_u32_roundtrip(v: u32, rest: Seq<u8>)
    ensures
        enc_u32(v).len() == 4,
        parse_u32(enc_u32(v) + rest) == Some((v, 4int)),
{
    lemma_auto_spec_u32_to_from_le_bytes();
    assert((enc_u32(v) + rest).take(4) =~= enc_u32(v));
}

/// Decoding an encoded i64 gives it back and consumes exactly its bytes.
pub proof fn lemma_i64_roundtrip(v: i64, rest: Seq<u8>)
    ensures
        enc_i64(v).len() == 8,
        parse_i64(enc_i64(v) + rest) == Some((v, 8int)),
{
    lemma_auto_spec_u64_to_from_le_bytes();
    assert((enc_i64(v) + rest).take(8) =~= enc_i64(v));
    assert(((v as u64) as i64) == v) by (bit_vector);
}

/// Decoding a length-prefixed byte string gives it back.
pub proof fn lemma_bytes_roundtrip(b: Seq<u8>, rest: Seq<u8>)
    requires
        b.len() <= u32::MAX,
    ensures
        enc_bytes(b).len() == 4 + b.len(),
        parse_bytes(enc_bytes(b) + rest) == Some((b, 4 + b.len() as int)),
{
    lemma_u32_roundtrip(b.len() as u32, b + rest);
    assert(enc_bytes(b) + rest =~= enc_u32(b.len() as u32) + (b + rest));
    assert((enc_bytes(b) + rest).subrange(4, 4 + b.len() as int) =~= b);
}

/// Decoding an encoded string gives it back.
pub proof fn lemma_string_roundtrip(s: Seq<char>, rest: Seq<u8>)
    requires
        string_encodable(s),
    ensures
        enc_string(s).len() == 4 + encode_utf8(s).len(),
        parse_string(enc_string(s) + rest) == Some((s, enc_string(s).len() as int)),
{
    lemma_bytes_roundtrip(encode_utf8(s), rest);
    encode_utf8_valid_utf8(s);
    encode_utf8_decode_utf8(s);
}

// --- Writer ----------------------------------------------------------------

/// Append-only little-endian writer over a `Vec<u8>`.
pub struct ByteWriter {
    buf: Vec<u8>,
}

impl View for ByteWriter {
    type V = Seq<u8>;

    closed spec fn view(&self) -> Seq<u8> {
        self.buf@
    }
}

impl ByteWriter {
    pub fn new() -> (w: Self)
        ensures
            w@ == Seq::<u8>::empty(),
    {
        ByteWriter { buf: Vec::new() }
    }

    pub fn u8(&mut self, v: u8)
        ensures
            final(self)@ == old(self)@ + enc_u8(v),
    {
        self.buf.push(v);
        assert(self.buf@ =~= old(self)@ + enc_u8(v));
    }

    pub fn u16(&mut self, v: u16)
        ensures
            final(self)@ == old(self)@ + enc_u16(v),
    {
        let mut b = u16_to_le_bytes(v);
        self.buf.append(&mut b);
    }

    pub fn u32(&mut self, v: u32)
        ensures
            final(self)@ == old(self)@ + enc_u32(v),
    {
        let mut b = u32_to_le_bytes(v);
        self.buf.append(&mut b);
    }

    pub fn i64(&mut self, v: i64)
        ensures
            final(self)@ == old(self)@ + enc_i64(v),
    {
        let mut b = u64_to_le_bytes(v as u64);
        self.buf.append(&mut b);
    }

    /// Writes a length-prefixed (u32) byte string.
    pub fn bytes(&mut self, v: &[u8])
        requires
            v@.len() <= u32::MAX,
        ensures
            final(self)@ == old(self)@ + enc_bytes(v@),
    {
        self.u32(v.len() as u32);
        let mut i: usize = 0;
        while i < v.len()
            invariant
                i <= v@.len(),
                self@ == old(self)@ + enc_u32(v@.len() as u32) + v@.take(i as int),
            decreases v@.len() - i,
        {
            self.buf.push(v[i]);
            i = i + 1;
            assert(self@ =~= old(self)@ + enc_u32(v@.len() as u32) + v@.take(i as int));
        }
        assert(v@.take(v@.len() as int) =~= v@);
        assert(self@ =~= old(self)@ + enc_bytes(v@));
    }

    /// Writes a length-prefixed (u32) UTF-8 string.
    pub fn string(&mut self, v: &str)
        requires
            string_encodable(v@),
        ensures
            final(self)@ == old(self)@ + enc_string(v@),
    {
        self.bytes(v.as_bytes());
    }

    pub fn into_vec(self) -> (v: Vec<u8>)
        ensures
            v@ == self@,
    {
        self.buf
    }

    pub fn as_slice(&self) -> (s: &[u8])
        ensures
            s@ == self@,
    {
        self.buf.as_slice()
    }

    pub fn len(&self) -> (n: usize)
        ensures
            n == self@.len(),
    {
        self.buf.len()
    }

    pub fn is_empty(&self) -> (b: bool)
        ensures
            b == (self@.len() == 0),
    {
        self.buf.len() == 0
    }
}

// --- Reader ----------------------------------------------------------------

/// Cursor-based little-endian reader over a byte slice.
pub struct ByteReader<'a> {
    buf: &'a [u8],
    pos: usize,
}

impl<'a> ByteReader<'a> {
    /// The whole buffer being read.
    pub closed spec fn data(&self) -> Seq<u8> {
        self.buf@
    }

    /// The number of bytes consumed so far.
    pub closed spec fn consumed(&self) -> int {
        self.pos as int
    }

    /// The bytes that are still to be read.
    pub open spec fn remaining(&self) -> Seq<u8> {
        self.data().subrange(self.consumed(), self.data().len() as int)
    }

    pub closed spec fn wf(&self) -> bool {
        self.pos <= self.buf@.len()
    }

    pub fn new(buf: &'a [u8]) -> (r: Self)
        ensures
            r.wf(),
            r.data() == buf@,
            r.consumed() == 0,
            r.remaining() == buf@,
    {
        let r = ByteReader { buf, pos: 0 };
        assert(r.remaining() =~= buf@);
        r
    }

    /// Consumes the next `n` bytes.
    fn take(&mut self, n: usize) -> (r: Result<&'a [u8]>)
        requires
            old(self).wf(),
        ensures
            final(self).wf(),
            final(self).data() == old(self).data(),
            r is Ok <==> n <= old(self).remaining().len(),
            r matches Ok(b) ==> b@ == old(self).remaining().take(n as int) && final(self).consumed() == old(self).consumed() + n && final(self).remaining() == old(self).remaining().skip(n as int),
            r matches Err(e) ==> e is Storage && *final(self) == *old(self),
    {
        if n > self.buf.len() - self.pos {
            return Err(Error::Storage(text("unexpected end of buffer while decoding")));
        }
        let out = vstd::slice::slice_subrange(self.buf, self.pos, self.pos + n);
        self.pos = self.pos + n;
        assert(out@ =~= old(self).remaining().take(n as int));
        assert(self.remaining() =~= old(self).remaining().skip(n as int));
        Ok(out)
    }

    pub fn u8(&mut self) -> (r: Result<u8>)
        requires
            old(self).wf(),
        ensures
            final(self).wf(),
            final(self).data() == old(self).data(),
            match parse_u8(old(self).remaining()) {
                Some((v, k)) => r == Ok::<u8, Error>(v) && final(self).remaining() == old(self).remaining().skip(k),
                None => r matches Err(e) && e is Storage && *final(self) == *old(self),
            },
    {
        let b = self.take(1)?;
        Ok(b[0])
    }

    pub fn u16(&mut self) -> (r: Result<u16>)
        requires
            old(self).wf(),
        ensures
            final(self).wf(),
            final(self).data() == old(self).data(),
            match parse_u16(old(self).remaining()) {
                Some((v, k)) => r == Ok::<u16, Error>(v) && final(self).remaining() == old(self).remaining().skip(k),
                None => r matches Err(e) && e is Storage && *final(self) == *old(self),
            },
    {
        let b = self.take(2)?;
        Ok(u16_from_le_bytes(b))
    }

    pub fn u32(&mut self) -> (r: Result<u32>)
        requires
            old(self).wf(),
        ensures
            final(self).wf(),
            final(self).data() == old(self).data(),
            match parse_u32(old(self).remaining()) {
                Some((v, k)) => r == Ok::<u32, Error>(v) && final(self).remaining() == old(self).remaining().skip(k),
                None => r matches Err(e) && e is Storage && *final(self) == *old(self),
            },
    {
        let b = self.take(4)?;
        Ok(u32_from_le_bytes(b))
    }

    pub fn i64(&mut self) -> (r: Result<i64>)
        requires
            old(self).wf(),
        ensures
            final(self).wf(),
            final(self).data() == old(self).data(),
            match parse_i64(old(self).remaining()) {
                Some((v, k)) => r == Ok::<i64, Error>(v) && final(self).remaining() == old(self).remaining().skip(k),
                None => r matches Err(e) && e is Storage && *final(self) == *old(self),
            },
    {
        let b = self.take(8)?;
        Ok(u64_from_le_bytes(b) as i64)
    }

    pub fn bytes(&mut self) -> (r: Result<Vec<u8>>)
        requires
            old(self).wf(),
        ensures
            final(self).wf(),
            final(self).data() == old(self).data(),
            match parse_bytes(old(self).remaining()) {
                Some((v, k)) => r matches Ok(b) && b@ == v && final(self).remaining() == old(self).remaining().skip(k),
                None => r matches Err(e) && e is Storage,
            },
    {
        let ghost rem0 = self.remaining();
        let len = self.u32()?;
        let ghost rem1 = self.remaining();
        let b = self.take(len as usize)?;
        proof {
            assert(rem1 =~= rem0.skip(4));
            assert(b@ =~= rem0.subrange(4, 4 + len as int));
            assert(self.remaining() =~= rem0.skip(4 + len as int));
        }
        Ok(vstd::slice::slice_to_vec(b))
    }

    pub fn string(&mut self) -> (r: Result<String>)
        requires
            old(self).wf(),
        ensures
            final(self).wf(),
            final(self).data() == old(self).data(),
            match parse_string(old(self).remaining()) {
                Some((v, k)) => r matches Ok(s) && s@ == v && final(self).remaining() == old(self).remaining().skip(k),
                None => r matches Err(e) && e is Storage,
            },
    {
        let raw = self.bytes()?;
        match string_from_utf8(raw) {
            Some(s) => Ok(s),
            None => Err(Error::Storage(text("invalid UTF-8 in buffer"))),
        }
    }
}

/// Wraps `String::from_utf8`: it accepts exactly the valid UTF-8 byte
/// sequences, and the string it returns decodes them.
#[verifier::external_body]
fn string_from_utf8(raw: Vec<u8>) -> (r: Option<String>)
    ensures
        r is Some <==> valid_utf8(raw@),
        r matches Some(s) ==> s@ == decode_utf8(raw@),
{
    String::from_utf8(raw).ok()
}

} // verus!
