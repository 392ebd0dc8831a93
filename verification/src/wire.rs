//! The binary form of CAA record data (RFC 8659, section 4.1): a flags
//! byte, the tag length, the tag, then the value up to the end of the
//! record data.
use vstd::prelude::*;
use vstd::utf8::*;
use vstd::string::*;
use crate::caa::{CAA, CaaRecord, flags_byte};
use crate::error::CaaError;
use crate::issuer::{chars_as_bytes, is_alphanumeric_char};
use crate::text::{all_ascii, append_bytes, ascii_string, bytes_as_chars, is_ascii_alphanumeric, lemma_ascii_bytes_utf8};

verus! {

/// What reading a tag of `len` bytes from the front of `b` gives: its
/// bytes, when the length is 1 to 15 and they are ASCII letters and digits.
pub open spec fn read_tag_spec(b: Seq<u8>, len: u8) -> Result<Seq<u8>, CaaError> {
    if len == 0 || len > 15 {
        Err(CaaError::TagLengthOutOfBounds)
    } else if exists|j: int| 0 <= j < len && j < b.len() && !is_ascii_alphanumeric(#[trigger] b[j]) {
        Err(CaaError::TagCharacterOutOfBounds)
    } else if b.len() < len {
        Err(CaaError::UnexpectedEnd)
    } else {
        Ok(b.take(len as int))
    }
}

/// Reads a tag of `len` bytes from the front of `bytes`.
pub fn read_tag(bytes: &[u8], len: u8) -> (r: Result<String, CaaError>)
    ensures
        match read_tag_spec(bytes@, len) {
            Ok(t) => r matches Ok(s) && s@ == bytes_as_chars(t),
            Err(e) => r == Err::<String, CaaError>(e),
        },
{
    if len == 0 || len > 15 {
        return Err(CaaError::TagLengthOutOfBounds);
    }
    let n = len as usize;
    let mut i: usize = 0;
    while i < n
        invariant
            n == len,
            1 <= n <= 15,
            0 <= i <= n,
            i <= bytes@.len(),
            forall|j: int| 0 <= j < i ==> is_ascii_alphanumeric(#[trigger] bytes@[j]),
        decreases n - i,
    {
        if i >= bytes.len() {
            assert(!exists|j: int|
                0 <= j < len && j < bytes@.len() && !is_ascii_alphanumeric(#[trigger] bytes@[j]));
            return Err(CaaError::UnexpectedEnd);
        }
        let c = bytes[i];
        if !((0x30 <= c && c <= 0x39) || (0x41 <= c && c <= 0x5a) || (0x61 <= c && c <= 0x7a)) {
            assert(!is_ascii_alphanumeric(bytes@[i as int]));
            return Err(CaaError::TagCharacterOutOfBounds);
        }
        i = i + 1;
    }
    let tag = vstd::slice::slice_subrange(bytes, 0, n);
    assert(tag@ =~= bytes@.take(n as int));
    assert(all_ascii(tag@)) by {
        assert forall|j: int| 0 <= j < tag@.len() implies #[trigger] tag@[j] < 0x80 by {
            assert(is_ascii_alphanumeric(bytes@[j]));
        }
    }
    Ok(ascii_string(tag))
}

/// Writes the tag's bytes to the front of `buf`, returning their number.
pub fn emit_tag(buf: &mut [u8], tag: &str) -> (r: Result<u8, CaaError>)
    ensures
        tag.spec_bytes().len() > 255 ==> r == Err::<u8, CaaError>(CaaError::TagTooLong)
            && final(buf)@ == old(buf)@,
        tag.spec_bytes().len() <= 255 && old(buf)@.len() < tag.spec_bytes().len() ==> r
            == Err::<u8, CaaError>(CaaError::InsufficientCapacity) && final(buf)@ == old(buf)@,
        tag.spec_bytes().len() <= 255 && old(buf)@.len() >= tag.spec_bytes().len() ==> r
            == Ok::<u8, CaaError>(tag.spec_bytes().len() as u8) && final(buf)@ == tag.spec_bytes()
            + old(buf)@.skip(tag.spec_bytes().len() as int),
{
    let bytes = tag.as_bytes();
    let len = bytes.len();
    if len > 255 {
        return Err(CaaError::TagTooLong);
    }
    if buf.len() < len {
        return Err(CaaError::InsufficientCapacity);
    }
    let ghost start = buf@;
    let mut i: usize = 0;
    while i < len
        invariant
            0 <= i <= len,
            len == bytes@.len(),
            len <= start.len(),
            buf@.len() == start.len(),
            forall|j: int| 0 <= j < i ==> buf@[j] == bytes@[j],
            forall|j: int| i <= j < start.len() ==> buf@[j] == start[j],
        decreases len - i,
    {
        buf[i] = bytes[i];
        i = i + 1;
    }
    assert(buf@ =~= bytes@ + start.skip(len as int));
    Ok(len as u8)
}

/// The bytes of a record: flags, tag length, tag, value.
pub open spec fn record_bytes(c: CaaRecord) -> Seq<u8> {
    seq![
        flags_byte(c.issuer_critical, c.reserved_flags) as u8,
        encode_utf8(c.tag).len() as u8,
    ] + encode_utf8(c.tag) + c.value
}

/// A record can be written: its tag has at most 255 bytes.
pub open spec fn emittable(c: CaaRecord) -> bool {
    encode_utf8(c.tag).len() <= 255
}

/// What reading record data of `length` bytes from the front of `b` gives.
pub open spec fn read_data_spec(b: Seq<u8>, length: u16) -> Result<CaaRecord, CaaError> {
    if b.len() < 2 {
        Err(CaaError::UnexpectedEnd)
    } else if (length as int) < b[1] + 2 {
        Err(CaaError::TagCharacterOutOfBounds)
    } else {
        let tag_len = b[1] as int;
        let value_len = length - tag_len - 2;
        match read_tag_spec(b.skip(2), b[1]) {
            Err(e) => Err(e),
            Ok(tag) => if b.len() < 2 + tag_len + value_len {
                Err(CaaError::UnexpectedEnd)
            } else {
                Ok(
                    CaaRecord {
                        issuer_critical: b[0] >= 0x80,
                        reserved_flags: (b[0] % 0x80) as u8,
                        tag: bytes_as_chars(tag),
                        value: b.subrange(2 + tag_len, 2 + tag_len + value_len),
                    },
                )
            },
        }
    }
}

/// The result of reading record data, in terms of `read_data_spec`.
pub open spec fn read_data_result(b: Seq<u8>, length: u16, r: Result<CAA, CaaError>) -> bool {
    match read_data_spec(b, length) {
        Ok(c) => r matches Ok(x) && x@ == c,
        Err(e) => r matches Err(x) && x == e,
    }
}

impl CAA {
    /// Writes the record data to the end of `out`: flags, tag length, tag,
    /// value. Refused, after the flags byte, for a tag over 255 bytes.
    pub fn emit(&self, out: &mut Vec<u8>) -> (r: Result<(), CaaError>)
        ensures
            emittable(self@) ==> r is Ok && final(out)@ == old(out)@ + record_bytes(self@),
            !emittable(self@) ==> r == Err::<(), CaaError>(CaaError::TagTooLong) && final(out)@
                == old(out)@.push(flags_byte(self.issuer_critical, self.reserved_flags) as u8),
    {
        let flags = self.flags();
        out.push(flags);
        let ghost after_flags = out@;
        let mut tag_buf: Vec<u8> = vec![0u8; 255];
        let len = match emit_tag(tag_buf.as_mut_slice(), self.raw_tag.as_str()) {
            Ok(len) => len,
            Err(e) => {
                return Err(e);
            },
        };
        out.push(len);
        let tag = vstd::slice::slice_subrange(tag_buf.as_slice(), 0, len as usize);
        assert(tag@ =~= encode_utf8(self.raw_tag@));
        append_bytes(out, tag);
        append_bytes(out, self.raw_value.as_slice());
        assert(out@ =~= after_flags.drop_last() + record_bytes(self@));
        Ok(())
    }

    /// Reads record data of `length` bytes from the front of `bytes`: the
    /// flags byte, the tag length, a tag of 1 to 15 ASCII letters and
    /// digits, and the rest as the value.
    pub fn read_data(bytes: &[u8], length: u16) -> (r: Result<CAA, CaaError>)
        ensures
            read_data_result(bytes@, length, r),
    {
        if bytes.len() < 2 {
            return Err(CaaError::UnexpectedEnd);
        }
        let flags = bytes[0];
        let issuer_critical = (flags & 0x80) != 0;
        let reserved_flags = flags & 0x7f;
        assert(((flags & 0x80) != 0) == (flags >= 0x80)) by (bit_vector);
        assert(flags & 0x7f == flags % 0x80) by (bit_vector);
        let tag_len = bytes[1];
        if (length as usize) < (tag_len as usize) + 2 {
            return Err(CaaError::TagCharacterOutOfBounds);
        }
        let value_len = (length as usize) - (tag_len as usize) - 2;
        let rest = vstd::slice::slice_subrange(bytes, 2, bytes.len());
        assert(rest@ =~= bytes@.skip(2));
        let raw_tag = match read_tag(rest, tag_len) {
            Ok(t) => t,
            Err(e) => {
                return Err(e);
            },
        };
        let start = 2 + tag_len as usize;
        if bytes.len() - start < value_len {
            return Err(CaaError::UnexpectedEnd);
        }
        let raw_value = vstd::slice::slice_to_vec(
            vstd::slice::slice_subrange(bytes, start, start + value_len),
        );
        Ok(CAA { issuer_critical, reserved_flags, raw_tag, raw_value })
    }
}

/// A tag that the binary form can carry: 1 to 15 ASCII letters and digits.
pub open spec fn valid_tag(tag: Seq<char>) -> bool {
    &&& 1 <= tag.len() <= 15
    &&& forall|i: int| 0 <= i < tag.len() ==> is_alphanumeric_char(#[trigger] tag[i])
}

/// Writing a record and reading it back gives the same record, for a tag
/// of 1 to 15 ASCII letters and digits, reserved flags that fit the seven
/// low bits, and record data that fits a 16-bit length.
pub proof fn lemma_emit_read_roundtrip(c: CaaRecord)
    requires
        valid_tag(c.tag),
        c.reserved_flags < 0x80,
        record_bytes(c).len() <= 0xffff,
    ensures
        emittable(c),
        read_data_spec(record_bytes(c), record_bytes(c).len() as u16) == Ok::<CaaRecord, CaaError>(
            c,
        ),
{
    let t = c.tag;
    assert(is_ascii_chars(t)) by {
        assert forall|i: int| 0 <= i < t.len() implies '\0' <= #[trigger] t[i] <= '\u{7f}' by {
            assert(is_alphanumeric_char(t[i]));
        }
    }
    is_ascii_chars_encode_utf8(t);
    let tb = encode_utf8(t);
    assert(tb =~= chars_as_bytes(t));
    let b = record_bytes(c);
    let f = flags_byte(c.issuer_critical, c.reserved_flags);
    assert(b[0] == f as u8);
    assert(b[1] == tb.len() as u8);
    assert(b.skip(2).take(tb.len() as int) =~= tb);
    assert forall|j: int| 0 <= j < tb.len() implies is_ascii_alphanumeric(#[trigger] b.skip(2)[j]) by {
        assert(b.skip(2)[j] == tb[j]);
        assert(is_alphanumeric_char(t[j]));
    }
    assert(read_tag_spec(b.skip(2), b[1]) == Ok::<Seq<u8>, CaaError>(tb));
    assert(bytes_as_chars(tb) =~= t);
    assert(b.subrange(2 + tb.len() as int, b.len() as int) =~= c.value);
}

/// Reading record data and writing the record gives back the same bytes,
/// for record data that reads: whatever the flags byte, tag and value.
pub proof fn lemma_read_emit_roundtrip(b: Seq<u8>)
    requires
        b.len() <= 0xffff,
        read_data_spec(b, b.len() as u16) is Ok,
    ensures
        read_data_spec(b, b.len() as u16) matches Ok(c) && emittable(c) && valid_tag(c.tag)
            && record_bytes(c) == b,
{
    let c = read_data_spec(b, b.len() as u16)->Ok_0;
    let tag_len = b[1] as int;
    let tb = b.skip(2).take(tag_len);
    assert(read_tag_spec(b.skip(2), b[1]) == Ok::<Seq<u8>, CaaError>(tb));
    assert forall|j: int| 0 <= j < tb.len() implies is_ascii_alphanumeric(#[trigger] tb[j]) by {
        assert(tb[j] == b.skip(2)[j]);
    }
    assert(all_ascii(tb)) by {
        assert forall|j: int| 0 <= j < tb.len() implies #[trigger] tb[j] < 0x80 by {
            assert(is_ascii_alphanumeric(tb[j]));
        }
    }
    lemma_ascii_bytes_utf8(tb);
    assert(c.tag == bytes_as_chars(tb));
    assert forall|i: int| 0 <= i < c.tag.len() implies is_alphanumeric_char(#[trigger] c.tag[i]) by {
        assert(c.tag[i] == tb[i] as char);
        assert(is_ascii_alphanumeric(tb[i]));
    }
    let x = b[0];
    assert(flags_byte(c.issuer_critical, c.reserved_flags) == x) by {
        assert(c.issuer_critical == (x >= 0x80));
        assert(c.reserved_flags == x % 0x80);
    }
    assert(record_bytes(c) =~= b);
}

/// Reading a tag looks only at its own bytes.
proof fn lemma_read_tag_prefix(b1: Seq<u8>, b2: Seq<u8>, len: u8)
    requires
        len <= b1.len(),
        len <= b2.len(),
        b1.take(len as int) == b2.take(len as int),
    ensures
        read_tag_spec(b1, len) == read_tag_spec(b2, len),
{
    assert forall|j: int| 0 <= j < len implies b1[j] == b2[j] by {
        assert(b1[j] == b1.take(len as int)[j]);
        assert(b2[j] == b2.take(len as int)[j]);
    }
    if exists|j: int| 0 <= j < len && j < b1.len() && !is_ascii_alphanumeric(#[trigger] b1[j]) {
        let j = choose|j: int| 0 <= j < len && j < b1.len() && !is_ascii_alphanumeric(#[trigger] b1[j]);
        assert(!is_ascii_alphanumeric(b2[j]));
    }
    if exists|j: int| 0 <= j < len && j < b2.len() && !is_ascii_alphanumeric(#[trigger] b2[j]) {
        let j = choose|j: int| 0 <= j < len && j < b2.len() && !is_ascii_alphanumeric(#[trigger] b2[j]);
        assert(!is_ascii_alphanumeric(b1[j]));
    }
}

/// Reading record data of `length` bytes depends on those bytes alone:
/// whatever follows them gives the same record or the same error. (With a
/// length under 2, where even the tag length lies past the record, both
/// reads are refused.) The flags byte gives the issuer critical flag from
/// its high bit and the reserved flags from the other seven.
pub proof fn lemma_read_data_within_length(b: Seq<u8>, length: u16)
    requires
        length <= b.len(),
    ensures
        length >= 2 ==> read_data_spec(b, length) == read_data_spec(b.take(length as int), length),
        length < 2 ==> read_data_spec(b, length) is Err && read_data_spec(
            b.take(length as int),
            length,
        ) is Err,
        read_data_spec(b, length) matches Ok(c) ==> {
            &&& c.issuer_critical == (b[0] & 0x80 != 0)
            &&& c.reserved_flags == b[0] & 0x7f
            &&& flags_byte(c.issuer_critical, c.reserved_flags) == b[0]
        },
{
    let p = b.take(length as int);
    if length >= 2 {
        assert(p[0] == b[0] && p[1] == b[1]);
        let tag_len = b[1];
        if (length as int) >= tag_len + 2 {
            assert(b.skip(2).take(tag_len as int) =~= p.skip(2).take(tag_len as int));
            lemma_read_tag_prefix(b.skip(2), p.skip(2), tag_len);
            let value_len = length - tag_len - 2;
            assert(b.subrange(2 + tag_len, 2 + tag_len + value_len) =~= p.subrange(
                2 + tag_len,
                2 + tag_len + value_len,
            ));
        }
    }
    if read_data_spec(b, length) is Ok {
        let x = b[0];
        assert((x & 0x80 != 0) == (x >= 0x80)) by (bit_vector);
        assert(x & 0x7f == x % 0x80) by (bit_vector);
    }
}

} // verus!
