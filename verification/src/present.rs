//! The presentation form of a record: `flags tag "value"`.
use vstd::prelude::*;
use vstd::utf8::*;
use vstd::string::*;
use crate::caa::{CAA, flags_byte};
use crate::text::{all_ascii, ascii_string, bytes_as_chars};

verus! {

/// The decimal digits of a number, as ASCII bytes.
pub open spec fn decimal_bytes(n: nat) -> Seq<u8>
    decreases n,
{
    if n < 10 {
        seq![(0x30 + n) as u8]
    } else {
        decimal_bytes(n / 10).push((0x30 + n % 10) as u8)
    }
}

/// The text that `String::from_utf8_lossy` makes of the bytes.
pub uninterp spec fn utf8_lossy_chars(bytes: Seq<u8>) -> Seq<char>;

/// `String::from_utf8_lossy`: the bytes as text, with each invalid UTF-8
/// sequence replaced by U+FFFD. The contract claims that the text depends
/// on the bytes alone and, for valid UTF-8, is the decoded text.
#[verifier::external_body]
fn from_utf8_lossy(bytes: &[u8]) -> (r: String)
    ensures
        r@ == utf8_lossy_chars(bytes@),
        valid_utf8(bytes@) ==> r@ == decode_utf8(bytes@),
{
    String::from_utf8_lossy(bytes).into_owned()
}

/// A byte's decimal digits.
fn decimal_string(n: u8) -> (r: String)
    ensures
        r@ == bytes_as_chars(decimal_bytes(n as nat)),
{
    let mut digits: Vec<u8> = Vec::new();
    if n >= 100 {
        digits.push(0x30 + n / 100);
    }
    if n >= 10 {
        digits.push(0x30 + (n / 10) % 10);
    }
    digits.push(0x30 + n % 10);
    proof {
        reveal_with_fuel(decimal_bytes, 3);
        if n >= 100 {
            assert((n / 10) as nat / 10 == (n / 100) as nat);
            assert(digits@ =~= decimal_bytes(n as nat));
        } else if n >= 10 {
            assert(digits@ =~= decimal_bytes(n as nat));
        } else {
            assert(digits@ =~= decimal_bytes(n as nat));
        }
        assert(all_ascii(digits@));
    }
    ascii_string(digits.as_slice())
}

impl CAA {
    /// The presentation form `flags tag "value"`: the flags byte in decimal,
    /// the tag, and the value read as UTF-8 (invalid sequences replaced).
    pub fn to_string(&self) -> (r: String)
        ensures
            r@ == bytes_as_chars(
                decimal_bytes(flags_byte(self.issuer_critical, self.reserved_flags) as nat),
            ) + seq![' '] + self@.tag + seq![' ', '"'] + utf8_lossy_chars(self@.value) + seq![
                '"',
            ],
            valid_utf8(self@.value) ==> r@ == bytes_as_chars(
                decimal_bytes(flags_byte(self.issuer_critical, self.reserved_flags) as nat),
            ) + seq![' '] + self@.tag + seq![' ', '"'] + decode_utf8(self@.value) + seq!['"'],
    {
        proof {
            reveal_strlit(" ");
            reveal_strlit(" \"");
            reveal_strlit("\"");
        }
        let mut s = decimal_string(self.flags());
        s.append(" ");
        s.append(self.raw_tag.as_str());
        s.append(" \"");
        let value = from_utf8_lossy(self.raw_value.as_slice());
        assert(valid_utf8(self@.value) ==> value@ == decode_utf8(self@.value));
        s.append(value.as_str());
        s.append("\"");
        assert(" "@ =~= seq![' ']);
        assert(" \""@ =~= seq![' ', '"']);
        assert("\""@ =~= seq!['"']);
        s
    }
}

} // verus!
