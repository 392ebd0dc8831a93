//! The property value of `iodef` records: a URL where an issuer reports
//! requests that violate the holder's policy.
use vstd::prelude::*;
use vstd::utf8::*;
use crate::error::CaaError;

verus! {

#[verifier::external_type_specification]
#[verifier::external_body]
pub struct ExUrlParseError(::url::ParseError);

/// The serialization of the absolute URL that `url::Url::parse` makes of the
/// given text, or `None` where it refuses the text.
pub uninterp spec fn url_parse_serialization(input: Seq<char>) -> Option<Seq<char>>;

/// `url::Url::parse`, handing back the serialization of the parsed URL
/// (`From<Url> for String`). The contract claims only that success and the
/// serialization are a function of the input text.
#[verifier::external_body]
fn parse_absolute_url(input: &str) -> (r: Result<String, ::url::ParseError>)
    ensures
        r is Ok <==> url_parse_serialization(input@) is Some,
        r matches Ok(s) ==> url_parse_serialization(input@) == Some(s@),
{
    match ::url::Url::parse(input) {
        Ok(u) => Ok(String::from(u)),
        Err(e) => Err(e),
    }
}

/// An absolute URL, held as its serialization.
#[derive(Debug, PartialEq, Eq, Hash)]
pub struct Url {
    serialization: String,
}

impl View for Url {
    type V = Seq<char>;

    closed spec fn view(&self) -> Seq<char> {
        self.serialization@
    }
}

impl Url {
    /// Parses an absolute URL.
    pub fn parse(input: &str) -> (r: Result<Url, CaaError>)
        ensures
            match url_parse_serialization(input@) {
                Some(s) => r matches Ok(u) && u@ == s,
                None => r == Err::<Url, CaaError>(CaaError::InvalidUrl),
            },
    {
        match parse_absolute_url(input) {
            Ok(s) => Ok(Url { serialization: s }),
            Err(_) => Err(CaaError::InvalidUrl),
        }
    }

    /// The URL's serialization.
    pub fn as_str(&self) -> (r: &str)
        ensures
            r@ == self@,
    {
        self.serialization.as_str()
    }
}

/// What reading an `iodef` value gives: the URL that the value's text
/// parses to.
pub open spec fn read_iodef_spec(bytes: Seq<u8>) -> Result<Seq<char>, CaaError> {
    if !valid_utf8(bytes) {
        Err(CaaError::InvalidUtf8)
    } else {
        match url_parse_serialization(decode_utf8(bytes)) {
            Some(s) => Ok(s),
            None => Err(CaaError::InvalidUrl),
        }
    }
}

/// The result of reading an `iodef` value, in terms of `read_iodef_spec`.
pub open spec fn read_iodef_result(bytes: Seq<u8>, r: Result<Url, CaaError>) -> bool {
    match read_iodef_spec(bytes) {
        Ok(s) => r matches Ok(u) && u@ == s,
        Err(e) => r == Err::<Url, CaaError>(e),
    }
}

/// Reads an `iodef` property value: UTF-8 text holding an absolute URL.
pub fn read_iodef(url: &[u8]) -> (r: Result<Url, CaaError>)
    ensures
        read_iodef_result(url@, r),
{
    match crate::text::str_from_utf8(url) {
        None => Err(CaaError::InvalidUtf8),
        Some(text) => Url::parse(text),
    }
}

/// Reading the value that a URL was written as (by `new_iodef` or
/// `set_iodef_value`) parses the URL's serialization again.
pub proof fn lemma_iodef_value_reparses(u: Seq<char>)
    ensures
        read_iodef_spec(encode_utf8(u)) == match url_parse_serialization(u) {
            Some(s) => Ok::<Seq<char>, CaaError>(s),
            None => Err(CaaError::InvalidUrl),
        },
{
    encode_utf8_valid_utf8(u);
    encode_utf8_decode_utf8(u);
}

} // verus!
