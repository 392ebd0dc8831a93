//! The CAA record data: flags, a property tag and a property value.
use vstd::prelude::*;
use vstd::utf8::*;
use vstd::string::*;
use crate::error::CaaError;
use crate::iodef::{Url, read_iodef, read_iodef_result};
use crate::issuer::{
    KeyValue,
    encode_issuer_value,
    issuer_value_bytes,
    key_value_views,
    lemma_issuer_value_roundtrip,
    raw_key_values_chars,
    read_issuer_spec,
    well_formed_key_value,
    name_view,
    owned_name_view,
    read_issuer,
    read_issuer_result,
};
use crate::name::{Name, valid_name_text};
use crate::text::{bytes_eq_ignore_ascii_case, eq_ignore_ascii_case};

verus! {

/// The `issue` property tag.
pub open spec fn issue_tag() -> Seq<char> {
    seq!['i', 's', 's', 'u', 'e']
}

/// The `issuewild` property tag.
pub open spec fn issuewild_tag() -> Seq<char> {
    seq!['i', 's', 's', 'u', 'e', 'w', 'i', 'l', 'd']
}

/// The `iodef` property tag.
pub open spec fn iodef_tag() -> Seq<char> {
    seq!['i', 'o', 'd', 'e', 'f']
}

/// The bytes of ASCII characters.
pub open spec fn ascii_bytes_of(c: Seq<char>) -> Seq<u8> {
    c.map_values(|x: char| x as u8)
}

/// The tag is `issue` or `issuewild`, in any letter case.
pub open spec fn tag_is_issuer(tag: Seq<char>) -> bool {
    ||| eq_ignore_ascii_case(encode_utf8(tag), ascii_bytes_of(issue_tag()))
    ||| eq_ignore_ascii_case(encode_utf8(tag), ascii_bytes_of(issuewild_tag()))
}

/// The tag is `iodef`, in any letter case.
pub open spec fn tag_is_iodef(tag: Seq<char>) -> bool {
    eq_ignore_ascii_case(encode_utf8(tag), ascii_bytes_of(iodef_tag()))
}

/// The flags byte: the issuer critical flag in the high bit, the reserved
/// flags in the seven low bits.
pub open spec fn flags_byte(issuer_critical: bool, reserved_flags: u8) -> int {
    (if issuer_critical {
        0x80int
    } else {
        0int
    }) + reserved_flags % 0x80
}

/// What a CAA record holds.
pub struct CaaRecord {
    pub issuer_critical: bool,
    pub reserved_flags: u8,
    pub tag: Seq<char>,
    pub value: Seq<u8>,
}

/// CAA record data (RFC 8659): a domain name holder's statement of which
/// certification authorities may issue certificates for the name.
#[derive(Debug, PartialEq, Eq, Hash, Clone)]
pub struct CAA {
    /// The issuer critical flag: the property must be understood to
    /// interpret the record.
    pub issuer_critical: bool,
    /// The other flag bits, reserved for future use.
    pub reserved_flags: u8,
    /// The property tag.
    pub raw_tag: String,
    /// The property value, uninterpreted.
    pub raw_value: Vec<u8>,
}

impl View for CAA {
    type V = CaaRecord;

    open spec fn view(&self) -> CaaRecord {
        CaaRecord {
            issuer_critical: self.issuer_critical,
            reserved_flags: self.reserved_flags,
            tag: self.raw_tag@,
            value: self.raw_value@,
        }
    }
}

/// The two tags whose value names an issuer.
pub enum IssueProperty {
    Issue,
    IssueWild,
}

impl IssueProperty {
    /// The tag's text.
    pub open spec fn spec_tag(&self) -> Seq<char> {
        match self {
            IssueProperty::Issue => issue_tag(),
            IssueProperty::IssueWild => issuewild_tag(),
        }
    }

    /// The tag's text.
    pub fn as_str(&self) -> (r: &str)
        ensures
            r@ == self.spec_tag(),
    {
        proof {
            reveal_strlit("issue");
            reveal_strlit("issuewild");
        }
        match self {
            IssueProperty::Issue => "issue",
            IssueProperty::IssueWild => "issuewild",
        }
    }
}

/// The bytes of an ASCII string.
fn ascii_literal_bytes(s: &str) -> (r: &[u8])
    requires
        is_ascii_chars(s@),
    ensures
        r@ == ascii_bytes_of(s@),
{
    proof {
        is_ascii_spec_bytes(s);
    }
    let r = s.as_bytes();
    assert(r@ =~= ascii_bytes_of(s@));
    r
}

/// Whether the tag is `issue` or `issuewild`, in any letter case.
fn is_issuer_tag(tag: &String) -> (r: bool)
    ensures
        r == tag_is_issuer(tag@),
{
    proof {
        reveal_strlit("issue");
        reveal_strlit("issuewild");
    }
    let t = tag.as_str().as_bytes();
    let issue = ascii_literal_bytes("issue");
    let issuewild = ascii_literal_bytes("issuewild");
    assert("issue"@ =~= issue_tag());
    assert("issuewild"@ =~= issuewild_tag());
    bytes_eq_ignore_ascii_case(t, issue) || bytes_eq_ignore_ascii_case(t, issuewild)
}

/// Whether the tag is `iodef`, in any letter case.
fn is_iodef_tag(tag: &String) -> (r: bool)
    ensures
        r == tag_is_iodef(tag@),
{
    proof {
        reveal_strlit("iodef");
    }
    let t = tag.as_str().as_bytes();
    let iodef = ascii_literal_bytes("iodef");
    assert("iodef"@ =~= iodef_tag());
    bytes_eq_ignore_ascii_case(t, iodef)
}

impl CAA {
    fn issue(
        issuer_critical: bool,
        tag: IssueProperty,
        name: Option<Name>,
        options: Vec<KeyValue>,
    ) -> (r: CAA)
        ensures
            r@ == (CaaRecord {
                issuer_critical,
                reserved_flags: 0,
                tag: tag.spec_tag(),
                value: issuer_value_bytes(owned_name_view(name), key_value_views(options@)),
            }),
    {
        let raw_tag = tag.as_str().to_owned();
        let name_ref: Option<&Name> = match &name {
            Some(n) => Some(n),
            None => None,
        };
        assert(name_view(name_ref) == owned_name_view(name));
        let raw_value = encode_issuer_value(name_ref, options.as_slice());
        CAA { issuer_critical, reserved_flags: 0, raw_tag, raw_value }
    }

    /// A record with the `issue` tag, authorizing the named issuer (none:
    /// no issuer) with the given parameters.
    pub fn new_issue(issuer_critical: bool, name: Option<Name>, options: Vec<KeyValue>) -> (r:
        CAA)
        ensures
            r@ == (CaaRecord {
                issuer_critical,
                reserved_flags: 0,
                tag: issue_tag(),
                value: issuer_value_bytes(owned_name_view(name), key_value_views(options@)),
            }),
    {
        Self::issue(issuer_critical, IssueProperty::Issue, name, options)
    }

    /// A record with the `issuewild` tag, authorizing the named issuer (none:
    /// no issuer) for wildcard certificates, with the given parameters.
    pub fn new_issuewild(issuer_critical: bool, name: Option<Name>, options: Vec<KeyValue>) -> (r:
        CAA)
        ensures
            r@ == (CaaRecord {
                issuer_critical,
                reserved_flags: 0,
                tag: issuewild_tag(),
                value: issuer_value_bytes(owned_name_view(name), key_value_views(options@)),
            }),
    {
        Self::issue(issuer_critical, IssueProperty::IssueWild, name, options)
    }

    /// A record with the `iodef` tag, whose value is the URL's text.
    pub fn new_iodef(issuer_critical: bool, url: Url) -> (r: CAA)
        ensures
            r@ == (CaaRecord {
                issuer_critical,
                reserved_flags: 0,
                tag: iodef_tag(),
                value: encode_utf8(url@),
            }),
    {
        proof {
            reveal_strlit("iodef");
        }
        let raw_value = vstd::slice::slice_to_vec(url.as_str().as_bytes());
        let raw_tag = "iodef".to_owned();
        assert(raw_tag@ =~= iodef_tag());
        CAA { issuer_critical, reserved_flags: 0, raw_tag, raw_value }
    }

    /// The issuer critical flag.
    pub fn issuer_critical(&self) -> (r: bool)
        ensures
            r == self.issuer_critical,
    {
        self.issuer_critical
    }

    /// Sets the issuer critical flag.
    pub fn set_issuer_critical(&mut self, issuer_critical: bool)
        ensures
            final(self)@ == (CaaRecord { issuer_critical, ..old(self)@ }),
    {
        self.issuer_critical = issuer_critical;
    }

    /// The flags byte: the issuer critical flag in the high bit, the
    /// reserved flags in the seven low bits.
    pub fn flags(&self) -> (r: u8)
        ensures
            r == flags_byte(self.issuer_critical, self.reserved_flags),
    {
        let reserved = self.reserved_flags;
        let low: u8 = reserved & 0x7f;
        assert(reserved & 0x7f == reserved % 0x80) by (bit_vector);
        if self.issuer_critical {
            assert(low < 0x80 ==> low | 0x80 == low + 0x80) by (bit_vector);
            low | 0x80
        } else {
            low
        }
    }

    /// The property tag.
    pub fn tag(&self) -> (r: &str)
        ensures
            r@ == self@.tag,
    {
        self.raw_tag.as_str()
    }

    /// Sets the property tag.
    pub fn set_tag(&mut self, tag: String)
        ensures
            final(self)@ == (CaaRecord { tag: tag@, ..old(self)@ }),
    {
        self.raw_tag = tag;
    }

    /// Sets the value of an `issue` or `issuewild` record; refused, with
    /// the record unchanged, for any other tag.
    pub fn set_issuer_value(&mut self, name: Option<&Name>, key_values: &[KeyValue]) -> (r:
        Result<(), CaaError>)
        ensures
            tag_is_issuer(old(self)@.tag) ==> r is Ok && final(self)@ == (CaaRecord {
                value: issuer_value_bytes(name_view(name), key_value_views(key_values@)),
                ..old(self)@
            }),
            !tag_is_issuer(old(self)@.tag) ==> r == Err::<(), CaaError>(CaaError::NotIssueTag)
                && final(self)@ == old(self)@,
    {
        if !is_issuer_tag(&self.raw_tag) {
            return Err(CaaError::NotIssueTag);
        }
        self.raw_value = encode_issuer_value(name, key_values);
        Ok(())
    }

    /// Sets the value of an `iodef` record to the URL's text; refused, with
    /// the record unchanged, for any other tag.
    pub fn set_iodef_value(&mut self, url: &Url) -> (r: Result<(), CaaError>)
        ensures
            tag_is_iodef(old(self)@.tag) ==> r is Ok && final(self)@ == (CaaRecord {
                value: encode_utf8(url@),
                ..old(self)@
            }),
            !tag_is_iodef(old(self)@.tag) ==> r == Err::<(), CaaError>(CaaError::NotIodefTag)
                && final(self)@ == old(self)@,
    {
        if !is_iodef_tag(&self.raw_tag) {
            return Err(CaaError::NotIodefTag);
        }
        self.raw_value = vstd::slice::slice_to_vec(url.as_str().as_bytes());
        Ok(())
    }

    /// The value of an `issue` or `issuewild` record: the issuer name and
    /// parameters; refused for any other tag or a malformed value.
    pub fn value_as_issue(&self) -> (r: Result<(Option<Name>, Vec<KeyValue>), CaaError>)
        ensures
            !tag_is_issuer(self@.tag) ==> (r matches Err(e) && e == CaaError::NotIssueTag),
            tag_is_issuer(self@.tag) ==> read_issuer_result(self@.value, r),
    {
        if !is_issuer_tag(&self.raw_tag) {
            return Err(CaaError::NotIssueTag);
        }
        read_issuer(self.raw_value.as_slice())
    }

    /// The value of an `iodef` record: its URL; refused for any other tag
    /// or a value that is not a URL.
    pub fn value_as_iodef(&self) -> (r: Result<Url, CaaError>)
        ensures
            !tag_is_iodef(self@.tag) ==> r == Err::<Url, CaaError>(CaaError::NotIodefTag),
            tag_is_iodef(self@.tag) ==> read_iodef_result(self@.value, r),
    {
        if !is_iodef_tag(&self.raw_tag) {
            return Err(CaaError::NotIodefTag);
        }
        read_iodef(self.raw_value.as_slice())
    }

    /// The property value, uninterpreted.
    pub fn raw_value(&self) -> (r: &[u8])
        ensures
            r@ == self@.value,
    {
        self.raw_value.as_slice()
    }
}

proof fn lemma_literal_tag_bytes(t: Seq<char>)
    requires
        is_ascii_chars(t),
    ensures
        encode_utf8(t) == ascii_bytes_of(t),
{
    is_ascii_chars_encode_utf8(t);
    assert(encode_utf8(t) =~= ascii_bytes_of(t));
}

/// The `issue` and `issuewild` tags name an issuer; `iodef` does not, and
/// is the iodef tag.
pub proof fn lemma_tag_kinds()
    ensures
        tag_is_issuer(issue_tag()),
        tag_is_issuer(issuewild_tag()),
        tag_is_iodef(iodef_tag()),
        !tag_is_issuer(iodef_tag()),
        !tag_is_iodef(issue_tag()),
        !tag_is_iodef(issuewild_tag()),
{
    lemma_literal_tag_bytes(issue_tag());
    lemma_literal_tag_bytes(issuewild_tag());
    lemma_literal_tag_bytes(iodef_tag());
    let a = ascii_bytes_of(issue_tag());
    let w = ascii_bytes_of(issuewild_tag());
    let d = ascii_bytes_of(iodef_tag());
    assert(a[1] == 0x73 && d[1] == 0x6f);
    assert(crate::text::ascii_lower(d[1]) != crate::text::ascii_lower(a[1]));
    assert(!eq_ignore_ascii_case(d, a));
    assert(!eq_ignore_ascii_case(a, d));
}

/// Reading the value of an issuer record gives back the name and
/// parameters it was written with (by `new_issue`, `new_issuewild` or
/// `set_issuer_value`), for a well-formed name and well-formed parameters.
pub proof fn lemma_issuer_record_roundtrip(
    c: CaaRecord,
    name: Option<Seq<u8>>,
    kvs: Seq<(Seq<char>, Seq<char>)>,
)
    requires
        c.tag == issue_tag() || c.tag == issuewild_tag(),
        c.value == issuer_value_bytes(name, kvs),
        name matches Some(n) ==> valid_name_text(n),
        forall|i: int| 0 <= i < kvs.len() ==> well_formed_key_value(#[trigger] kvs[i]),
    ensures
        tag_is_issuer(c.tag),
        read_issuer_spec(c.value) matches Ok((n2, raw)) && n2 == name && raw_key_values_chars(raw)
            == kvs,
{
    lemma_tag_kinds();
    lemma_issuer_value_roundtrip(name, kvs);
}

/// A character with ASCII upper-case letters mapped to lower case.
pub open spec fn char_lower(c: char) -> char {
    if 'A' <= c && c <= 'Z' {
        ((c as u32) + 32) as char
    } else {
        c
    }
}

/// Text with ASCII upper-case letters mapped to lower case.
pub open spec fn ascii_lowercase(t: Seq<char>) -> Seq<char> {
    t.map_values(|c: char| char_lower(c))
}

proof fn lemma_char_matches_lower(c: char, l: char)
    requires
        c <= '\u{7f}',
        'a' <= l <= 'z',
    ensures
        (crate::text::ascii_lower(c as u8) == crate::text::ascii_lower(l as u8)) <==> (char_lower(c)
            == l),
{
    let cu = c as u32;
    let lu = l as u32;
    assert(cu <= 0x7f && 0x61 <= lu <= 0x7a);
    assert(c as u8 == cu as u8);
    assert(l as u8 == lu as u8);
}

proof fn lemma_tag_matches_lower(t: Seq<char>, lit: Seq<char>)
    requires
        is_ascii_chars(t),
        forall|i: int| 0 <= i < lit.len() ==> 'a' <= #[trigger] lit[i] <= 'z',
    ensures
        eq_ignore_ascii_case(encode_utf8(t), ascii_bytes_of(lit)) <==> ascii_lowercase(t) == lit,
{
    lemma_literal_tag_bytes(t);
    let tb = ascii_bytes_of(t);
    let lb = ascii_bytes_of(lit);
    if t.len() == lit.len() {
        assert forall|i: int| 0 <= i < t.len() implies (crate::text::ascii_lower(#[trigger] tb[i])
            == crate::text::ascii_lower(lb[i])) <==> (ascii_lowercase(t)[i] == lit[i]) by {
            lemma_char_matches_lower(t[i], lit[i]);
        }
        if eq_ignore_ascii_case(tb, lb) {
            assert forall|i: int| 0 <= i < t.len() implies ascii_lowercase(t)[i] == lit[i] by {
                assert(crate::text::ascii_lower(tb[i]) == crate::text::ascii_lower(lb[i]));
            }
            assert(ascii_lowercase(t) =~= lit);
        }
        if ascii_lowercase(t) == lit {
            assert forall|i: int| 0 <= i < tb.len() implies #[trigger] crate::text::ascii_lower(tb[i])
                == crate::text::ascii_lower(lb[i]) by {
                assert(ascii_lowercase(t)[i] == lit[i]);
            }
        }
    } else {
        assert(ascii_lowercase(t).len() != lit.len());
    }
}

/// A tag counts as an issuer tag exactly when, with ASCII letters taken in
/// lower case, it is `issue` or `issuewild`; and as the iodef tag exactly
/// when it is then `iodef`. (Tags are ASCII.)
pub proof fn lemma_tag_kinds_exact(t: Seq<char>)
    requires
        is_ascii_chars(t),
    ensures
        tag_is_issuer(t) <==> (ascii_lowercase(t) == issue_tag() || ascii_lowercase(t)
            == issuewild_tag()),
        tag_is_iodef(t) <==> ascii_lowercase(t) == iodef_tag(),
{
    assert forall|i: int| 0 <= i < issue_tag().len() implies 'a' <= #[trigger] issue_tag()[i]
        <= 'z' by {}
    assert forall|i: int| 0 <= i < issuewild_tag().len() implies 'a' <= #[trigger] issuewild_tag()[i]
        <= 'z' by {}
    assert forall|i: int| 0 <= i < iodef_tag().len() implies 'a' <= #[trigger] iodef_tag()[i]
        <= 'z' by {}
    lemma_tag_matches_lower(t, issue_tag());
    lemma_tag_matches_lower(t, issuewild_tag());
    lemma_tag_matches_lower(t, iodef_tag());
}

} // verus!
