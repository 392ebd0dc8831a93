//! The property value of `issue` and `issuewild` records (RFC 8659,
//! section 4.2): an optional issuer domain name, then `;` and parameters
//! `tag=value` separated by `;`, with white space allowed around the name,
//! around `=` and around each parameter.
use vstd::prelude::*;
use vstd::utf8::*;
use vstd::string::*;
use crate::error::CaaError;
use crate::name::{Name, lemma_valid_name_text_ascii, valid_name_text};
use crate::text::{all_ascii, append_bytes, ascii_string, bytes_as_chars, is_ascii_alphanumeric};

verus! {

/// An issuer parameter: a tag and its value.
#[derive(Debug, PartialEq, Eq, Hash, Clone)]
pub struct KeyValue {
    key: String,
    value: String,
}

impl View for KeyValue {
    type V = (Seq<char>, Seq<char>);

    closed spec fn view(&self) -> (Seq<char>, Seq<char>) {
        (self.key@, self.value@)
    }
}

impl KeyValue {
    /// A parameter with the given tag and value.
    pub fn new(key: &str, value: &str) -> (r: KeyValue)
        ensures
            r@ == (key@, value@),
    {
        KeyValue { key: key.to_owned(), value: value.to_owned() }
    }

    /// The parameter's tag.
    pub fn key(&self) -> (r: &str)
        ensures
            r@ == self@.0,
    {
        self.key.as_str()
    }

    /// The parameter's value.
    pub fn value(&self) -> (r: &str)
        ensures
            r@ == self@.1,
    {
        self.value.as_str()
    }
}

/// The views of a sequence of parameters.
pub open spec fn key_value_views(kvs: Seq<KeyValue>) -> Seq<(Seq<char>, Seq<char>)> {
    kvs.map_values(|kv: KeyValue| kv@)
}

/// The text of a name that may be absent.
pub open spec fn name_view(name: Option<&Name>) -> Option<Seq<u8>> {
    match name {
        Some(n) => Some(n@),
        None => None,
    }
}

/// The text of an owned name that may be absent.
pub open spec fn owned_name_view(name: Option<Name>) -> Option<Seq<u8>> {
    match name {
        Some(n) => Some(n@),
        None => None,
    }
}

/// One encoded parameter: `; key=value`.
pub open spec fn key_value_bytes(kv: (Seq<char>, Seq<char>)) -> Seq<u8> {
    seq![0x3bu8, 0x20u8] + encode_utf8(kv.0) + seq![0x3du8] + encode_utf8(kv.1)
}

/// The encoded parameters, each as `; key=value`, in order.
pub open spec fn key_values_bytes(kvs: Seq<(Seq<char>, Seq<char>)>) -> Seq<u8>
    decreases kvs.len(),
{
    if kvs.len() == 0 {
        Seq::empty()
    } else {
        key_values_bytes(kvs.drop_last()) + key_value_bytes(kvs.last())
    }
}

/// The encoded issuer value: the name's text, then the parameters; a lone
/// `;` when there is neither.
pub open spec fn issuer_value_bytes(
    name: Option<Seq<u8>>,
    kvs: Seq<(Seq<char>, Seq<char>)>,
) -> Seq<u8> {
    match name {
        Some(n) => n + key_values_bytes(kvs),
        None => if kvs.len() == 0 {
            seq![0x3bu8]
        } else {
            key_values_bytes(kvs)
        },
    }
}

/// Encodes an issuer name and parameters as an `issue` property value.
pub fn encode_issuer_value(name: Option<&Name>, key_values: &[KeyValue]) -> (r: Vec<u8>)
    ensures
        r@ == issuer_value_bytes(name_view(name), key_value_views(key_values@)),
{
    let mut output: Vec<u8> = Vec::new();
    match name {
        Some(n) => {
            let text = n.to_ascii();
            append_bytes(&mut output, text.as_str().as_bytes());
        },
        None => {},
    }
    if name.is_none() && key_values.len() == 0 {
        output.push(0x3b);
        assert(output@ =~= seq![0x3bu8]);
        return output;
    }
    let ghost prefix = output@;
    let ghost views = key_value_views(key_values@);
    assert(prefix == match name_view(name) { Some(n) => n, None => Seq::<u8>::empty() });
    let mut i: usize = 0;
    while i < key_values.len()
        invariant
            0 <= i <= key_values@.len(),
            views == key_value_views(key_values@),
            output@ == prefix + key_values_bytes(views.take(i as int)),
        decreases key_values@.len() - i,
    {
        let kv = &key_values[i];
        let ghost before = output@;
        output.push(0x3b);
        output.push(0x20);
        append_bytes(&mut output, kv.key.as_str().as_bytes());
        output.push(0x3d);
        append_bytes(&mut output, kv.value.as_str().as_bytes());
        proof {
            assert(views.take(i + 1).drop_last() =~= views.take(i as int));
            assert(views[i as int] == kv@);
            assert(output@ =~= before + key_value_bytes(kv@));
        }
        i = i + 1;
    }
    assert(views.take(key_values@.len() as int) =~= views);
    output
}

/// A parameter as read: its tag and value bytes.
pub type RawKeyValue = (Seq<u8>, Seq<u8>);

/// Why an issuer value was refused.
pub enum IssuerFault {
    /// The name part is not UTF-8.
    Utf8,
    /// The name part is not a domain name.
    Name,
    /// A byte that cannot start or continue a tag, or stand before `=`.
    BadKey(u8),
    /// A byte that cannot stand in a value.
    BadValue(u8),
    /// The input ended after this tag, with no `=`.
    MissingValue(Seq<u8>),
}

/// White space: space or tab.
pub open spec fn is_wsp(b: u8) -> bool {
    b == 0x20 || b == 0x09
}

/// A byte that may continue a parameter tag: an ASCII letter, digit or `-`.
pub open spec fn is_tag_byte(b: u8) -> bool {
    is_ascii_alphanumeric(b) || b == 0x2d
}

/// A byte that may stand in a parameter value: visible ASCII but `;`.
pub open spec fn is_value_byte(b: u8) -> bool {
    (0x21 <= b && b <= 0x3a) || (0x3c <= b && b <= 0x7e)
}

/// `is_wsp` as a predicate.
pub open spec fn wsp_pred() -> spec_fn(u8) -> bool {
    |b: u8| is_wsp(b)
}

/// `is_tag_byte` as a predicate.
pub open spec fn tag_pred() -> spec_fn(u8) -> bool {
    |b: u8| is_tag_byte(b)
}

/// `is_value_byte` as a predicate.
pub open spec fn value_pred() -> spec_fn(u8) -> bool {
    |b: u8| is_value_byte(b)
}

/// Any byte but `;`.
pub open spec fn not_semicolon_pred() -> spec_fn(u8) -> bool {
    |b: u8| b != 0x3b
}

/// The length of the longest prefix of `s` whose bytes satisfy `p`.
pub open spec fn span(s: Seq<u8>, p: spec_fn(u8) -> bool) -> nat
    decreases s.len(),
{
    if s.len() > 0 && p(s[0]) {
        1 + span(s.drop_first(), p)
    } else {
        0
    }
}

/// The length of the longest suffix of `s` whose bytes satisfy `p`.
pub open spec fn span_back(s: Seq<u8>, p: spec_fn(u8) -> bool) -> nat
    decreases s.len(),
{
    if s.len() > 0 && p(s.last()) {
        1 + span_back(s.drop_last(), p)
    } else {
        0
    }
}

/// `s` without leading white space.
pub open spec fn skip_wsp(s: Seq<u8>) -> Seq<u8> {
    s.skip(span(s, wsp_pred()) as int)
}

/// `s` without leading and trailing white space.
pub open spec fn trim_wsp(s: Seq<u8>) -> Seq<u8> {
    let u = skip_wsp(s);
    u.take(u.len() - span_back(u, wsp_pred()))
}

/// The length of the name part: the bytes before the first `;`.
pub open spec fn name_part_len(s: Seq<u8>) -> nat {
    span(s, not_semicolon_pred())
}

/// The bytes after the first `;` (none when there is none).
pub open spec fn params_part(s: Seq<u8>) -> Seq<u8> {
    let k = name_part_len(s) as int;
    if k < s.len() {
        s.skip(k + 1)
    } else {
        Seq::empty()
    }
}

/// The issuer name that the name part gives, white space around it
/// ignored: none when nothing else is there.
pub open spec fn read_name_part(part: Seq<u8>) -> Result<Option<Seq<u8>>, IssuerFault> {
    let nb = trim_wsp(part);
    if nb.len() == 0 {
        Ok(None)
    } else if !valid_utf8(nb) {
        Err(IssuerFault::Utf8)
    } else if !valid_name_text(nb) {
        Err(IssuerFault::Name)
    } else {
        Ok(Some(nb))
    }
}

/// One parameter, `tag *WSP "=" *WSP value`, from text without white space
/// at either end: the tag is an ASCII letter or digit followed by letters,
/// digits and `-`; the value is visible ASCII other than `;`. A tag with no
/// `=` is refused at the `;` that ends its part (`semicolon`), or as a tag
/// missing its value at the end of the input.
pub open spec fn parse_param(t: Seq<u8>, semicolon: bool) -> Result<RawKeyValue, IssuerFault> {
    if !is_ascii_alphanumeric(t[0]) {
        Err(IssuerFault::BadKey(t[0]))
    } else {
        let n = span(t, tag_pred()) as int;
        let key = t.take(n);
        let after = skip_wsp(t.skip(n));
        if after.len() == 0 {
            if semicolon {
                Err(IssuerFault::BadKey(0x3b))
            } else {
                Err(IssuerFault::MissingValue(key))
            }
        } else if after[0] != 0x3d {
            Err(IssuerFault::BadKey(after[0]))
        } else {
            let value = skip_wsp(after.drop_first());
            let m = span(value, value_pred()) as int;
            if m < value.len() {
                Err(IssuerFault::BadValue(value[m]))
            } else {
                Ok((key, value))
            }
        }
    }
}

/// The parameters: the `;`-separated parts in order, each with white
/// space around it ignored; parts that hold nothing else are skipped.
pub open spec fn parse_params(p: Seq<u8>) -> Result<Seq<RawKeyValue>, IssuerFault>
    decreases p.len(),
{
    let j = span(p, not_semicolon_pred()) as int;
    let t = trim_wsp(p.take(j));
    let head: Result<Option<RawKeyValue>, IssuerFault> = if t.len() == 0 {
        Ok(None)
    } else {
        match parse_param(t, j < p.len()) {
            Ok(kv) => Ok(Some(kv)),
            Err(f) => Err(f),
        }
    };
    match head {
        Err(f) => Err(f),
        Ok(h) => {
            let tail = if j < p.len() {
                parse_params(p.skip(j + 1))
            } else {
                Ok(Seq::empty())
            };
            match tail {
                Err(f) => Err(f),
                Ok(rest) => Ok(
                    match h {
                        Some(kv) => seq![kv] + rest,
                        None => rest,
                    },
                ),
            }
        },
    }
}

/// What an issuer value reads as (RFC 8659 `issue-value`): the name before
/// the first `;`, then the parameters; or the first fault.
pub open spec fn read_issuer_spec(s: Seq<u8>) -> Result<(Option<Seq<u8>>, Seq<RawKeyValue>), IssuerFault> {
    match read_name_part(s.take(name_part_len(s) as int)) {
        Err(f) => Err(f),
        Ok(name) => match parse_params(params_part(s)) {
            Err(f) => Err(f),
            Ok(kvs) => Ok((name, kvs)),
        },
    }
}

/// A raw parameter as characters.
pub open spec fn raw_key_value_chars(kv: RawKeyValue) -> (Seq<char>, Seq<char>) {
    (bytes_as_chars(kv.0), bytes_as_chars(kv.1))
}

/// Raw parameters as characters.
pub open spec fn raw_key_values_chars(kvs: Seq<RawKeyValue>) -> Seq<(Seq<char>, Seq<char>)> {
    kvs.map_values(|kv: RawKeyValue| raw_key_value_chars(kv))
}

/// The error value that stands for a fault.
pub open spec fn error_for_fault(e: CaaError, f: IssuerFault) -> bool {
    match f {
        IssuerFault::Utf8 => e == CaaError::InvalidUtf8,
        IssuerFault::Name => e == CaaError::InvalidName,
        IssuerFault::BadKey(b) => e == CaaError::BadKeyCharacter(b),
        IssuerFault::BadValue(b) => e == CaaError::BadValueCharacter(b),
        IssuerFault::MissingValue(k) => e matches CaaError::KeyMissingValue(s) && s@
            == bytes_as_chars(k),
    }
}

/// The result of reading an issuer value, in terms of `read_issuer_spec`.
pub open spec fn read_issuer_result(
    s: Seq<u8>,
    r: Result<(Option<Name>, Vec<KeyValue>), CaaError>,
) -> bool {
    match read_issuer_spec(s) {
        Ok((name, kvs)) => r matches Ok(v) && owned_name_view(v.0) == name
            && key_value_views(v.1@) == raw_key_values_chars(kvs),
        Err(f) => r matches Err(e) && error_for_fault(e, f),
    }
}

/// `span` is the first position whose byte fails `p`.
pub proof fn lemma_span(s: Seq<u8>, p: spec_fn(u8) -> bool, k: int)
    requires
        0 <= k <= s.len(),
        forall|j: int| 0 <= j < k ==> p(#[trigger] s[j]),
        k == s.len() || !p(s[k]),
    ensures
        span(s, p) == k,
    decreases s.len(),
{
    if k > 0 {
        let t = s.drop_first();
        assert forall|j: int| 0 <= j < k - 1 implies p(#[trigger] t[j]) by {
            assert(t[j] == s[j + 1]);
        }
        assert(p(s[0]));
        lemma_span(t, p, k - 1);
    }
}

/// `span_back` counts the last bytes that satisfy `p`.
pub proof fn lemma_span_back(s: Seq<u8>, p: spec_fn(u8) -> bool, k: int)
    requires
        0 <= k <= s.len(),
        forall|j: int| s.len() - k <= j < s.len() ==> p(#[trigger] s[j]),
        k == s.len() || !p(s[s.len() - k - 1]),
    ensures
        span_back(s, p) == k,
    decreases s.len(),
{
    if k > 0 {
        let t = s.drop_last();
        assert forall|j: int| t.len() - (k - 1) <= j < t.len() implies p(#[trigger] t[j]) by {
            assert(t[j] == s[j]);
        }
        assert(p(s[s.len() - 1]));
        if k - 1 < t.len() {
            assert(t[t.len() - (k - 1) - 1] == s[s.len() - k - 1]);
        }
        lemma_span_back(t, p, k - 1);
    }
}

/// The end of the run of white space in `s` that starts at `start`.
fn scan_wsp(s: &[u8], start: usize) -> (r: usize)
    requires
        start <= s@.len(),
    ensures
        start <= r <= s@.len(),
        r - start == span(s@.skip(start as int), wsp_pred()),
{
    let mut i = start;
    while i < s.len() && (s[i] == 0x20 || s[i] == 0x09)
        invariant
            start <= i <= s@.len(),
            forall|j: int| start <= j < i ==> is_wsp(#[trigger] s@[j]),
        decreases s@.len() - i,
    {
        i = i + 1;
    }
    let ghost t = s@.skip(start as int);
    proof {
        assert forall|j: int| 0 <= j < i - start implies (wsp_pred())(#[trigger] t[j]) by {
            assert(t[j] == s@[start + j]);
        }
        if i < s@.len() {
            assert(t[i - start] == s@[i as int]);
        }
        lemma_span(t, wsp_pred(), i - start);
    }
    i
}

/// The text without white space at either end.
fn trim(s: &[u8]) -> (r: &[u8])
    ensures
        r@ == trim_wsp(s@),
{
    let a = scan_wsp(s, 0);
    assert(s@.skip(0) =~= s@);
    let mut e = s.len();
    while e > a && (s[e - 1] == 0x20 || s[e - 1] == 0x09)
        invariant
            a <= e <= s@.len(),
            forall|j: int| e <= j < s@.len() ==> is_wsp(#[trigger] s@[j]),
        decreases e,
    {
        e = e - 1;
    }
    let ghost u = s@.skip(a as int);
    proof {
        let k = s@.len() - e;
        assert forall|j: int| u.len() - k <= j < u.len() implies (wsp_pred())(#[trigger] u[j]) by {
            assert(u[j] == s@[a + j]);
        }
        if k < u.len() {
            assert(u[u.len() - k - 1] == s@[e - 1]);
        }
        lemma_span_back(u, wsp_pred(), k);
    }
    let r = vstd::slice::slice_subrange(s, a, e);
    assert(r@ =~= u.take(u.len() - span_back(u, wsp_pred())));
    r
}

/// Reads one parameter from text without white space at either end.
fn read_param(t: &[u8], semicolon: bool) -> (r: Result<KeyValue, CaaError>)
    requires
        t@.len() > 0,
    ensures
        match parse_param(t@, semicolon) {
            Ok(kv) => r matches Ok(x) && x@ == raw_key_value_chars(kv),
            Err(f) => r matches Err(e) && error_for_fault(e, f),
        },
{
    let n = t.len();
    let c = t[0];
    if !((0x30 <= c && c <= 0x39) || (0x41 <= c && c <= 0x5a) || (0x61 <= c && c <= 0x7a)) {
        return Err(CaaError::BadKeyCharacter(c));
    }
    let mut i: usize = 1;
    while i < n && ((0x30 <= t[i] && t[i] <= 0x39) || (0x41 <= t[i] && t[i] <= 0x5a) || (0x61
        <= t[i] && t[i] <= 0x7a) || t[i] == 0x2d)
        invariant
            1 <= i <= n,
            n == t@.len(),
            forall|j: int| 0 <= j < i ==> is_tag_byte(#[trigger] t@[j]),
        decreases n - i,
    {
        i = i + 1;
    }
    proof {
        assert forall|j: int| 0 <= j < i implies (tag_pred())(#[trigger] t@[j]) by {}
        lemma_span(t@, tag_pred(), i as int);
    }
    let key = vstd::slice::slice_subrange(t, 0, i);
    assert(key@ =~= t@.take(i as int));
    let j = scan_wsp(t, i);
    assert(skip_wsp(t@.skip(i as int)) =~= t@.skip(j as int));
    if j == n {
        if semicolon {
            return Err(CaaError::BadKeyCharacter(0x3b));
        }
        assert(all_ascii(key@)) by {
            assert forall|x: int| 0 <= x < key@.len() implies #[trigger] key@[x] < 0x80 by {
                assert(is_tag_byte(t@[x]));
            }
        }
        return Err(CaaError::KeyMissingValue(ascii_string(key)));
    }
    if t[j] != 0x3d {
        return Err(CaaError::BadKeyCharacter(t[j]));
    }
    let v = scan_wsp(t, j + 1);
    assert(t@.skip(j as int).drop_first() =~= t@.skip(j + 1));
    assert(skip_wsp(t@.skip(j + 1)) =~= t@.skip(v as int));
    let mut w = v;
    while w < n && ((0x21 <= t[w] && t[w] <= 0x3a) || (0x3c <= t[w] && t[w] <= 0x7e))
        invariant
            v <= w <= n,
            n == t@.len(),
            forall|x: int| v <= x < w ==> is_value_byte(#[trigger] t@[x]),
        decreases n - w,
    {
        w = w + 1;
    }
    let ghost value_s = t@.skip(v as int);
    proof {
        assert forall|x: int| 0 <= x < w - v implies (value_pred())(#[trigger] value_s[x]) by {
            assert(value_s[x] == t@[v + x]);
        }
        if w < n {
            assert(value_s[w - v] == t@[w as int]);
        }
        lemma_span(value_s, value_pred(), w - v);
    }
    if w < n {
        return Err(CaaError::BadValueCharacter(t[w]));
    }
    let value = vstd::slice::slice_subrange(t, v, n);
    assert(value@ =~= value_s);
    assert(all_ascii(key@)) by {
        assert forall|x: int| 0 <= x < key@.len() implies #[trigger] key@[x] < 0x80 by {
            assert(is_tag_byte(t@[x]));
        }
    }
    assert(all_ascii(value@)) by {
        assert forall|x: int| 0 <= x < value@.len() implies #[trigger] value@[x] < 0x80 by {
            assert(is_value_byte(t@[v + x]));
        }
    }
    Ok(KeyValue { key: ascii_string(key), value: ascii_string(value) })
}

/// Reads the parameters of an issuer value (what follows the first `;`),
/// appending them to `out`.
fn read_params_into(p: &[u8], out: &mut Vec<KeyValue>) -> (r: Result<(), CaaError>)
    ensures
        match parse_params(p@) {
            Ok(raw) => r is Ok && key_value_views(final(out)@) == key_value_views(old(out)@)
                + raw_key_values_chars(raw),
            Err(f) => r matches Err(e) && error_for_fault(e, f),
        },
    decreases p@.len(),
{
    let n = p.len();
    let mut j: usize = 0;
    while j < n && p[j] != 0x3b
        invariant
            0 <= j <= n,
            n == p@.len(),
            forall|x: int| 0 <= x < j ==> p@[x] != 0x3b,
        decreases n - j,
    {
        j = j + 1;
    }
    proof {
        assert forall|x: int| 0 <= x < j implies (not_semicolon_pred())(#[trigger] p@[x]) by {}
        lemma_span(p@, not_semicolon_pred(), j as int);
    }
    let seg = vstd::slice::slice_subrange(p, 0, j);
    assert(seg@ =~= p@.take(j as int));
    let t = trim(seg);
    let ghost before = out@;
    if t.len() > 0 {
        match read_param(t, j < n) {
            Ok(kv) => {
                out.push(kv);
            },
            Err(e) => {
                return Err(e);
            },
        }
    }
    let ghost middle = out@;
    if j < n {
        let rest = vstd::slice::slice_subrange(p, j + 1, n);
        assert(rest@ =~= p@.skip(j + 1));
        let r = read_params_into(rest, out);
        proof {
            if let Ok(raw_rest) = parse_params(rest@) {
                if t@.len() > 0 {
                    let kv = parse_param(t@, j < n)->Ok_0;
                    assert(raw_key_values_chars(seq![kv] + raw_rest) =~= seq![
                        raw_key_value_chars(kv),
                    ] + raw_key_values_chars(raw_rest));
                    assert(key_value_views(middle) =~= key_value_views(before).push(
                        raw_key_value_chars(kv),
                    ));
                    assert(key_value_views(out@) =~= key_value_views(before) + raw_key_values_chars(
                        seq![kv] + raw_rest,
                    ));
                }
            }
        }
        r
    } else {
        proof {
            if t@.len() > 0 {
                let kv = parse_param(t@, j < n)->Ok_0;
                assert(raw_key_values_chars(seq![kv] + Seq::<RawKeyValue>::empty()) =~= seq![
                    raw_key_value_chars(kv),
                ]);
                assert(key_value_views(out@) =~= key_value_views(before).push(
                    raw_key_value_chars(kv),
                ));
            } else {
                assert(raw_key_values_chars(Seq::<RawKeyValue>::empty()) =~= Seq::empty());
                assert(key_value_views(out@) =~= key_value_views(before) + Seq::empty());
            }
        }
        Ok(())
    }
}

/// Reads an `issue` or `issuewild` property value: the issuer name before
/// the first `;` (none when that part holds only white space), then the
/// parameters.
pub fn read_issuer(bytes: &[u8]) -> (r: Result<(Option<Name>, Vec<KeyValue>), CaaError>)
    ensures
        read_issuer_result(bytes@, r),
{
    let n = bytes.len();
    let mut k: usize = 0;
    while k < n && bytes[k] != 0x3b
        invariant
            0 <= k <= n,
            n == bytes@.len(),
            forall|j: int| 0 <= j < k ==> bytes@[j] != 0x3b,
        decreases n - k,
    {
        k = k + 1;
    }
    proof {
        assert forall|x: int| 0 <= x < k implies (not_semicolon_pred())(#[trigger] bytes@[x]) by {}
        lemma_span(bytes@, not_semicolon_pred(), k as int);
    }
    let part = vstd::slice::slice_subrange(bytes, 0, k);
    assert(part@ =~= bytes@.take(k as int));
    let name_bytes = trim(part);
    let name: Option<Name> = if name_bytes.len() == 0 {
        None
    } else {
        match crate::text::str_from_utf8(name_bytes) {
            None => {
                return Err(CaaError::InvalidUtf8);
            },
            Some(text) => {
                proof {
                    decode_utf8_encode_utf8(name_bytes@);
                }
                match Name::from_ascii(text) {
                    Ok(nm) => Some(nm),
                    Err(e) => {
                        return Err(e);
                    },
                }
            },
        }
    };
    assert(read_name_part(bytes@.take(k as int)) == Ok::<Option<Seq<u8>>, IssuerFault>(
        owned_name_view(name),
    ));
    let start: usize = if k < n {
        k + 1
    } else {
        n
    };
    let params = vstd::slice::slice_subrange(bytes, start, n);
    assert(params_part(bytes@) =~= params@);
    let mut kvs: Vec<KeyValue> = Vec::new();
    match read_params_into(params, &mut kvs) {
        Ok(()) => {
            proof {
                let raw = parse_params(params@)->Ok_0;
                assert(key_value_views(Seq::<KeyValue>::empty()) + raw_key_values_chars(raw)
                    =~= raw_key_values_chars(raw));
            }
            Ok((name, kvs))
        },
        Err(e) => Err(e),
    }
}

/// An ASCII letter or digit.
pub open spec fn is_alphanumeric_char(c: char) -> bool {
    ('0' <= c && c <= '9') || ('A' <= c && c <= 'Z') || ('a' <= c && c <= 'z')
}

/// A parameter tag: an ASCII letter or digit, then letters, digits and `-`.
pub open spec fn well_formed_key(k: Seq<char>) -> bool {
    &&& k.len() >= 1
    &&& is_alphanumeric_char(k[0])
    &&& forall|i: int| 1 <= i < k.len() ==> is_alphanumeric_char(#[trigger] k[i]) || k[i] == '-'
}

/// A parameter value: visible ASCII but `;`.
pub open spec fn well_formed_value(v: Seq<char>) -> bool {
    forall|i: int|
        0 <= i < v.len() ==> ('!' <= #[trigger] v[i] && v[i] <= ':') || (';' < v[i] && v[i]
            <= '~')
}

/// A parameter that the value syntax admits.
pub open spec fn well_formed_key_value(kv: (Seq<char>, Seq<char>)) -> bool {
    well_formed_key(kv.0) && well_formed_value(kv.1)
}

/// The bytes of ASCII characters.
pub open spec fn chars_as_bytes(c: Seq<char>) -> Seq<u8> {
    c.map_values(|x: char| x as u8)
}

/// The raw form of a parameter.
pub open spec fn raw_of(kv: (Seq<char>, Seq<char>)) -> RawKeyValue {
    (chars_as_bytes(kv.0), chars_as_bytes(kv.1))
}

/// Parameters in raw form.
pub open spec fn raw_list(kvs: Seq<(Seq<char>, Seq<char>)>) -> Seq<RawKeyValue> {
    kvs.map_values(|kv: (Seq<char>, Seq<char>)| raw_of(kv))
}

/// One parameter in raw form, encoded.
pub open spec fn raw_key_value_bytes(kv: RawKeyValue) -> Seq<u8> {
    seq![0x3bu8, 0x20u8] + kv.0 + seq![0x3du8] + kv.1
}

/// Raw parameters, encoded.
pub open spec fn raw_key_values_bytes(kvs: Seq<RawKeyValue>) -> Seq<u8>
    decreases kvs.len(),
{
    if kvs.len() == 0 {
        Seq::empty()
    } else {
        raw_key_values_bytes(kvs.drop_last()) + raw_key_value_bytes(kvs.last())
    }
}

/// A raw parameter in the value syntax.
pub open spec fn raw_readable(kv: RawKeyValue) -> bool {
    &&& kv.0.len() >= 1
    &&& is_ascii_alphanumeric(kv.0[0])
    &&& forall|i: int| 0 <= i < kv.0.len() ==> is_tag_byte(#[trigger] kv.0[i])
    &&& forall|i: int| 0 <= i < kv.1.len() ==> is_value_byte(#[trigger] kv.1[i])
}

proof fn lemma_raw_of_readable(kv: (Seq<char>, Seq<char>))
    requires
        well_formed_key_value(kv),
    ensures
        raw_readable(raw_of(kv)),
        encode_utf8(kv.0) == chars_as_bytes(kv.0),
        encode_utf8(kv.1) == chars_as_bytes(kv.1),
        raw_key_value_chars(raw_of(kv)) == kv,
{
    let (k, v) = kv;
    assert(is_ascii_chars(k)) by {
        assert forall|i: int| 0 <= i < k.len() implies '\0' <= #[trigger] k[i] <= '\u{7f}' by {
            if i >= 1 {
                assert(is_alphanumeric_char(k[i]) || k[i] == '-');
            }
        }
    }
    assert(is_ascii_chars(v)) by {
        assert forall|i: int| 0 <= i < v.len() implies '\0' <= #[trigger] v[i] <= '\u{7f}' by {
            assert(('!' <= v[i] && v[i] <= ':') || (';' < v[i] && v[i] <= '~'));
        }
    }
    is_ascii_chars_encode_utf8(k);
    is_ascii_chars_encode_utf8(v);
    assert(encode_utf8(k) =~= chars_as_bytes(k));
    assert(encode_utf8(v) =~= chars_as_bytes(v));
    let kb = chars_as_bytes(k);
    let vb = chars_as_bytes(v);
    assert forall|i: int| 0 <= i < kb.len() implies is_tag_byte(#[trigger] kb[i]) by {
        if i >= 1 {
            assert(is_alphanumeric_char(k[i]) || k[i] == '-');
        }
    }
    assert forall|i: int| 0 <= i < vb.len() implies is_value_byte(#[trigger] vb[i]) by {
        assert(('!' <= v[i] && v[i] <= ':') || (';' < v[i] && v[i] <= '~'));
    }
    assert(bytes_as_chars(kb) =~= k);
    assert(bytes_as_chars(vb) =~= v);
}

proof fn lemma_key_values_bytes_raw(kvs: Seq<(Seq<char>, Seq<char>)>)
    requires
        forall|i: int| 0 <= i < kvs.len() ==> well_formed_key_value(#[trigger] kvs[i]),
    ensures
        key_values_bytes(kvs) == raw_key_values_bytes(raw_list(kvs)),
        raw_key_values_chars(raw_list(kvs)) == kvs,
        forall|i: int| 0 <= i < kvs.len() ==> raw_readable(#[trigger] raw_list(kvs)[i]),
    decreases kvs.len(),
{
    let raw = raw_list(kvs);
    assert forall|i: int| 0 <= i < kvs.len() implies raw_readable(#[trigger] raw[i])
        && raw_key_value_chars(raw[i]) == kvs[i] by {
        lemma_raw_of_readable(kvs[i]);
    }
    assert(raw_key_values_chars(raw) =~= kvs);
    if kvs.len() > 0 {
        let init = kvs.drop_last();
        assert forall|i: int| 0 <= i < init.len() implies well_formed_key_value(#[trigger] init[i]) by {
            assert(init[i] == kvs[i]);
        }
        lemma_key_values_bytes_raw(init);
        assert(raw_list(init) =~= raw.drop_last());
        lemma_raw_of_readable(kvs.last());
        assert(raw.last() == raw_of(kvs.last()));
    }
}

/// Encoded parameters start with `;`.
proof fn lemma_key_values_start(raw: Seq<RawKeyValue>)
    requires
        raw.len() >= 1,
    ensures
        raw_key_values_bytes(raw).len() >= 1,
        raw_key_values_bytes(raw)[0] == 0x3b,
    decreases raw.len(),
{
    let init = raw.drop_last();
    let tail = raw_key_value_bytes(raw.last());
    assert(raw_key_values_bytes(raw) == raw_key_values_bytes(init) + tail);
    if init.len() > 0 {
        lemma_key_values_start(init);
    } else {
        assert(raw_key_values_bytes(init) =~= Seq::<u8>::empty());
        assert(raw_key_values_bytes(raw) =~= tail);
    }
}

/// Encoded parameters are the first one followed by the others.
proof fn lemma_key_values_front(raw: Seq<RawKeyValue>)
    requires
        raw.len() >= 1,
    ensures
        raw_key_values_bytes(raw) == raw_key_value_bytes(raw[0]) + raw_key_values_bytes(
            raw.drop_first(),
        ),
    decreases raw.len(),
{
    let init = raw.drop_last();
    if raw.len() == 1 {
        assert(raw_key_values_bytes(init) =~= Seq::<u8>::empty());
        assert(raw.drop_first() =~= Seq::<RawKeyValue>::empty());
        assert(raw_key_values_bytes(raw.drop_first()) =~= Seq::<u8>::empty());
        assert(raw_key_values_bytes(raw) =~= raw_key_value_bytes(raw[0]));
    } else {
        lemma_key_values_front(init);
        let rest = raw.drop_first();
        assert(rest.drop_last() =~= init.drop_first());
        assert(rest.last() == raw.last());
        assert(init[0] == raw[0]);
        assert(raw_key_values_bytes(rest) == raw_key_values_bytes(rest.drop_last())
            + raw_key_value_bytes(rest.last()));
        assert(raw_key_values_bytes(raw) =~= raw_key_value_bytes(raw[0]) + raw_key_values_bytes(
            rest,
        ));
    }
}

/// No parameters read from nothing.
proof fn lemma_parse_params_empty()
    ensures
        parse_params(Seq::empty()) == Ok::<Seq<RawKeyValue>, IssuerFault>(Seq::empty()),
{
    let e = Seq::<u8>::empty();
    assert(span(e, not_semicolon_pred()) == 0);
    assert(span(e, wsp_pred()) == 0);
    assert(skip_wsp(e) =~= e);
    assert(span_back(e, wsp_pred()) == 0);
    assert(trim_wsp(e.take(0)) =~= e);
}

/// One encoded parameter, ` tag=value`, trims to `tag=value`.
proof fn lemma_trim_one(kv: RawKeyValue)
    requires
        raw_readable(kv),
    ensures
        trim_wsp(seq![0x20u8] + (kv.0 + seq![0x3du8] + kv.1)) == kv.0 + seq![0x3du8] + kv.1,
{
    let (k, v) = kv;
    let u = k + seq![0x3du8] + v;
    let s = seq![0x20u8] + u;
    assert(s[1] == k[0]);
    assert(!is_wsp(k[0]));
    lemma_span(s, wsp_pred(), 1);
    assert(skip_wsp(s) =~= u);
    if v.len() > 0 {
        assert(u[u.len() - 1] == v[v.len() - 1]);
        assert(is_value_byte(v[v.len() - 1]));
    } else {
        assert(u[u.len() - 1] == 0x3d);
    }
    lemma_span_back(u, wsp_pred(), 0);
    assert(u.take(u.len() as int) =~= u);
}

/// `tag=value` reads as the parameter.
proof fn lemma_parse_one(kv: RawKeyValue, semicolon: bool)
    requires
        raw_readable(kv),
    ensures
        parse_param(kv.0 + seq![0x3du8] + kv.1, semicolon) == Ok::<RawKeyValue, IssuerFault>(kv),
{
    let (k, v) = kv;
    let u = k + seq![0x3du8] + v;
    assert forall|j: int| 0 <= j < k.len() implies (tag_pred())(#[trigger] u[j]) by {
        assert(u[j] == k[j]);
    }
    assert(u[k.len() as int] == 0x3d);
    lemma_span(u, tag_pred(), k.len() as int);
    assert(u.take(k.len() as int) =~= k);
    let w = u.skip(k.len() as int);
    assert(w =~= seq![0x3du8] + v);
    lemma_span(w, wsp_pred(), 0);
    assert(skip_wsp(w) =~= w);
    assert(w.drop_first() =~= v);
    if v.len() > 0 {
        assert(is_value_byte(v[0]));
    }
    lemma_span(v, wsp_pred(), 0);
    assert(skip_wsp(v) =~= v);
    assert forall|j: int| 0 <= j < v.len() implies (value_pred())(#[trigger] v[j]) by {}
    lemma_span(v, value_pred(), v.len() as int);
}

/// Reading encoded parameters (after their first `;`) gives them back.
proof fn lemma_parse_params_encoded(raw: Seq<RawKeyValue>)
    requires
        raw.len() >= 1,
        forall|i: int| 0 <= i < raw.len() ==> raw_readable(#[trigger] raw[i]),
    ensures
        parse_params(raw_key_values_bytes(raw).drop_first()) == Ok::<Seq<RawKeyValue>, IssuerFault>(
            raw,
        ),
    decreases raw.len(),
{
    let kv = raw[0];
    assert(raw_readable(kv));
    let rest_raw = raw.drop_first();
    lemma_key_values_front(raw);
    let u = kv.0 + seq![0x3du8] + kv.1;
    let seg = seq![0x20u8] + u;
    lemma_trim_one(kv);
    let rest = raw_key_values_bytes(rest_raw);
    let p = raw_key_values_bytes(raw).drop_first();
    assert(p =~= seg + rest);
    assert forall|j: int| 0 <= j < seg.len() implies (not_semicolon_pred())(#[trigger] p[j]) by {
        assert(p[j] == seg[j]);
        if 1 <= j < 1 + kv.0.len() {
            assert(seg[j] == kv.0[j - 1]);
            assert(is_tag_byte(kv.0[j - 1]));
        } else if 1 + kv.0.len() + 1 <= j {
            assert(seg[j] == kv.1[j - 2 - kv.0.len()]);
            assert(is_value_byte(kv.1[j - 2 - kv.0.len()]));
        }
    }
    if rest_raw.len() > 0 {
        lemma_key_values_start(rest_raw);
        assert(p[seg.len() as int] == 0x3b);
    }
    lemma_span(p, not_semicolon_pred(), seg.len() as int);
    assert(p.take(seg.len() as int) =~= seg);
    let semicolon = (seg.len() as int) < p.len();
    lemma_parse_one(kv, semicolon);
    assert(trim_wsp(p.take(seg.len() as int)) == u);
    assert(u.len() > 0);
    assert(parse_param(u, semicolon) == Ok::<RawKeyValue, IssuerFault>(kv));
    if rest_raw.len() > 0 {
        assert forall|i: int| 0 <= i < rest_raw.len() implies raw_readable(#[trigger] rest_raw[i]) by {
            assert(rest_raw[i] == raw[i + 1]);
        }
        lemma_parse_params_encoded(rest_raw);
        assert(p.skip(seg.len() as int + 1) =~= rest.drop_first());
        assert(seq![kv] + rest_raw =~= raw);
    } else {
        assert(rest =~= Seq::<u8>::empty());
        assert(seq![kv] + Seq::<RawKeyValue>::empty() =~= raw);
    }
}

/// Reading an encoded issuer value gives back the name and parameters
/// that were encoded, for a valid name and parameters in the value syntax
/// (see `well_formed_key_value`).
pub proof fn lemma_issuer_value_roundtrip(
    name: Option<Seq<u8>>,
    kvs: Seq<(Seq<char>, Seq<char>)>,
)
    requires
        name matches Some(n) ==> valid_name_text(n),
        forall|i: int| 0 <= i < kvs.len() ==> well_formed_key_value(#[trigger] kvs[i]),
    ensures
        read_issuer_spec(issuer_value_bytes(name, kvs)) matches Ok((n2, raw)) && n2 == name
            && raw_key_values_chars(raw) == kvs,
{
    let raw = raw_list(kvs);
    lemma_key_values_bytes_raw(kvs);
    let kb = key_values_bytes(kvs);
    let s = issuer_value_bytes(name, kvs);
    lemma_parse_params_empty();
    if kvs.len() > 0 {
        lemma_parse_params_encoded(raw);
        lemma_key_values_start(raw);
    } else {
        assert(kb =~= Seq::<u8>::empty());
        assert(raw =~= Seq::<RawKeyValue>::empty());
    }
    match name {
        Some(n) => {
            lemma_valid_name_text_ascii(n);
            crate::text::lemma_ascii_bytes_utf8(n);
            let k = n.len() as int;
            assert(s =~= n + kb);
            assert forall|j: int| 0 <= j < k implies (not_semicolon_pred())(#[trigger] s[j]) by {
                assert(s[j] == n[j]);
            }
            lemma_span(s, not_semicolon_pred(), k);
            assert(s.take(k) =~= n);
            lemma_span(n, wsp_pred(), 0);
            assert(skip_wsp(n) =~= n);
            lemma_span_back(n, wsp_pred(), 0);
            assert(trim_wsp(n) =~= n);
            if kvs.len() > 0 {
                assert(params_part(s) =~= kb.drop_first());
            } else {
                assert(params_part(s) =~= Seq::<u8>::empty());
            }
        },
        None => {
            lemma_span(s, not_semicolon_pred(), 0);
            assert(s.take(0) =~= Seq::<u8>::empty());
            assert(trim_wsp(Seq::<u8>::empty()) =~= Seq::<u8>::empty()) by {
                lemma_span(Seq::<u8>::empty(), wsp_pred(), 0);
                lemma_span_back(Seq::<u8>::empty(), wsp_pred(), 0);
            }
            if kvs.len() > 0 {
                assert(params_part(s) =~= kb.drop_first());
            } else {
                assert(params_part(s) =~= Seq::<u8>::empty());
            }
        },
    }
}

/// A parameter after any white space trims to the parameter itself.
proof fn lemma_trim_padded(kv: RawKeyValue, w: Seq<u8>)
    requires
        raw_readable(kv),
        forall|i: int| 0 <= i < w.len() ==> is_wsp(#[trigger] w[i]),
    ensures
        trim_wsp(w + (kv.0 + seq![0x3du8] + kv.1)) == kv.0 + seq![0x3du8] + kv.1,
{
    let (k, v) = kv;
    let u = k + seq![0x3du8] + v;
    let s = w + u;
    assert forall|j: int| 0 <= j < w.len() implies (wsp_pred())(#[trigger] s[j]) by {
        assert(s[j] == w[j]);
    }
    assert(s[w.len() as int] == k[0]);
    assert(!is_wsp(k[0]));
    lemma_span(s, wsp_pred(), w.len() as int);
    assert(skip_wsp(s) =~= u);
    if v.len() > 0 {
        assert(u[u.len() - 1] == v[v.len() - 1]);
        assert(is_value_byte(v[v.len() - 1]));
    } else {
        assert(u[u.len() - 1] == 0x3d);
    }
    lemma_span_back(u, wsp_pred(), 0);
    assert(u.take(u.len() as int) =~= u);
}

/// After the `;` that ends the issuer name, any white space, none
/// included, may come before a parameter: reading `name;` followed by
/// white space and `tag=value` gives the name and that one parameter.
pub proof fn lemma_parameter_after_semicolon(
    n: Seq<u8>,
    w: Seq<u8>,
    k: Seq<char>,
    v: Seq<char>,
)
    requires
        valid_name_text(n),
        forall|i: int| 0 <= i < w.len() ==> is_wsp(#[trigger] w[i]),
        well_formed_key_value((k, v)),
    ensures
        read_issuer_spec(n + seq![0x3bu8] + w + encode_utf8(k) + seq![0x3du8] + encode_utf8(v))
            matches Ok((n2, raw)) && n2 == Some(n) && raw_key_values_chars(raw) == seq![(k, v)],
{
    lemma_raw_of_readable((k, v));
    let kv = raw_of((k, v));
    let u = kv.0 + seq![0x3du8] + kv.1;
    let params = w + u;
    let s = n + seq![0x3bu8] + w + encode_utf8(k) + seq![0x3du8] + encode_utf8(v);
    assert(s =~= n + (seq![0x3bu8] + params));
    // the name part
    lemma_valid_name_text_ascii(n);
    crate::text::lemma_ascii_bytes_utf8(n);
    let nl = n.len() as int;
    assert forall|j: int| 0 <= j < nl implies (not_semicolon_pred())(#[trigger] s[j]) by {
        assert(s[j] == n[j]);
    }
    assert(s[nl] == 0x3b);
    lemma_span(s, not_semicolon_pred(), nl);
    assert(s.take(nl) =~= n);
    lemma_span(n, wsp_pred(), 0);
    assert(skip_wsp(n) =~= n);
    lemma_span_back(n, wsp_pred(), 0);
    assert(trim_wsp(n) =~= n);
    assert(params_part(s) =~= params);
    // the parameters: a single part
    assert forall|j: int| 0 <= j < params.len() implies (not_semicolon_pred())(
        #[trigger] params[j],
    ) by {
        if j < w.len() {
            assert(params[j] == w[j]);
        } else {
            let x = j - w.len();
            assert(params[j] == u[x]);
            if x < kv.0.len() {
                assert(is_tag_byte(kv.0[x]));
            } else if x > kv.0.len() {
                assert(u[x] == kv.1[x - kv.0.len() - 1]);
                assert(is_value_byte(kv.1[x - kv.0.len() - 1]));
            }
        }
    }
    lemma_span(params, not_semicolon_pred(), params.len() as int);
    assert(params.take(params.len() as int) =~= params);
    lemma_trim_padded(kv, w);
    lemma_parse_one(kv, false);
    assert(seq![kv] + Seq::<RawKeyValue>::empty() =~= seq![kv]);
    assert(raw_key_values_chars(seq![kv]) =~= seq![(k, v)]);
}

} // verus!
