//! Domain names in their ASCII presentation form, as they appear in the
//! `issue` and `issuewild` property values.
use vstd::prelude::*;
use vstd::utf8::*;
use vstd::string::*;
use crate::error::CaaError;
use crate::text::{all_ascii, bytes_as_chars, is_ascii_alphanumeric, lemma_ascii_bytes_utf8};

verus! {

/// A byte that may stand in a label: letters, digits and `_` anywhere,
/// `*` only first, `-` only after the first byte.
pub open spec fn is_label_byte(b: u8, first: bool) -> bool {
    ||| is_ascii_alphanumeric(b)
    ||| b == 0x5f
    ||| (first && b == 0x2a)
    ||| (!first && b == 0x2d)
}

/// The number of bytes before position `n` that belong to the label
/// running up to `n` (the run of non-dot bytes that ends there).
pub open spec fn label_run(s: Seq<u8>, n: nat) -> nat
    decreases n,
{
    if n == 0 || n > s.len() || s[n - 1] == 0x2e {
        0
    } else {
        1 + label_run(s, (n - 1) as nat)
    }
}

/// Byte `i` of a name body: a dot closes a non-empty label; any other
/// byte is a label byte at its place, within the first 63 of its label.
pub open spec fn name_byte_ok(b: Seq<u8>, i: int) -> bool {
    if b[i] == 0x2e {
        label_run(b, i as nat) >= 1
    } else {
        &&& is_label_byte(b[i], label_run(b, i as nat) == 0)
        &&& label_run(b, i as nat) < 63
    }
}

/// A dotted sequence of labels without a final dot: 1 to 253 bytes, no
/// empty label, labels of at most 63 bytes made of label bytes.
pub open spec fn valid_name_body(b: Seq<u8>) -> bool {
    &&& 1 <= b.len() <= 253
    &&& b.last() != 0x2e
    &&& forall|i: int| 0 <= i < b.len() ==> #[trigger] name_byte_ok(b, i)
}

/// The text of a domain name: the root `.`, or a dotted sequence of labels
/// with an optional final dot (a fully qualified name).
pub open spec fn valid_name_text(t: Seq<u8>) -> bool {
    ||| t == seq![0x2eu8]
    ||| (t.len() >= 1 && t.last() == 0x2e && valid_name_body(t.drop_last()))
    ||| (t.len() >= 1 && t.last() != 0x2e && valid_name_body(t))
}

/// A domain name, held as its ASCII text.
#[derive(Debug, PartialEq, Eq)]
pub struct Name {
    ascii: Vec<u8>,
}

impl View for Name {
    type V = Seq<u8>;

    closed spec fn view(&self) -> Seq<u8> {
        self.ascii@
    }
}

impl Clone for Name {
    fn clone(&self) -> (r: Self)
        ensures
            r@ == self@,
    {
        proof {
            use_type_invariant(self);
        }
        Name { ascii: vstd::slice::slice_to_vec(self.ascii.as_slice()) }
    }
}

impl Name {
    #[verifier::type_invariant]
    closed spec fn wf(self) -> bool {
        valid_name_text(self.ascii@)
    }

    /// Parses a name from its ASCII text; a final `.` makes it fully
    /// qualified.
    pub fn from_ascii(name: &str) -> (r: Result<Name, CaaError>)
        ensures
            r is Ok <==> valid_name_text(name.spec_bytes()),
            r matches Ok(n) ==> n@ == name.spec_bytes(),
            r matches Err(e) ==> e == CaaError::InvalidName,
    {
        let bytes = name.as_bytes();
        if is_valid_name_text(bytes) {
            Ok(Name { ascii: vstd::slice::slice_to_vec(bytes) })
        } else {
            Err(CaaError::InvalidName)
        }
    }

    /// The name's text, with its final dot where it is fully qualified.
    pub fn to_ascii(&self) -> (r: String)
        ensures
            r@ == bytes_as_chars(self@),
            r@.len() == self@.len(),
            encode_utf8(r@) == self@,
    {
        proof {
            use_type_invariant(self);
            lemma_valid_name_text_ascii(self.ascii@);
            lemma_ascii_bytes_utf8(self.ascii@);
        }
        let s = crate::text::str_from_utf8(self.ascii.as_slice());
        match s {
            Some(s) => s.to_owned(),
            None => String::new(),
        }
    }

    /// Whether the name ends with the root label (its text ends with `.`).
    pub fn is_fqdn(&self) -> (r: bool)
        ensures
            r == (self@.len() >= 1 && self@.last() == 0x2e),
    {
        proof {
            use_type_invariant(self);
        }
        let n = self.ascii.len();
        n >= 1 && self.ascii[n - 1] == 0x2e
    }
}

/// A name's text is ASCII and holds no `;`.
pub proof fn lemma_valid_name_text_ascii(t: Seq<u8>)
    requires
        valid_name_text(t),
    ensures
        all_ascii(t),
        forall|i: int| 0 <= i < t.len() ==> #[trigger] t[i] != 0x3b,
        forall|i: int| 0 <= i < t.len() ==> #[trigger] t[i] != 0x20 && t[i] != 0x09,
        t.len() >= 1,
{
    if t == seq![0x2eu8] {
        assert forall|i: int| 0 <= i < t.len() implies #[trigger] t[i] < 0x80 && t[i] != 0x3b && t[i] != 0x20 && t[i] != 0x09 by {
            assert(t[i] == 0x2e);
        }
    } else {
        let b = if t.last() == 0x2e {
            t.drop_last()
        } else {
            t
        };
        assert(valid_name_body(b));
        assert forall|i: int| 0 <= i < b.len() implies #[trigger] b[i] < 0x80 && b[i] != 0x3b && b[i] != 0x20 && b[i] != 0x09 by {
            assert(name_byte_ok(b, i));
        }
        assert forall|i: int| 0 <= i < t.len() implies #[trigger] t[i] < 0x80 && t[i] != 0x3b && t[i] != 0x20 && t[i] != 0x09 by {
            if i < b.len() {
                assert(t[i] == b[i]);
            } else {
                assert(t[i] == 0x2e);
            }
        }
    }
}

/// A name's text, taken as characters and encoded again, is the same text:
/// parsing the text that `to_ascii` gives back yields the same name.
pub proof fn lemma_name_text_roundtrip(t: Seq<u8>)
    requires
        valid_name_text(t),
    ensures
        encode_utf8(bytes_as_chars(t)) == t,
        valid_name_text(encode_utf8(bytes_as_chars(t))),
{
    lemma_valid_name_text_ascii(t);
    lemma_ascii_bytes_utf8(t);
}

/// Checks the syntax of a name body (see `valid_name_body`).
fn is_valid_name_body(b: &[u8]) -> (r: bool)
    ensures
        r == valid_name_body(b@),
{
    let n = b.len();
    if n < 1 || n > 253 || b[n - 1] == 0x2e {
        return false;
    }
    let mut run: usize = 0;
    let mut i: usize = 0;
    while i < n
        invariant
            n == b@.len(),
            1 <= n <= 253,
            0 <= i <= n,
            run == label_run(b@, i as nat),
            run <= 63,
            forall|j: int| 0 <= j < i ==> #[trigger] name_byte_ok(b@, j),
        decreases n - i,
    {
        let c = b[i];
        if c == 0x2e {
            if run == 0 {
                assert(!name_byte_ok(b@, i as int));
                return false;
            }
            run = 0;
        } else {
            let first = run == 0;
            let ok = (0x30 <= c && c <= 0x39) || (0x41 <= c && c <= 0x5a) || (0x61 <= c && c
                <= 0x7a) || c == 0x5f || (first && c == 0x2a) || (!first && c == 0x2d);
            if !ok || run >= 63 {
                assert(!name_byte_ok(b@, i as int));
                return false;
            }
            run = run + 1;
        }
        proof {
            assert(name_byte_ok(b@, i as int));
            assert(label_run(b@, (i + 1) as nat) == run);
        }
        i = i + 1;
    }
    true
}

/// Checks the syntax of a name's text (see `valid_name_text`).
fn is_valid_name_text(t: &[u8]) -> (r: bool)
    ensures
        r == valid_name_text(t@),
{
    let n = t.len();
    if n == 0 {
        return false;
    }
    if n == 1 && t[0] == 0x2e {
        assert(t@ =~= seq![0x2eu8]);
        return true;
    }
    if t[n - 1] == 0x2e {
        let body = vstd::slice::slice_subrange(t, 0, n - 1);
        assert(body@ =~= t@.drop_last());
        assert(t@ != seq![0x2eu8]) by {
            if t@ == seq![0x2eu8] {
                assert(t@.len() == 1);
            }
        }
        is_valid_name_body(body)
    } else {
        assert(t@ != seq![0x2eu8]) by {
            if t@ == seq![0x2eu8] {
                assert(t@[0] == 0x2e);
            }
        }
        is_valid_name_body(t)
    }
}

/// A letter-digit-hyphen label: 1 to 63 ASCII letters, digits and `-`,
/// starting and ending with a letter or digit.
pub open spec fn ldh_label(l: Seq<u8>) -> bool {
    &&& 1 <= l.len() <= 63
    &&& is_ascii_alphanumeric(l[0])
    &&& is_ascii_alphanumeric(l.last())
    &&& forall|i: int| 0 <= i < l.len() ==> is_ascii_alphanumeric(#[trigger] l[i]) || l[i] == 0x2d
}

/// Labels joined by dots.
pub open spec fn join_labels(ls: Seq<Seq<u8>>) -> Seq<u8>
    decreases ls.len(),
{
    if ls.len() <= 1 {
        if ls.len() == 1 {
            ls[0]
        } else {
            Seq::empty()
        }
    } else {
        join_labels(ls.drop_last()) + seq![0x2eu8] + ls.last()
    }
}

/// `label_run` looks only at the bytes before its position.
proof fn lemma_label_run_prefix(s: Seq<u8>, t: Seq<u8>, n: nat)
    requires
        n <= s.len(),
        n <= t.len(),
        s.take(n as int) == t.take(n as int),
    ensures
        label_run(s, n) == label_run(t, n),
    decreases n,
{
    if n > 0 {
        assert(s[n - 1] == s.take(n as int)[n - 1]);
        assert(t[n - 1] == t.take(n as int)[n - 1]);
        assert(s.take(n - 1) =~= s.take(n as int).take(n - 1));
        assert(t.take(n - 1) =~= t.take(n as int).take(n - 1));
        lemma_label_run_prefix(s, t, (n - 1) as nat);
    }
}

/// Inside a label that starts at `start`, the run is the offset.
proof fn lemma_label_run_inside(s: Seq<u8>, start: int, j: nat)
    requires
        0 <= start,
        start + j <= s.len(),
        start == 0 || s[start - 1] == 0x2e,
        forall|x: int| start <= x < start + j ==> #[trigger] s[x] != 0x2e,
    ensures
        label_run(s, (start + j) as nat) == j,
    decreases j,
{
    if j > 0 {
        lemma_label_run_inside(s, start, (j - 1) as nat);
    }
}

/// The bytes of a label followed by its position, checked by the body
/// syntax.
proof fn lemma_label_bytes_ok(b: Seq<u8>, start: int, l: Seq<u8>)
    requires
        ldh_label(l),
        0 <= start,
        start + l.len() <= b.len(),
        start == 0 || b[start - 1] == 0x2e,
        forall|x: int| 0 <= x < l.len() ==> b[start + x] == #[trigger] l[x],
    ensures
        forall|i: int| start <= i < start + l.len() ==> #[trigger] name_byte_ok(b, i),
{
    assert forall|x: int| start <= x < start + l.len() implies #[trigger] b[x] != 0x2e by {
        assert(b[x] == l[x - start]);
        assert(is_ascii_alphanumeric(l[x - start]) || l[x - start] == 0x2d);
    }
    assert forall|i: int| start <= i < start + l.len() implies #[trigger] name_byte_ok(b, i) by {
        let j = (i - start) as nat;
        assert forall|x: int| start <= x < start + j implies #[trigger] b[x] != 0x2e by {
            assert(b[x] == l[x - start]);
            assert(is_ascii_alphanumeric(l[x - start]) || l[x - start] == 0x2d);
        }
        lemma_label_run_inside(b, start, j);
        assert(b[i] == l[i - start]);
        assert(is_ascii_alphanumeric(l[i - start]) || l[i - start] == 0x2d);
    }
}

proof fn lemma_join_body(ls: Seq<Seq<u8>>)
    requires
        ls.len() >= 1,
        forall|i: int| 0 <= i < ls.len() ==> ldh_label(#[trigger] ls[i]),
    ensures
        join_labels(ls).len() >= 1,
        join_labels(ls).last() != 0x2e,
        is_ascii_alphanumeric(join_labels(ls).last()),
        forall|i: int| 0 <= i < join_labels(ls).len() ==> #[trigger] name_byte_ok(join_labels(ls), i),
    decreases ls.len(),
{
    let b = join_labels(ls);
    let l = ls.last();
    assert(ldh_label(ls[ls.len() - 1]));
    if ls.len() == 1 {
        assert(b == l);
        lemma_label_bytes_ok(b, 0, l);
    } else {
        let init = ls.drop_last();
        assert forall|i: int| 0 <= i < init.len() implies ldh_label(#[trigger] init[i]) by {
            assert(init[i] == ls[i]);
        }
        lemma_join_body(init);
        let pre = join_labels(init);
        let start = pre.len() as int + 1;
        assert(b == pre + seq![0x2eu8] + l);
        assert(b[pre.len() as int] == 0x2e);
        assert forall|x: int| 0 <= x < l.len() implies b[start + x] == #[trigger] l[x] by {}
        lemma_label_bytes_ok(b, start, l);
        assert forall|i: int| 0 <= i <= pre.len() implies #[trigger] name_byte_ok(b, i) by {
            assert(b.take(i) =~= pre.take(i));
            lemma_label_run_prefix(b, pre, i as nat);
            if i < pre.len() {
                assert(b[i] == pre[i]);
                assert(name_byte_ok(pre, i));
            } else {
                assert(pre[pre.len() - 1] != 0x2e);
                assert(label_run(pre, pre.len()) >= 1);
            }
        }
        assert(b.last() == l.last());
    }
}

/// Names of letter-digit-hyphen labels (each 1 to 63 ASCII letters and
/// digits, with `-` inside) joined by dots, 253 bytes at most, are valid,
/// with or without a final dot.
pub proof fn lemma_ldh_names_valid(ls: Seq<Seq<u8>>)
    requires
        ls.len() >= 1,
        forall|i: int| 0 <= i < ls.len() ==> ldh_label(#[trigger] ls[i]),
        join_labels(ls).len() <= 253,
    ensures
        valid_name_text(join_labels(ls)),
        valid_name_text(join_labels(ls) + seq![0x2eu8]),
{
    lemma_join_body(ls);
    let b = join_labels(ls);
    assert(valid_name_body(b));
    let f = b + seq![0x2eu8];
    assert(f.drop_last() =~= b);
}

} // verus!
