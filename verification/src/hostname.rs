//! RFC 1035 domain names: RFC 1123 text validation, label splitting, the
//! length-prefixed wire encoding, and a decoder that also recognizes
//! compression pointers.

use crate::be_bytes::push_bytes;
use crate::error::DnsError;
use vstd::prelude::*;
use vstd::string::StringSliceAdditionalSpecFns;
use vstd::utf8::encode_utf8;

verus! {

/// A length-prefixed run of ASCII bytes, one label of a name.
#[derive(Clone, Debug, PartialEq, Eq)]
pub struct HostnameLabel {
    pub length: u8,
    pub label: Vec<u8>,
}

/// A compression pointer ending a name: `pointer` is the low 14 bits of
/// the wire word, a byte offset into the enclosing message.
#[derive(Clone, Copy, Debug, PartialEq, Eq, Structural)]
pub struct CompressedHostnameLabel {
    pub pointer: u16,
}

/// One label of a name as stored.
#[derive(Clone, Debug, PartialEq, Eq)]
pub enum Label {
    NORMAL(HostnameLabel),
    COMPRESSED(CompressedHostnameLabel),
}

/// Hostname format as specified in RFC 1035, used for the *NAME fields.
#[derive(Clone, Debug, PartialEq, Eq)]
pub struct Hostname(pub Vec<Label>);

/// Bytes consumed from a buffer together with the hostname they held.
#[derive(Debug)]
pub struct ParsedHostname {
    /// Number of buffer bytes parsed to construct the hostname.
    pub parsed_bytes: u8,
    pub hostname: Hostname,
}

/// Mathematical model of one label.
pub enum LabelV {
    Normal { length: u8, label: Seq<u8> },
    Compressed { pointer: u16 },
}

impl View for Label {
    type V = LabelV;

    open spec fn view(&self) -> LabelV {
        match self {
            Label::NORMAL(l) => LabelV::Normal { length: l.length, label: l.label@ },
            Label::COMPRESSED(c) => LabelV::Compressed { pointer: c.pointer },
        }
    }
}

impl View for Hostname {
    type V = Seq<LabelV>;

    open spec fn view(&self) -> Seq<LabelV> {
        self.0@.map_values(|l: Label| l@)
    }
}

// ---------------------------------------------------------------------------
// Wire encoding
// ---------------------------------------------------------------------------

/// The wire bytes of one label: a length prefix, or a two-byte pointer
/// whose top two bits are set.
pub open spec fn spec_label_bytes(l: LabelV) -> Seq<u8> {
    match l {
        LabelV::Normal { length, label } => seq![length] + label,
        LabelV::Compressed { pointer } => seq![
            (0xc0 + (pointer % 0x4000) / 256) as u8,
            (pointer % 256) as u8,
        ],
    }
}

/// The concatenated wire bytes of a label sequence, without a terminator.
pub open spec fn spec_labels_bytes(ls: Seq<LabelV>) -> Seq<u8>
    decreases ls.len(),
{
    if ls.len() == 0 {
        Seq::empty()
    } else {
        spec_label_bytes(ls[0]) + spec_labels_bytes(ls.skip(1))
    }
}

/// Whether an encoded name ends with a pointer instead of a zero byte.
pub open spec fn spec_ends_compressed(ls: Seq<LabelV>) -> bool {
    ls.len() > 0 && ls.last() is Compressed
}

/// The wire form of a name: its labels, then a zero terminator unless the
/// final label is a compression pointer.
pub open spec fn spec_name_bytes(ls: Seq<LabelV>) -> Seq<u8> {
    if spec_ends_compressed(ls) {
        spec_labels_bytes(ls)
    } else {
        spec_labels_bytes(ls) + seq![0u8]
    }
}

/// Appending a label appends its bytes.
pub proof fn lemma_labels_bytes_push(ls: Seq<LabelV>, l: LabelV)
    ensures
        spec_labels_bytes(ls.push(l)) == spec_labels_bytes(ls) + spec_label_bytes(l),
    decreases ls.len(),
{
    if ls.len() == 0 {
        assert(ls.push(l)[0] == l);
        assert(ls.push(l).skip(1) =~= Seq::<LabelV>::empty());
        assert(spec_labels_bytes(ls.push(l)) == spec_label_bytes(l) + spec_labels_bytes(
            Seq::<LabelV>::empty(),
        ));
        assert(spec_labels_bytes(Seq::<LabelV>::empty()) == Seq::<u8>::empty());
        assert(spec_labels_bytes(ls.push(l)) =~= spec_labels_bytes(ls) + spec_label_bytes(l));
    } else {
        lemma_labels_bytes_push(ls.skip(1), l);
        assert(ls.push(l).skip(1) =~= ls.skip(1).push(l));
        assert(ls.push(l)[0] == ls[0]);
        assert(spec_labels_bytes(ls.push(l)) == spec_label_bytes(ls[0]) + spec_labels_bytes(
            ls.skip(1).push(l),
        ));
        assert(spec_labels_bytes(ls.push(l)) =~= spec_labels_bytes(ls) + spec_label_bytes(l));
    }
}

impl HostnameLabel {
    /// The length prefix followed by the label bytes.
    pub fn to_bytes(&self) -> (r: Vec<u8>)
        ensures
            r@ == spec_label_bytes(
                LabelV::Normal { length: self.length, label: self.label@ },
            ),
    {
        let mut bytes: Vec<u8> = Vec::new();
        bytes.push(self.length);
        push_bytes(&mut bytes, self.label.as_slice());
        proof {
            assert(bytes@ =~= seq![self.length] + self.label@);
        }
        bytes
    }
}

impl CompressedHostnameLabel {
    /// The two pointer bytes, with the top two bits set.
    pub fn to_bytes(&self) -> (r: Vec<u8>)
        ensures
            r@ == spec_label_bytes(LabelV::Compressed { pointer: self.pointer }),
    {
        let mut bytes: Vec<u8> = Vec::new();
        bytes.push((0xc0 + (self.pointer % 0x4000) / 256) as u8);
        bytes.push((self.pointer % 256) as u8);
        proof {
            assert(bytes@ =~= spec_label_bytes(LabelV::Compressed { pointer: self.pointer }));
        }
        bytes
    }
}

impl Label {
    /// The wire bytes of this label.
    pub fn to_bytes(&self) -> (r: Vec<u8>)
        ensures
            r@ == spec_label_bytes(self@),
    {
        match self {
            Label::NORMAL(label) => label.to_bytes(),
            Label::COMPRESSED(label) => label.to_bytes(),
        }
    }
}

// ---------------------------------------------------------------------------
// Text validation and splitting
// ---------------------------------------------------------------------------

/// ASCII digit or letter.
pub open spec fn spec_is_alnum(b: u8) -> bool {
    (0x30 <= b <= 0x39) || (0x41 <= b <= 0x5a) || (0x61 <= b <= 0x7a)
}

/// A byte RFC 1123 allows inside a hostname.
pub open spec fn spec_hostname_byte(b: u8) -> bool {
    spec_is_alnum(b) || b == 0x2d || b == 0x2e
}

/// RFC 1123 shape: under 256 bytes, first and last byte alphanumeric,
/// every byte alphanumeric, `-` or `.`.
pub open spec fn spec_valid_hostname(s: Seq<u8>) -> bool {
    &&& 0 < s.len() < 256
    &&& spec_is_alnum(s[0])
    &&& spec_is_alnum(s.last())
    &&& forall|i: int| 0 <= i < s.len() ==> spec_hostname_byte(#[trigger] s[i])
}

/// Relies on `String::from_utf8`: ASCII bytes decode to a string of one
/// character per byte, whose UTF-8 form is the input again.
#[verifier::external_body]
pub(crate) fn string_from_ascii(bytes: Vec<u8>) -> (r: String)
    requires
        forall|i: int| 0 <= i < bytes@.len() ==> bytes@[i] < 0x80,
    ensures
        encode_utf8(r@) == bytes@,
        r@.len() == bytes@.len(),
{
    String::from_utf8(bytes).unwrap_or_default()
}

/// Validation rejects exactly the RFC 1123 violations: the empty string,
/// strings of 256 bytes or more, strings whose first or last byte is not
/// alphanumeric, and strings holding a byte outside letters, digits,
/// `-` and `.`.
pub proof fn lemma_hostname_validation_rejects(s: Seq<u8>)
    ensures
        s.len() == 0 ==> !spec_valid_hostname(s),
        s.len() >= 256 ==> !spec_valid_hostname(s),
        s.len() > 0 && (!spec_is_alnum(s[0]) || !spec_is_alnum(s.last())) ==> !spec_valid_hostname(
            s,
        ),
        (exists|i: int| 0 <= i < s.len() && !spec_hostname_byte(#[trigger] s[i]))
            ==> !spec_valid_hostname(s),
{
}

/// The domain a hostname belongs to: everything after its first dot, or
/// nothing when it has none.
pub open spec fn spec_parent_domain(s: Seq<u8>) -> Seq<u8> {
    let i = spec_first_dot(s);
    if i < 0 {
        Seq::empty()
    } else {
        s.skip(i + 1)
    }
}

/// Drops the first label from a hostname: the text after its first dot,
/// or the empty string when it has none.  Only ASCII text has a parent;
/// other text is rejected as it would be by name validation.
#[verifier::loop_isolation(false)]
pub fn parent_domain(hostname: &str) -> (r: Result<String, DnsError>)
    ensures
        match r {
            Ok(p) => encode_utf8(p@) == spec_parent_domain(hostname.spec_bytes()),
            Err(e) => e == DnsError::NonAsciiLabel && exists|i: int|
                0 <= i < hostname.spec_bytes().len() && hostname.spec_bytes()[i] >= 0x80,
        },
{
    let bytes = hostname.as_bytes();
    let ghost s = bytes@;
    let mut i: usize = 0;
    while i < bytes.len()
        invariant
            i <= s.len(),
            forall|j: int| 0 <= j < i ==> s[j] < 0x80,
        decreases s.len() - i,
    {
        if bytes[i] >= 0x80 {
            return Err(DnsError::NonAsciiLabel);
        }
        i = i + 1;
    }
    let mut d: usize = 0;
    while d < bytes.len()
        invariant
            d <= s.len(),
            forall|j: int| 0 <= j < d ==> s[j] != 0x2e,
        decreases s.len() - d,
    {
        if bytes[d] == 0x2e {
            proof {
                lemma_first_dot(s);
                let fd = spec_first_dot(s);
                if fd < 0 {
                    assert(s[d as int] != 0x2e);
                } else if fd < d {
                    assert(s[fd] != 0x2e);
                } else if fd > d {
                    assert(s[d as int] != 0x2e);
                }
                assert(fd == d);
            }
            let rest = vstd::slice::slice_to_vec(
                vstd::slice::slice_subrange(bytes, d + 1, bytes.len()),
            );
            return Ok(string_from_ascii(rest));
        }
        d = d + 1;
    }
    proof {
        lemma_first_dot(s);
        let fd = spec_first_dot(s);
        if fd >= 0 {
            assert(s[fd] != 0x2e);
        }
    }
    Ok(string_from_ascii(Vec::new()))
}

/// Index of the first `.` in `s`, or `-1` if there is none.
pub open spec fn spec_first_dot(s: Seq<u8>) -> int
    decreases s.len(),
{
    if s.len() == 0 {
        -1
    } else if s[0] == 0x2e {
        0
    } else {
        let r = spec_first_dot(s.skip(1));
        if r < 0 {
            -1
        } else {
            r + 1
        }
    }
}

/// `spec_first_dot` points at the first dot when one exists.
pub proof fn lemma_first_dot(s: Seq<u8>)
    ensures
        spec_first_dot(s) < 0 ==> forall|i: int| 0 <= i < s.len() ==> s[i] != 0x2e,
        spec_first_dot(s) >= 0 ==> 0 <= spec_first_dot(s) < s.len() && s[spec_first_dot(s)]
            == 0x2e && forall|i: int| 0 <= i < spec_first_dot(s) ==> s[i] != 0x2e,
    decreases s.len(),
{
    if s.len() == 0 {
    } else if s[0] == 0x2e {
    } else {
        lemma_first_dot(s.skip(1));
        let r = spec_first_dot(s.skip(1));
        if r < 0 {
            assert forall|i: int| 0 <= i < s.len() implies s[i] != 0x2e by {
                if i > 0 {
                    assert(s[i] == s.skip(1)[i - 1]);
                }
            }
        } else {
            assert(s[r + 1] == s.skip(1)[r]);
            assert forall|i: int| 0 <= i < r + 1 implies s[i] != 0x2e by {
                if i > 0 {
                    assert(s[i] == s.skip(1)[i - 1]);
                }
            }
        }
    }
}

/// The maximal dot-free runs of `s`, in order.
pub open spec fn spec_split(s: Seq<u8>) -> Seq<Seq<u8>>
    decreases s.len(),
{
    let i = spec_first_dot(s);
    if 0 <= i < s.len() {
        seq![s.take(i)] + spec_split(s.skip(i + 1))
    } else {
        seq![s]
    }
}

/// The runs joined back with `.` separators.
pub open spec fn spec_join(parts: Seq<Seq<u8>>) -> Seq<u8>
    decreases parts.len(),
{
    if parts.len() == 0 {
        Seq::empty()
    } else if parts.len() == 1 {
        parts[0]
    } else {
        parts[0] + seq![0x2eu8] + spec_join(parts.skip(1))
    }
}

/// The labels a hostname string is read into: its dot-free runs, each as
/// a normal label with its length prefix.
pub open spec fn spec_split_name(s: Seq<u8>) -> Seq<LabelV> {
    spec_split(s).map_values(|l: Seq<u8>| LabelV::Normal { length: l.len() as u8, label: l })
}

/// Every dot-separated run of the text holds 1 to 63 bytes, the label
/// limits of RFC 1035.
pub open spec fn spec_valid_labels(s: Seq<u8>) -> bool {
    forall|k: int|
        0 <= k < spec_split(s).len() ==> 1 <= (#[trigger] spec_split(s)[k]).len() <= 63
}

/// A hostname the library reads into labels: the RFC 1123 shape, with
/// every label within the RFC 1035 length limits.
pub open spec fn spec_accepted_hostname(s: Seq<u8>) -> bool {
    spec_valid_hostname(s) && spec_valid_labels(s)
}

/// Splitting never yields an empty sequence, its runs are dot-free, and
/// joining them restores the input.
pub proof fn lemma_split_props(s: Seq<u8>)
    ensures
        spec_split(s).len() >= 1,
        spec_join(spec_split(s)) == s,
        forall|k: int, j: int|
            0 <= k < spec_split(s).len() && 0 <= j < spec_split(s)[k].len()
                ==> #[trigger] spec_split(s)[k][j] != 0x2e,
    decreases s.len(),
{
    lemma_first_dot(s);
    let i = spec_first_dot(s);
    if 0 <= i < s.len() {
        lemma_split_props(s.skip(i + 1));
        let head = s.take(i);
        let rest = spec_split(s.skip(i + 1));
        let parts = seq![head] + rest;
        assert(parts[0] == head);
        assert(parts.skip(1) =~= rest);
        assert(parts.len() >= 2);
        assert(spec_join(parts) == head + seq![0x2eu8] + spec_join(rest));
        assert(spec_join(parts) =~= s);
        assert forall|k: int, j: int|
            0 <= k < parts.len() && 0 <= j < parts[k].len() implies #[trigger] parts[k][j]
            != 0x2e by {
            if k == 0 {
                assert(parts[0][j] == s[j]);
            } else {
                assert(parts[k] == rest[k - 1]);
            }
        }
    } else {
        assert(spec_split(s) =~= seq![s]);
    }
}

/// A dot-free decomposition that joins to `s` is the split of `s`.
pub proof fn lemma_split_unique(parts: Seq<Seq<u8>>, s: Seq<u8>)
    requires
        parts.len() >= 1,
        spec_join(parts) == s,
        forall|k: int, j: int|
            0 <= k < parts.len() && 0 <= j < parts[k].len() ==> #[trigger] parts[k][j] != 0x2e,
    ensures
        spec_split(s) == parts,
    decreases parts.len(),
{
    lemma_first_dot(s);
    if parts.len() == 1 {
        assert(s == parts[0]);
        assert(forall|j: int| 0 <= j < s.len() ==> s[j] != 0x2e);
        assert(spec_first_dot(s) < 0) by {
            if spec_first_dot(s) >= 0 {
                assert(s[spec_first_dot(s)] == 0x2e);
            }
        }
        assert(spec_split(s) =~= seq![s]);
        assert(seq![s] =~= parts);
    } else {
        let head = parts[0];
        let rest = parts.skip(1);
        let tail = spec_join(rest);
        assert(s == head + seq![0x2eu8] + tail);
        let d = head.len() as int;
        assert(s[d] == 0x2e);
        assert(forall|j: int| 0 <= j < d ==> s[j] == head[j] && #[trigger] s[j] != 0x2e);
        assert(spec_first_dot(s) == d) by {
            let i = spec_first_dot(s);
            if i < 0 {
                assert(s[d] != 0x2e);
            } else if i < d {
                assert(s[i] != 0x2e);
            } else if i > d {
                assert(s[d] != 0x2e);
            }
        }
        assert(s.take(d) =~= head);
        assert(s.skip(d + 1) =~= tail);
        assert forall|k: int, j: int|
            0 <= k < rest.len() && 0 <= j < rest[k].len() implies #[trigger] rest[k][j] != 0x2e by {
            assert(rest[k] == parts[k + 1]);
        }
        lemma_split_unique(rest, tail);
        assert(spec_split(s) =~= seq![head] + rest);
        assert(seq![head] + rest =~= parts);
    }
}

/// Every byte of every run of a split is a byte that occurs in `s`.
pub proof fn lemma_split_bytes(s: Seq<u8>)
    ensures
        forall|k: int, j: int|
            0 <= k < spec_split(s).len() && 0 <= j < spec_split(s)[k].len()
                ==> exists|i: int| 0 <= i < s.len() && s[i] == #[trigger] spec_split(s)[k][j],
    decreases s.len(),
{
    lemma_first_dot(s);
    let i = spec_first_dot(s);
    if 0 <= i < s.len() {
        lemma_split_bytes(s.skip(i + 1));
        let parts = spec_split(s);
        let rest = spec_split(s.skip(i + 1));
        assert(parts =~= seq![s.take(i)] + rest);
        assert forall|k: int, j: int|
            0 <= k < parts.len() && 0 <= j < parts[k].len() implies exists|x: int|
            0 <= x < s.len() && s[x] == #[trigger] parts[k][j] by {
            if k == 0 {
                assert(s[j] == parts[0][j]);
            } else {
                assert(parts[k] == rest[k - 1]);
                let x = choose|x: int|
                    0 <= x < s.skip(i + 1).len() && (#[trigger] s.skip(i + 1)[x]) == rest[k - 1][j];
                assert(s[i + 1 + x] == s.skip(i + 1)[x]);
            }
        }
    } else {
        assert(spec_split(s) =~= seq![s]);
    }
}

/// Exact RFC 1123 validation of a hostname string, over its UTF-8 bytes.
pub fn valid_hostname(hostname: &str) -> (r: bool)
    ensures
        r == spec_valid_hostname(hostname.spec_bytes()),
{
    let bytes = hostname.as_bytes();
    if bytes.len() == 0 || bytes.len() >= 256 {
        return false;
    }
    if !is_alnum_byte(bytes[0]) || !is_alnum_byte(bytes[bytes.len() - 1]) {
        return false;
    }
    let mut i: usize = 0;
    while i < bytes.len()
        invariant
            i <= bytes@.len(),
            bytes@ == hostname.spec_bytes(),
            forall|j: int| 0 <= j < i ==> spec_hostname_byte(#[trigger] bytes@[j]),
        decreases bytes@.len() - i,
    {
        let b = bytes[i];
        if !(is_alnum_byte(b) || b == 0x2d || b == 0x2e) {
            return false;
        }
        i = i + 1;
    }
    true
}

/// ASCII digit or letter.
fn is_alnum_byte(b: u8) -> (r: bool)
    ensures
        r == spec_is_alnum(b),
{
    (0x30 <= b && b <= 0x39) || (0x41 <= b && b <= 0x5a) || (0x61 <= b && b <= 0x7a)
}

// ---------------------------------------------------------------------------
// Wire decoding
// ---------------------------------------------------------------------------

/// Decoding a name from the front of `b`: labels until a zero byte or a
/// compression pointer, together with the number of bytes consumed.
///
/// Errors: the buffer runs out, a length byte uses the reserved upper-bit
/// patterns, or a label byte is not ASCII.
pub open spec fn spec_parse_name(b: Seq<u8>) -> Result<(Seq<LabelV>, int), DnsError>
    decreases b.len(),
{
    if b.len() < 1 {
        Err(DnsError::BufferTooShort)
    } else if b[0] >= 0xc0 {
        if b.len() < 2 {
            Err(DnsError::BufferTooShort)
        } else {
            Ok(
                (
                    seq![
                        LabelV::Compressed {
                            pointer: ((b[0] - 0xc0) * 256 + b[1]) as u16,
                        },
                    ],
                    2,
                ),
            )
        }
    } else if b[0] == 0 {
        Ok((seq![], 1))
    } else if b[0] > 63 {
        Err(DnsError::ReservedLabelBits)
    } else if b.len() < 1 + b[0] {
        Err(DnsError::BufferTooShort)
    } else if exists|x: int| 1 <= x <= b[0] && (#[trigger] b[x]) >= 0x80 {
        Err(DnsError::NonAsciiLabel)
    } else {
        match spec_parse_name(b.skip(1 + b[0])) {
            Err(e) => Err(e),
            Ok((ls, n)) => Ok(
                (
                    seq![
                        LabelV::Normal { length: b[0], label: b.subrange(1, 1 + b[0]) },
                    ] + ls,
                    1 + b[0] + n,
                ),
            ),
        }
    }
}

/// Decoding with the 8-bit consumption counter: a name whose encoding is
/// longer than 255 bytes is rejected.
pub open spec fn spec_parse_hostname(b: Seq<u8>) -> Result<(Seq<LabelV>, int), DnsError> {
    match spec_parse_name(b) {
        Ok((ls, n)) => if n <= 255 {
            Ok((ls, n))
        } else {
            Err(DnsError::ParsedBytesOverflow)
        },
        Err(e) => Err(e),
    }
}

/// A successful decode consumes between 1 byte and the whole buffer.
pub proof fn lemma_parse_name_consumed(b: Seq<u8>)
    ensures
        spec_parse_name(b) matches Ok((ls, n)) ==> 1 <= n <= b.len(),
    decreases b.len(),
{
    if b.len() >= 1 && b[0] < 0xc0 && b[0] != 0 && b[0] <= 63 && b.len() >= 1 + b[0] {
        lemma_parse_name_consumed(b.skip(1 + b[0]));
    }
}

/// Appending bytes after a decodable name does not change its decoding.
pub proof fn lemma_parse_name_extend(b: Seq<u8>, ext: Seq<u8>)
    requires
        spec_parse_name(b) is Ok,
    ensures
        spec_parse_name(b + ext) == spec_parse_name(b),
    decreases b.len(),
{
    let c = b + ext;
    assert(b.len() >= 1);
    assert(c[0] == b[0]);
    if b[0] >= 0xc0 {
        assert(b.len() >= 2);
        assert(c[1] == b[1]);
    } else if b[0] == 0 {
    } else {
        let l = b[0] as int;
        assert(b.len() >= 1 + l);
        assert(forall|x: int| 1 <= x <= l ==> #[trigger] c[x] == b[x]);
        assert(!(exists|x: int| 1 <= x <= l && (#[trigger] b[x]) >= 0x80));
        assert forall|x: int| 1 <= x <= l implies !((#[trigger] c[x]) >= 0x80) by {
            assert(c[x] == b[x]);
        }
        assert(spec_parse_name(b.skip(1 + l)) is Ok);
        assert(c.skip(1 + l) =~= b.skip(1 + l) + ext);
        lemma_parse_name_extend(b.skip(1 + l), ext);
        assert(c.subrange(1, 1 + l) =~= b.subrange(1, 1 + l));
    }
}

/// A name that begins with a normal label encodes to that label's bytes
/// followed by the encoding of the remaining labels.
pub proof fn lemma_name_bytes_cons(ls: Seq<LabelV>)
    requires
        ls.len() >= 1,
        ls[0] is Normal,
    ensures
        spec_name_bytes(ls) == spec_label_bytes(ls[0]) + spec_name_bytes(ls.skip(1)),
{
    if ls.len() == 1 {
        assert(ls.skip(1) =~= Seq::<LabelV>::empty());
        assert(!spec_ends_compressed(ls));
        assert(spec_labels_bytes(ls.skip(1)) == Seq::<u8>::empty());
        assert(spec_name_bytes(ls) =~= spec_label_bytes(ls[0]) + spec_name_bytes(ls.skip(1)));
    } else {
        assert(ls.last() == ls.skip(1).last());
        assert(spec_ends_compressed(ls) == spec_ends_compressed(ls.skip(1)));
        assert(spec_name_bytes(ls) =~= spec_label_bytes(ls[0]) + spec_name_bytes(ls.skip(1)));
    }
}

/// A well-formed normal label: length prefix matching the byte count,
/// 1 to 63 ASCII bytes.
pub open spec fn wf_normal_label(l: LabelV) -> bool {
    match l {
        LabelV::Normal { length, label } => length as int == label.len() && 1 <= label.len() <= 63
            && forall|j: int| 0 <= j < label.len() ==> (#[trigger] label[j]) < 0x80,
        LabelV::Compressed { .. } => false,
    }
}

/// The final label of a name may instead be a 14-bit pointer.
pub open spec fn wf_last_label(l: LabelV) -> bool {
    wf_normal_label(l) || (l matches LabelV::Compressed { pointer } && pointer < 0x4000)
}

/// A label sequence whose encoding decodes back to itself: every label
/// but the last is a well-formed normal label; the last may be a pointer.
pub open spec fn wf_name(ls: Seq<LabelV>) -> bool {
    &&& forall|i: int| 0 <= i < ls.len() - 1 ==> wf_normal_label(#[trigger] ls[i])
    &&& ls.len() > 0 ==> wf_last_label(ls.last())
}

/// Round trip at the label level: a well-formed name decodes from its own
/// encoding, consuming exactly that encoding.
pub proof fn lemma_name_round_trip(ls: Seq<LabelV>)
    requires
        wf_name(ls),
    ensures
        spec_parse_name(spec_name_bytes(ls)) == Ok::<(Seq<LabelV>, int), DnsError>(
            (ls, spec_name_bytes(ls).len() as int),
        ),
    decreases ls.len(),
{
    let b = spec_name_bytes(ls);
    if ls.len() == 0 {
        assert(b =~= seq![0u8]);
        assert(spec_parse_name(b) == Ok::<(Seq<LabelV>, int), DnsError>((Seq::empty(), 1)));
        assert(ls =~= Seq::<LabelV>::empty());
    } else if ls[0] is Compressed {
        assert(ls.len() == 1) by {
            if ls.len() >= 2 {
                assert(wf_normal_label(ls[0]));
            }
        }
        let p = ls[0]->Compressed_pointer;
        assert(wf_last_label(ls[0]));
        assert(p < 0x4000);
        vstd::arithmetic::div_mod::lemma_small_mod(p as nat, 0x4000);
        assert(p % 0x4000 == p);
        assert(p / 256 < 64) by {
            vstd::arithmetic::div_mod::lemma_div_is_ordered(p as int, 0x3fff, 256);
            assert(0x3fffint / 256 == 63) by (nonlinear_arith);
        }
        let hi = (0xc0 + p / 256) as u8;
        let lo = (p % 256) as u8;
        assert(spec_labels_bytes(ls.skip(1)) == Seq::<u8>::empty()) by {
            assert(ls.skip(1) =~= Seq::<LabelV>::empty());
        }
        assert(b =~= seq![hi, lo]);
        assert(hi >= 0xc0);
        assert((hi - 0xc0) * 256 + lo == p) by {
            vstd::arithmetic::div_mod::lemma_fundamental_div_mod(p as int, 256);
        }
        assert(spec_parse_name(b) == Ok::<(Seq<LabelV>, int), DnsError>(
            (seq![LabelV::Compressed { pointer: p }], 2),
        ));
        assert(seq![LabelV::Compressed { pointer: p }] =~= ls);
    } else {
        assert(wf_normal_label(ls[0])) by {
            if ls.len() == 1 {
                assert(wf_last_label(ls[0]));
            }
        }
        let length = ls[0]->Normal_length;
        let lab = ls[0]->Normal_label;
        let l = length as int;
        lemma_name_bytes_cons(ls);
        let rest = spec_name_bytes(ls.skip(1));
        assert(b == (seq![length] + lab) + rest);
        assert(wf_name(ls.skip(1))) by {
            assert(forall|i: int|
                0 <= i < ls.skip(1).len() - 1 ==> #[trigger] ls.skip(1)[i] == ls[i + 1]);
            if ls.len() >= 2 {
                assert(ls.skip(1).last() == ls.last());
            }
        }
        lemma_name_round_trip(ls.skip(1));
        lemma_parse_name_consumed(rest);
        assert(rest.len() >= 1);
        assert(b.len() == 1 + l + rest.len());
        assert(b[0] == length);
        assert(0 < length <= 63);
        assert(forall|x: int| 1 <= x <= l ==> #[trigger] b[x] == lab[x - 1]);
        assert forall|x: int| 1 <= x <= l implies !((#[trigger] b[x]) >= 0x80) by {
            assert(b[x] == lab[x - 1]);
            assert(lab[x - 1] < 0x80);
        }
        assert(b.skip(1 + l) =~= rest);
        assert(b.subrange(1, 1 + l) =~= lab);
        assert(spec_parse_name(b.skip(1 + l)) == Ok::<(Seq<LabelV>, int), DnsError>(
            (ls.skip(1), rest.len() as int),
        ));
        assert(seq![LabelV::Normal { length, label: lab }] + ls.skip(1) =~= ls);
        assert(spec_parse_name(b) == Ok::<(Seq<LabelV>, int), DnsError>(
            (ls, b.len() as int),
        ));
    }
}

/// The encoding of the labels of an all-normal split is one byte longer
/// than the joined text.
pub proof fn lemma_split_labels_bytes_len(parts: Seq<Seq<u8>>)
    requires
        parts.len() >= 1,
    ensures
        spec_labels_bytes(
            parts.map_values(|l: Seq<u8>| LabelV::Normal { length: l.len() as u8, label: l }),
        ).len() == spec_join(parts).len() + 1,
    decreases parts.len(),
{
    let m = parts.map_values(|l: Seq<u8>| LabelV::Normal { length: l.len() as u8, label: l });
    if parts.len() == 1 {
        assert(m.skip(1) =~= Seq::<LabelV>::empty());
        assert(spec_labels_bytes(m.skip(1)) == Seq::<u8>::empty());
        assert(spec_labels_bytes(m).len() == 1 + parts[0].len());
    } else {
        lemma_split_labels_bytes_len(parts.skip(1));
        assert(m.skip(1) =~= parts.skip(1).map_values(
            |l: Seq<u8>| LabelV::Normal { length: l.len() as u8, label: l },
        ));
        assert(spec_labels_bytes(m).len() == 1 + parts[0].len() + spec_labels_bytes(
            m.skip(1),
        ).len());
        assert(spec_join(parts).len() == parts[0].len() + 1 + spec_join(parts.skip(1)).len());
    }
}

/// The text of a label; empty for a pointer.
pub open spec fn spec_label_text(l: LabelV) -> Seq<u8> {
    match l {
        LabelV::Normal { label, .. } => label,
        LabelV::Compressed { .. } => Seq::empty(),
    }
}

/// Appending one more run to a join appends a dot and then the run.
pub proof fn lemma_join_push(parts: Seq<Seq<u8>>, x: Seq<u8>)
    ensures
        parts.len() == 0 ==> spec_join(parts.push(x)) == x,
        parts.len() >= 1 ==> spec_join(parts.push(x)) == spec_join(parts) + seq![0x2eu8] + x,
    decreases parts.len(),
{
    if parts.len() == 0 {
        assert(parts.push(x)[0] == x);
    } else if parts.len() == 1 {
        assert(parts.push(x)[0] == parts[0]);
        assert(parts.push(x).skip(1) =~= seq![x]);
        assert(spec_join(seq![x]) == x);
    } else {
        lemma_join_push(parts.skip(1), x);
        assert(parts.push(x).skip(1) =~= parts.skip(1).push(x));
        assert(parts.push(x)[0] == parts[0]);
        assert(spec_join(parts.push(x)) =~= spec_join(parts) + seq![0x2eu8] + x);
    }
}

impl Hostname {
    /// Reads a hostname from text: after RFC 1123 validation the labels
    /// are the dot-separated runs of the string, each with its length,
    /// and each must hold 1 to 63 bytes.
    pub fn from_string(hostname: &str) -> (r: Result<Hostname, DnsError>)
        ensures
            match r {
                Ok(h) => spec_accepted_hostname(hostname.spec_bytes()) && h@ == spec_split_name(
                    hostname.spec_bytes(),
                ),
                Err(e) => e == DnsError::InvalidHostname && !spec_accepted_hostname(
                    hostname.spec_bytes(),
                ),
            },
    {
        if !valid_hostname(hostname) {
            return Err(DnsError::InvalidHostname);
        }
        let bytes = hostname.as_bytes();
        let ghost s = bytes@;
        let mut labels: Vec<Label> = Vec::new();
        let mut start: usize = 0;
        let mut i: usize = 0;
        proof {
            assert(s.subrange(0, 0) =~= Seq::<u8>::empty());
            lemma_join_push(Seq::<Seq<u8>>::empty(), Seq::<u8>::empty());
            assert(labels@.map_values(|l: Label| spec_label_text(l@)) =~= Seq::<Seq<u8>>::empty());
            assert(s.take(0) =~= Seq::<u8>::empty());
        }
        while i < bytes.len()
            invariant
                bytes@ == s,
                s == hostname.spec_bytes(),
                s.len() < 256,
                start <= i <= s.len(),
                forall|k: int|
                    0 <= k < labels@.len() ==> (#[trigger] labels@[k]@) is Normal
                        && labels@[k]@->Normal_length as int == labels@[k]@->Normal_label.len(),
                forall|k: int, j: int|
                    0 <= k < labels@.len() && 0 <= j < spec_label_text(labels@[k]@).len()
                        ==> (#[trigger] spec_label_text(labels@[k]@)[j]) != 0x2e,
                forall|j: int| start <= j < i ==> s[j] != 0x2e,
                spec_join(
                    labels@.map_values(|l: Label| spec_label_text(l@)).push(
                        s.subrange(start as int, i as int),
                    ),
                ) == s.take(i as int),
            decreases s.len() - i,
        {
            let ghost p = labels@.map_values(|l: Label| spec_label_text(l@));
            let ghost cur = s.subrange(start as int, i as int);
            if bytes[i] == 0x2e {
                let seg = vstd::slice::slice_to_vec(
                    vstd::slice::slice_subrange(bytes, start, i),
                );
                let seg_len = seg.len();
                labels.push(Label::NORMAL(HostnameLabel { length: seg_len as u8, label: seg }));
                proof {
                    let p2 = labels@.map_values(|l: Label| spec_label_text(l@));
                    assert(p2 =~= p.push(cur));
                    lemma_join_push(p2, Seq::<u8>::empty());
                    assert(spec_join(p2) == s.take(i as int));
                    assert(s.take(i + 1) =~= s.take(i as int) + seq![0x2eu8]);
                    assert(spec_join(p2.push(Seq::<u8>::empty())) =~= s.take(i + 1));
                    assert(s.subrange(i + 1, i + 1) =~= Seq::<u8>::empty());
                }
                start = i + 1;
            } else {
                proof {
                    let cur2 = s.subrange(start as int, i + 1);
                    assert(cur2 =~= cur + seq![s[i as int]]);
                    lemma_join_push(p, cur);
                    lemma_join_push(p, cur2);
                    assert(s.take(i + 1) =~= s.take(i as int) + seq![s[i as int]]);
                    if p.len() == 0 {
                        assert(spec_join(p.push(cur2)) =~= s.take(i + 1));
                    } else {
                        assert(spec_join(p.push(cur2)) =~= s.take(i + 1));
                    }
                }
            }
            i = i + 1;
        }
        let seg = vstd::slice::slice_to_vec(
            vstd::slice::slice_subrange(bytes, start, bytes.len()),
        );
        let seg_len = seg.len();
        let ghost p = labels@.map_values(|l: Label| spec_label_text(l@));
        let ghost cur = s.subrange(start as int, s.len() as int);
        labels.push(Label::NORMAL(HostnameLabel { length: seg_len as u8, label: seg }));
        let h = Hostname(labels);
        proof {
            let p2 = h.0@.map_values(|l: Label| spec_label_text(l@));
            assert(p2 =~= p.push(cur));
            assert(s.take(s.len() as int) =~= s);
            assert(spec_join(p2) == s);
            lemma_split_unique(p2, s);
            assert(h@ =~= spec_split_name(s)) by {
                assert(spec_split_name(s).len() == spec_split(s).len());
                assert(h@.len() == p2.len());
                assert forall|k: int| 0 <= k < h@.len() implies h@[k] == spec_split_name(s)[k] by {
                    let lv = h.0@[k]@;
                    assert(spec_label_text(lv) == p2[k]);
                    assert(lv is Normal);
                    assert(lv->Normal_length as int == lv->Normal_label.len());
                }
            }
        }
        let mut k: usize = 0;
        while k < h.0.len()
            invariant
                k <= h.0@.len(),
                s == hostname.spec_bytes(),
                h@ == spec_split_name(s),
                h@.len() == h.0@.len(),
                spec_split(s).len() == h@.len(),
                forall|j: int| 0 <= j < k ==> 1 <= (#[trigger] spec_split(s)[j]).len() <= 63,
            decreases h.0@.len() - k,
        {
            match &h.0[k] {
                Label::NORMAL(l) => {
                    if l.label.len() < 1 || l.label.len() > 63 {
                        proof {
                            assert(h@[k as int] == h.0@[k as int]@);
                            assert(h@[k as int] == spec_split_name(s)[k as int]);
                            assert(l.label@ == spec_split(s)[k as int]);
                            assert(!(1 <= spec_split(s)[k as int].len() <= 63));
                        }
                        return Err(DnsError::InvalidHostname);
                    }
                    proof {
                        assert(h@[k as int] == h.0@[k as int]@);
                        assert(h@[k as int] == spec_split_name(s)[k as int]);
                        assert(l.label@ == spec_split(s)[k as int]);
                    }
                },
                Label::COMPRESSED(_) => {
                    proof {
                        assert(h@[k as int] == h.0@[k as int]@);
                        assert(h@[k as int] == spec_split_name(s)[k as int]);
                        assert(h@[k as int] is Normal);
                        assert(false);
                    }
                    return Err(DnsError::InvalidHostname);
                },
            }
            k = k + 1;
        }
        proof {
            assert(spec_valid_labels(s));
        }
        Ok(h)
    }

    /// The wire bytes of the name: every label, then a zero terminator
    /// unless the final label is a compression pointer.
    pub fn to_bytes(&self) -> (r: Vec<u8>)
        ensures
            r@ == spec_name_bytes(self@),
    {
        let mut bytes: Vec<u8> = Vec::new();
        let mut i: usize = 0;
        proof {
            assert(self@.take(0) =~= Seq::<LabelV>::empty());
        }
        while i < self.0.len()
            invariant
                i <= self.0@.len(),
                self@.len() == self.0@.len(),
                bytes@ == spec_labels_bytes(self@.take(i as int)),
            decreases self.0@.len() - i,
        {
            let lb = self.0[i].to_bytes();
            push_bytes(&mut bytes, lb.as_slice());
            proof {
                lemma_labels_bytes_push(self@.take(i as int), self@[i as int]);
                assert(self@.take(i + 1) =~= self@.take(i as int).push(self@[i as int]));
            }
            i = i + 1;
        }
        proof {
            assert(self@.take(self.0@.len() as int) =~= self@);
        }
        let n = self.0.len();
        let compressed_end = if n == 0 {
            false
        } else {
            match &self.0[n - 1] {
                Label::COMPRESSED(_) => true,
                Label::NORMAL(_) => false,
            }
        };
        if !compressed_end {
            bytes.push(0);
        }
        proof {
            if compressed_end {
                assert(spec_ends_compressed(self@));
            } else {
                assert(!spec_ends_compressed(self@));
                assert(bytes@ =~= spec_labels_bytes(self@) + seq![0u8]);
            }
        }
        bytes
    }

    /// Decodes a name from the front of `buffer`, reporting the bytes
    /// consumed; a name longer than 255 encoded bytes is rejected.
    #[verifier::loop_isolation(false)]
    pub fn parse(buffer: &[u8]) -> (r: Result<ParsedHostname, DnsError>)
        ensures
            match r {
                Ok(p) => spec_parse_hostname(buffer@) == Ok::<(Seq<LabelV>, int), DnsError>(
                    (p.hostname@, p.parsed_bytes as int),
                ),
                Err(e) => spec_parse_hostname(buffer@) == Err::<(Seq<LabelV>, int), DnsError>(e),
            },
    {
        let mut labels: Vec<Label> = Vec::new();
        let mut i: usize = 0;
        proof {
            assert(buffer@.skip(0) =~= buffer@);
            assert(labels@.map_values(|l: Label| l@) =~= Seq::<LabelV>::empty());
            match spec_parse_name(buffer@) {
                Ok((ls2, n2)) => {
                    assert(Seq::<LabelV>::empty() + ls2 =~= ls2);
                },
                Err(_) => {},
            }
        }
        while i < buffer.len()
            invariant
                i <= buffer@.len(),
                match spec_parse_name(buffer@.skip(i as int)) {
                    Ok((ls2, n2)) => spec_parse_name(buffer@) == Ok::<(Seq<LabelV>, int), DnsError>(
                        (labels@.map_values(|l: Label| l@) + ls2, i + n2),
                    ),
                    Err(e) => spec_parse_name(buffer@) == Err::<(Seq<LabelV>, int), DnsError>(e),
                },
            decreases buffer@.len() - i,
        {
            let ghost rem = buffer@.skip(i as int);
            let ghost p = labels@.map_values(|l: Label| l@);
            let b0 = buffer[i];
            proof {
                assert(rem[0] == buffer@[i as int]);
            }
            if b0 >= 0xc0 {
                if i + 1 >= buffer.len() {
                    return Err(DnsError::BufferTooShort);
                }
                let ptr: u16 = (b0 - 0xc0) as u16 * 256 + buffer[i + 1] as u16;
                labels.push(Label::COMPRESSED(CompressedHostnameLabel { pointer: ptr }));
                proof {
                    assert(rem[1] == buffer@[i + 1]);
                    assert(spec_parse_name(rem) == Ok::<(Seq<LabelV>, int), DnsError>(
                        (seq![LabelV::Compressed { pointer: ptr }], 2),
                    ));
                    assert(p + seq![LabelV::Compressed { pointer: ptr }] =~= labels@.map_values(
                        |l: Label| l@,
                    ));
                }
                let consumed = i + 2;
                if consumed > 255 {
                    return Err(DnsError::ParsedBytesOverflow);
                }
                return Ok(
                    ParsedHostname { parsed_bytes: consumed as u8, hostname: Hostname(labels) },
                );
            } else if b0 == 0 {
                proof {
                    assert(spec_parse_name(rem) == Ok::<(Seq<LabelV>, int), DnsError>(
                        (Seq::empty(), 1),
                    ));
                    assert(p + Seq::<LabelV>::empty() =~= p);
                }
                let consumed = i + 1;
                if consumed > 255 {
                    return Err(DnsError::ParsedBytesOverflow);
                }
                return Ok(
                    ParsedHostname { parsed_bytes: consumed as u8, hostname: Hostname(labels) },
                );
            } else if b0 > 63 {
                return Err(DnsError::ReservedLabelBits);
            } else if (b0 as usize) > buffer.len() - i - 1 {
                proof {
                    assert(rem.len() < 1 + b0);
                }
                return Err(DnsError::BufferTooShort);
            } else {
                let l = b0 as usize;
                let mut lab: Vec<u8> = Vec::new();
                let mut j: usize = 0;
                proof {
                    assert(lab@ =~= buffer@.subrange(i + 1, i + 1));
                }
                while j < l
                    invariant
                        j <= l,
                        l == b0 as int,
                        1 <= b0 <= 63,
                        i + 1 + l <= buffer@.len(),
                        buffer@.len() <= usize::MAX,
                        buffer@[i as int] == b0,
                        lab@ == buffer@.subrange(i + 1, i + 1 + j as int),
                        forall|x: int| 0 <= x < j ==> (#[trigger] buffer@[i + 1 + x]) < 0x80,
                    decreases l - j,
                {
                    let by = buffer[i + 1 + j];
                    if by >= 0x80 {
                        proof {
                            let rem2 = buffer@.skip(i as int);
                            assert(rem2.len() == buffer@.len() - i);
                            assert(1 + (j as int) < rem2.len());
                            assert(rem2[1 + j as int] == buffer@[i + 1 + j as int]);
                            assert(rem2[0] == buffer@[i as int]);
                            assert(1 + (j as int) <= rem2[0] && rem2[1 + j as int] >= 0x80);
                            assert(spec_parse_name(rem2) == Err::<(Seq<LabelV>, int), DnsError>(
                                DnsError::NonAsciiLabel,
                            ));
                        }
                        return Err(DnsError::NonAsciiLabel);
                    }
                    lab.push(by);
                    j = j + 1;
                    proof {
                        assert(lab@ =~= buffer@.subrange(i + 1, i + 1 + j as int));
                    }
                }
                proof {
                    assert forall|x: int| 1 <= x <= rem[0] implies !((#[trigger] rem[x])
                        >= 0x80) by {
                        assert(rem[x] == buffer@[i + x]);
                        assert(buffer@[i + 1 + (x - 1)] < 0x80);
                    }
                    assert(rem.skip(1 + l as int) =~= buffer@.skip(i + 1 + l as int));
                    assert(rem.subrange(1, 1 + l as int) =~= buffer@.subrange(i + 1, i + 1
                        + l as int));
                }
                let ghost norm = LabelV::Normal {
                    length: b0,
                    label: buffer@.subrange(i + 1, i + 1 + l as int),
                };
                labels.push(Label::NORMAL(HostnameLabel { length: b0, label: lab }));
                proof {
                    assert(labels@.map_values(|l: Label| l@) =~= p.push(norm));
                    match spec_parse_name(buffer@.skip(i + 1 + l as int)) {
                        Ok((ls2, n2)) => {
                            assert(spec_parse_name(rem) == Ok::<(Seq<LabelV>, int), DnsError>(
                                (seq![norm] + ls2, 1 + l + n2),
                            ));
                            assert(p + (seq![norm] + ls2) =~= p.push(norm) + ls2);
                        },
                        Err(e) => {
                            assert(spec_parse_name(rem) == Err::<(Seq<LabelV>, int), DnsError>(e));
                        },
                    }
                }
                i = i + 1 + l;
            }
        }
        proof {
            assert(buffer@.skip(i as int).len() == 0);
        }
        Err(DnsError::BufferTooShort)
    }
}

/// Hostname idempotence: a hostname string the reader accepts, short
/// enough for the 8-bit consumption counter, encodes to bytes that
/// decode back to exactly the labels it was split into; those labels
/// join back to the original string.
pub proof fn lemma_hostname_idempotence(s: Seq<u8>)
    requires
        spec_accepted_hostname(s),
        s.len() <= 253,
    ensures
        spec_join(spec_split(s)) == s,
        spec_name_bytes(spec_split_name(s)).len() == s.len() + 2,
        spec_parse_hostname(spec_name_bytes(spec_split_name(s)))
            == Ok::<(Seq<LabelV>, int), DnsError>((spec_split_name(s), s.len() + 2int)),
{
    lemma_split_props(s);
    lemma_split_bytes(s);
    let parts = spec_split(s);
    let ls = spec_split_name(s);
    assert(ls.len() == parts.len());
    assert forall|i: int| 0 <= i < ls.len() implies wf_normal_label(#[trigger] ls[i]) by {
        assert(ls[i] == LabelV::Normal { length: parts[i].len() as u8, label: parts[i] });
        assert forall|j: int| 0 <= j < parts[i].len() implies (#[trigger] parts[i][j])
            < 0x80 by {
            let x = choose|x: int| 0 <= x < s.len() && s[x] == parts[i][j];
            assert(spec_hostname_byte(s[x]));
            assert(parts[i][j] != 0x2e);
        }
    }
    assert(wf_name(ls)) by {
        assert(ls.len() > 0);
        assert(wf_normal_label(ls.last())) by {
            assert(ls.last() == ls[ls.len() - 1]);
        }
    }
    lemma_name_round_trip(ls);
    lemma_split_labels_bytes_len(parts);
    assert(!spec_ends_compressed(ls));
    assert(spec_name_bytes(ls).len() == spec_labels_bytes(ls).len() + 1);
    assert(spec_name_bytes(ls).len() == s.len() + 2);
}

} // verus!
