//! The upload descriptor and its on-disk manifest format. A manifest is
//! four newline-terminated lines: the source device name, the logical
//! path of the file within its device, the hex-encoded content
//! fingerprint, and the hex-encoded capture timestamp. Characters of the
//! two name lines that are not printable ASCII are written as an escape
//! sequence, so any Rust string round-trips.

use vstd::prelude::*;
use vstd::bytes::{spec_u32_to_le_bytes, spec_u32_from_le_bytes, u32_to_le_bytes, u32_from_le_bytes};
use vstd::bytes::{spec_u64_to_le_bytes, u64_to_le_bytes, lemma_auto_spec_u64_to_from_le_bytes, lemma_auto_spec_u32_to_from_le_bytes, u64_from_le_bytes};
use vstd::string::StrSliceExecFns;
use crate::hexstr::{hex_bytes_of, hex_parse_spec, hex_ascii_bytes, hex_parse, lemma_hex_bytes_are_digits, lemma_hex_round_trip, is_hex_digit_byte};

verus! {

/// The unit of pending work: identifies one staged content file, its
/// origin, and its content fingerprint.
#[derive(Debug, Clone)]
pub struct UploadDescriptor {
    /// Logical name of the source device.
    pub device_name: String,
    /// Identity of the file within its device.
    pub relative_path: String,
    /// The content fingerprint: the dedup key. Always 32 bytes.
    pub content_fingerprint: Vec<u8>,
    /// When the file was staged, as seconds since the epoch.
    pub captured_at: u64,
}

/// The mathematical model of an upload descriptor.
pub struct UploadDescriptorModel {
    pub device_name: Seq<char>,
    pub relative_path: Seq<char>,
    pub content_fingerprint: Seq<u8>,
    pub captured_at: u64,
}

impl UploadDescriptorModel {
    /// A descriptor always carries a full-size fingerprint.
    pub open spec fn wf(self) -> bool {
        self.content_fingerprint.len() == 32
    }
}

impl View for UploadDescriptor {
    type V = UploadDescriptorModel;

    open spec fn view(&self) -> UploadDescriptorModel {
        UploadDescriptorModel {
            device_name: self.device_name@,
            relative_path: self.relative_path@,
            content_fingerprint: self.content_fingerprint@,
            captured_at: self.captured_at,
        }
    }
}

impl UploadDescriptor {
    pub open spec fn wf(self) -> bool {
        self@.wf()
    }

    pub fn new(device_name: String, relative_path: String, content_fingerprint: Vec<u8>, captured_at: u64) -> (r: Self)
        requires
            content_fingerprint@.len() == 32,
        ensures
            r@ == (UploadDescriptorModel {
                device_name: device_name@,
                relative_path: relative_path@,
                content_fingerprint: content_fingerprint@,
                captured_at: captured_at,
            }),
            r.wf(),
    {
        UploadDescriptor { device_name, relative_path, content_fingerprint, captured_at }
    }
}

/// Whether a character passes through the name encoding unchanged.
pub open spec fn is_plain_char(c: char) -> bool {
    32 <= (c as int) && (c as int) < 127 && c != '%'
}

/// The encoding of one name character: printable ASCII stands for
/// itself; anything else becomes '%', the hex of its code point in
/// little-endian byte order, and ';'.
pub open spec fn escape_char(c: char) -> Seq<u8> {
    if is_plain_char(c) {
        seq![c as u8]
    } else {
        seq![37u8] + hex_bytes_of(spec_u32_to_le_bytes(c as u32)) + seq![59u8]
    }
}

/// The encoding of a whole name.
pub open spec fn escape_str(s: Seq<char>) -> Seq<u8>
    decreases s.len(),
{
    if s.len() == 0 {
        Seq::empty()
    } else {
        escape_char(s[0]) + escape_str(s.skip(1))
    }
}

/// The name recovered from an encoded name line, if it is one.
pub open spec fn unescape_str(bytes: Seq<u8>) -> Option<Seq<char>>
    decreases bytes.len(),
{
    if bytes.len() == 0 {
        Some(Seq::empty())
    } else if bytes[0] == 37 {
        if bytes.len() < 10 || bytes[9] != 59 {
            None
        } else {
            match hex_parse_spec(bytes.subrange(1, 9)) {
                Some(le4) => {
                    if le4.len() == 4 && vstd::utf8::is_scalar(spec_u32_from_le_bytes(le4)) {
                        match unescape_str(bytes.skip(10)) {
                            Some(rest) => Some(
                                seq![spec_u32_from_le_bytes(le4) as char] + rest,
                            ),
                            None => None,
                        }
                    } else {
                        None
                    }
                },
                None => None,
            }
        }
    } else if 32 <= bytes[0] && bytes[0] < 127 {
        match unescape_str(bytes.skip(1)) {
            Some(rest) => Some(seq![bytes[0] as char] + rest),
            None => None,
        }
    } else {
        None
    }
}

/// No byte of an encoded name is a newline, so the line structure of a
/// manifest is unambiguous.
pub proof fn lemma_escape_no_newline(s: Seq<char>)
    ensures
        forall|i: int| 0 <= i < escape_str(s).len() ==> #[trigger] escape_str(s)[i] != 10,
    decreases s.len(),
{
    if s.len() > 0 {
        lemma_escape_no_newline(s.skip(1));
        lemma_hex_bytes_are_digits(spec_u32_to_le_bytes(s[0] as u32));
        assert forall|i: int| 0 <= i < escape_char(s[0]).len() implies #[trigger] escape_char(
            s[0],
        )[i] != 10 by {
            if !is_plain_char(s[0]) {
                let hx = hex_bytes_of(spec_u32_to_le_bytes(s[0] as u32));
                if 1 <= i < 1 + hx.len() {
                    assert(escape_char(s[0])[i] == hx[i - 1]);
                    assert(is_hex_digit_byte(hx[i - 1]));
                }
            }
        }
        assert forall|i: int| 0 <= i < escape_str(s).len() implies #[trigger] escape_str(
            s,
        )[i] != 10 by {
            let ec = escape_char(s[0]);
            if i < ec.len() {
                assert(escape_str(s)[i] == ec[i]);
            } else {
                assert(escape_str(s)[i] == escape_str(s.skip(1))[i - ec.len()]);
            }
        }
    }
}

/// Appending one character extends the encoding by its escape sequence.
pub proof fn lemma_escape_push(s: Seq<char>, c: char)
    ensures
        escape_str(s.push(c)) == escape_str(s) + escape_char(c),
    decreases s.len(),
{
    if s.len() == 0 {
        assert(s.push(c)[0] == c);
        assert(s.push(c).skip(1) =~= Seq::<char>::empty());
        assert(escape_str(s.push(c)) == escape_char(c) + escape_str(Seq::<char>::empty()));
        assert(escape_str(s.push(c)) =~= escape_str(s) + escape_char(c));
    } else {
        assert(s.push(c)[0] == s[0]);
        assert(s.push(c).skip(1) =~= s.skip(1).push(c));
        assert(escape_str(s.push(c)) == escape_char(s[0]) + escape_str(s.skip(1).push(c)));
        lemma_escape_push(s.skip(1), c);
        assert(escape_str(s.push(c)) =~= escape_str(s) + escape_char(c));
    }
}

/// Law: decoding inverts encoding, for names made of any characters.
pub proof fn lemma_unescape_round_trip(s: Seq<char>)
    ensures
        unescape_str(escape_str(s)) == Some(s),
    decreases s.len(),
{
    if s.len() == 0 {
    } else {
        lemma_unescape_round_trip(s.skip(1));
        let c = s[0];
        let enc = escape_str(s);
        if is_plain_char(c) {
            assert(enc[0] == c as u8);
            assert(enc[0] != 37 && 32 <= enc[0] && enc[0] < 127);
            assert(enc.skip(1) =~= escape_str(s.skip(1)));
            assert((c as u8) as char == c);
            assert(seq![c] + s.skip(1) =~= s);
        } else {
            let le = spec_u32_to_le_bytes(c as u32);
            let hx = hex_bytes_of(le);
            lemma_auto_spec_u32_to_from_le_bytes();
            lemma_hex_bytes_are_digits(le);
            assert(hx.len() == 8);
            assert(escape_char(c).len() == 10);
            assert(enc[0] == 37);
            assert(enc[9] == 59);
            assert(enc.len() >= 10);
            assert(enc.subrange(1, 9) =~= hx);
            lemma_hex_round_trip(le);
            assert(hex_parse_spec(enc.subrange(1, 9)) == Some(le));
            assert(spec_u32_from_le_bytes(le) == c as u32);
            vstd::utf8::char_is_scalar(c);
            vstd::utf8::char_u32_cast(c, c as u32);
            assert(vstd::utf8::is_scalar(c as u32));
            assert((c as u32) as char == c);
            assert(enc.skip(10) =~= escape_str(s.skip(1)));
            assert(seq![c] + s.skip(1) =~= s);
        }
    }
}

/// The index of the first occurrence of a byte, or -1.
pub open spec fn find_byte(s: Seq<u8>, b: u8) -> int
    decreases s.len(),
{
    if s.len() == 0 {
        -1
    } else if s[0] == b {
        0
    } else {
        let r = find_byte(s.skip(1), b);
        if r < 0 {
            -1
        } else {
            r + 1
        }
    }
}

/// What the index returned by `find_byte` means.
pub proof fn lemma_find_byte_properties(s: Seq<u8>, b: u8)
    ensures
        find_byte(s, b) == -1 ==> forall|i: int| 0 <= i < s.len() ==> s[i] != b,
        find_byte(s, b) != -1 ==> {
            let r = find_byte(s, b);
            &&& 0 <= r < s.len()
            &&& s[r] == b
            &&& forall|i: int| 0 <= i < r ==> s[i] != b
        },
    decreases s.len(),
{
    if s.len() > 0 && s[0] != b {
        lemma_find_byte_properties(s.skip(1), b);
        let r1 = find_byte(s.skip(1), b);
        if r1 == -1 {
            assert(forall|i: int| 0 <= i < s.len() ==> s[i] != b) by {
                assert(forall|i: int| 1 <= i < s.len() ==> s[i] == s.skip(1)[i - 1]);
            }
        } else {
            assert(s[r1 + 1] == s.skip(1)[r1]);
            assert(forall|i: int| 1 <= i < r1 + 1 ==> s[i] == s.skip(1)[i - 1]);
        }
    }
}

/// A position that holds the byte, with none before it, is what
/// `find_byte` returns.
pub proof fn lemma_find_byte_first(s: Seq<u8>, b: u8, j: int)
    requires
        0 <= j < s.len(),
        s[j] == b,
        forall|i: int| 0 <= i < j ==> s[i] != b,
    ensures
        find_byte(s, b) == j,
{
    lemma_find_byte_properties(s, b);
    let r = find_byte(s, b);
    if r == -1 {
        assert(s[j] != b);
    } else if r < j {
        assert(s[r] != b);
    } else if r > j {
        assert(s[j] != b);
    }
}

/// Splits off the first newline-terminated line.
pub open spec fn split_line(s: Seq<u8>) -> Option<(Seq<u8>, Seq<u8>)> {
    let i = find_byte(s, 10);
    if i < 0 {
        None
    } else {
        Some((s.take(i), s.skip(i + 1)))
    }
}

/// A line known to hold no newline, followed by a newline, splits off
/// exactly.
pub proof fn lemma_split_line_concat(x: Seq<u8>, y: Seq<u8>)
    requires
        forall|i: int| 0 <= i < x.len() ==> x[i] != 10,
    ensures
        split_line(x + seq![10u8] + y) == Some((x, y)),
{
    let s = x + seq![10u8] + y;
    assert(s[x.len() as int] == 10);
    assert(forall|i: int| 0 <= i < x.len() ==> s[i] == x[i]);
    lemma_find_byte_first(s, 10, x.len() as int);
    assert(s.take(x.len() as int) =~= x);
    assert(s.skip(x.len() as int + 1) =~= y);
}

/// The serialized form of a descriptor: device line, path line,
/// fingerprint line, timestamp line, each newline-terminated.
pub open spec fn encode_manifest_spec(d: UploadDescriptorModel) -> Seq<u8> {
    escape_str(d.device_name) + seq![10u8] + escape_str(d.relative_path) + seq![10u8]
        + hex_bytes_of(d.content_fingerprint) + seq![10u8] + hex_bytes_of(
        spec_u64_to_le_bytes(d.captured_at),
    ) + seq![10u8]
}

/// The descriptor recovered from manifest bytes, if they are well formed:
/// exactly four newline-terminated lines, the names unescapable, the
/// fingerprint 32 hex-encoded bytes and the timestamp 8.
pub open spec fn parse_manifest_spec(s: Seq<u8>) -> Option<UploadDescriptorModel> {
    match split_line(s) {
        None => None,
        Some((l1, r1)) => match split_line(r1) {
            None => None,
            Some((l2, r2)) => match split_line(r2) {
                None => None,
                Some((l3, r3)) => match split_line(r3) {
                    None => None,
                    Some((l4, r4)) => if r4.len() != 0 {
                        None
                    } else {
                        match (unescape_str(l1), unescape_str(l2), hex_parse_spec(l3), hex_parse_spec(l4)) {
                            (Some(dev), Some(path), Some(fp), Some(ts8)) => if fp.len() == 32
                                && ts8.len() == 8 {
                                Some(UploadDescriptorModel {
                                    device_name: dev,
                                    relative_path: path,
                                    content_fingerprint: fp,
                                    captured_at: vstd::bytes::spec_u64_from_le_bytes(ts8),
                                })
                            } else {
                                None
                            },
                            _ => None,
                        }
                    },
                },
            },
        },
    }
}

/// Law: parsing inverts serialization, for every well-formed descriptor.
pub proof fn lemma_manifest_codec_round_trip(d: UploadDescriptorModel)
    requires
        d.wf(),
    ensures
        parse_manifest_spec(encode_manifest_spec(d)) == Some(d),
{
    let a = escape_str(d.device_name);
    let b = escape_str(d.relative_path);
    let c = hex_bytes_of(d.content_fingerprint);
    let t = hex_bytes_of(spec_u64_to_le_bytes(d.captured_at));
    let nl = seq![10u8];
    let s = encode_manifest_spec(d);
    lemma_escape_no_newline(d.device_name);
    lemma_escape_no_newline(d.relative_path);
    lemma_hex_bytes_are_digits(d.content_fingerprint);
    lemma_hex_bytes_are_digits(spec_u64_to_le_bytes(d.captured_at));
    lemma_auto_spec_u64_to_from_le_bytes();
    let r1 = b + nl + c + nl + t + nl;
    let r2 = c + nl + t + nl;
    let r3 = t + nl;
    assert(s =~= a + nl + r1);
    lemma_split_line_concat(a, r1);
    assert(split_line(s) == Some((a, r1)));
    assert(r1 =~= b + nl + r2);
    lemma_split_line_concat(b, r2);
    assert(split_line(r1) == Some((b, r2)));
    assert(r2 =~= c + nl + r3);
    lemma_split_line_concat(c, r3);
    assert(split_line(r2) == Some((c, r3)));
    assert(r3 =~= t + nl + Seq::<u8>::empty());
    lemma_split_line_concat(t, Seq::<u8>::empty());
    assert(split_line(r3) == Some((t, Seq::<u8>::empty())));
    lemma_unescape_round_trip(d.device_name);
    lemma_unescape_round_trip(d.relative_path);
    lemma_hex_round_trip(d.content_fingerprint);
    lemma_hex_round_trip(spec_u64_to_le_bytes(d.captured_at));
    assert(parse_manifest_spec(s) == Some(d));
}

/// Relies on char::from_u32: Some of the scalar with that code point
/// exactly on unicode scalar values, None on surrogates and values above
/// the unicode range.
#[verifier::external_body]
fn char_from_u32(v: u32) -> (r: Option<char>)
    ensures
        r == if vstd::utf8::is_scalar(v) {
            Some(v as char)
        } else {
            None::<char>
        },
{
    char::from_u32(v)
}

/// Relies on String's FromIterator impl over char: collecting characters
/// yields the string of exactly those characters in order.
#[verifier::external_body]
pub(crate) fn string_from_chars(chars: &Vec<char>) -> (r: String)
    ensures
        r@ == chars@,
{
    chars.iter().collect()
}

/// Encodes one name line.
fn escape_string(s: &str) -> (r: Vec<u8>)
    ensures
        r@ == escape_str(s@),
{
    let n = s.unicode_len();
    let mut r: Vec<u8> = Vec::new();
    proof {
        assert(s@.take(0) =~= Seq::<char>::empty());
    }
    let mut i: usize = 0;
    while i < n
        invariant
            0 <= i <= n,
            n == s@.len(),
            r@ == escape_str(s@.take(i as int)),
        decreases n - i,
    {
        let c = s.get_char(i);
        let cu = c as u32;
        if 32 <= cu && cu < 127 && c != '%' {
            r.push(cu as u8);
            proof {
                assert(escape_char(c) =~= seq![c as u8]);
            }
        } else {
            r.push(37u8);
            let le = u32_to_le_bytes(cu);
            let mut hx = hex_ascii_bytes(le.as_slice());
            r.append(&mut hx);
            r.push(59u8);
            proof {
                assert(escape_char(c) =~= seq![37u8] + hex_bytes_of(spec_u32_to_le_bytes(cu))
                    + seq![59u8]);
            }
        }
        proof {
            lemma_escape_push(s@.take(i as int), c);
            assert(s@.take(i + 1) =~= s@.take(i as int).push(c));
            assert(r@ =~= escape_str(s@.take(i + 1)));
        }
        i += 1;
    }
    proof {
        assert(s@.take(n as int) =~= s@);
    }
    r
}

/// Decodes one name line.
fn unescape_bytes(data: &[u8]) -> (r: Option<Vec<char>>)
    ensures
        match r {
            Some(v) => unescape_str(data@) == Some(v@),
            None => unescape_str(data@) is None,
        },
{
    let mut out: Vec<char> = Vec::new();
    let mut i: usize = 0;
    proof {
        assert(data@.skip(0) =~= data@);
        if unescape_str(data@) is Some {
            assert(out@ + unescape_str(data@).unwrap() =~= unescape_str(data@).unwrap());
        }
    }
    while i < data.len()
        invariant
            0 <= i <= data@.len(),
            match unescape_str(data@.skip(i as int)) {
                Some(t) => unescape_str(data@) == Some(out@ + t),
                None => unescape_str(data@) is None,
            },
        decreases data@.len() - i,
    {
        let ghost tail = data@.skip(i as int);
        let b = data[i];
        proof {
            assert(tail[0] == b);
        }
        if b == 37 {
            if data.len() - i < 10 {
                return None;
            }
            proof {
                assert(tail[9] == data@[i + 9]);
            }
            if data[i + 9] != 59 {
                return None;
            }
            let hslice = vstd::slice::slice_subrange(data, i + 1, i + 9);
            proof {
                assert(hslice@ =~= tail.subrange(1, 9));
            }
            let le4 = match hex_parse(hslice) {
                None => {
                    return None;
                },
                Some(v) => v,
            };
            if le4.len() != 4 {
                return None;
            }
            let v = u32_from_le_bytes(le4.as_slice());
            let c = match char_from_u32(v) {
                None => {
                    return None;
                },
                Some(c) => c,
            };
            proof {
                assert(tail.skip(10) =~= data@.skip(i + 10));
                if unescape_str(data@.skip(i + 10)) is Some {
                    let rest = unescape_str(data@.skip(i + 10)).unwrap();
                    assert(unescape_str(tail) == Some(seq![c] + rest));
                    assert(out@ + (seq![c] + rest) =~= out@.push(c) + rest);
                }
            }
            out.push(c);
            i += 10;
        } else if 32 <= b && b < 127 {
            let c = b as char;
            proof {
                assert(tail.skip(1) =~= data@.skip(i + 1));
                if unescape_str(data@.skip(i + 1)) is Some {
                    let rest = unescape_str(data@.skip(i + 1)).unwrap();
                    assert(unescape_str(tail) == Some(seq![c] + rest));
                    assert(out@ + (seq![c] + rest) =~= out@.push(c) + rest);
                }
            }
            out.push(c);
            i += 1;
        } else {
            return None;
        }
    }
    proof {
        assert(data@.skip(data@.len() as int) =~= Seq::<u8>::empty());
        assert(out@ + Seq::<char>::empty() =~= out@);
    }
    Some(out)
}

/// Serializes a descriptor into manifest bytes.
pub fn encode_manifest(d: &UploadDescriptor) -> (r: Vec<u8>)
    ensures
        r@ == encode_manifest_spec(d@),
{
    let mut r = escape_string(d.device_name.as_str());
    r.push(10);
    let mut part = escape_string(d.relative_path.as_str());
    r.append(&mut part);
    r.push(10);
    let mut part = hex_ascii_bytes(d.content_fingerprint.as_slice());
    r.append(&mut part);
    r.push(10);
    let le = u64_to_le_bytes(d.captured_at);
    let mut part = hex_ascii_bytes(le.as_slice());
    r.append(&mut part);
    r.push(10);
    proof {
        assert(r@ =~= encode_manifest_spec(d@));
    }
    r
}

/// Finds the first newline at or after a position.
fn find_nl(data: &[u8], from: usize) -> (r: Option<usize>)
    requires
        from <= data@.len(),
    ensures
        match r {
            Some(j) => from <= j < data@.len() && data@[j as int] == 10 && forall|k: int|
                from <= k < j ==> data@[k] != 10,
            None => forall|k: int| from <= k < data@.len() ==> data@[k] != 10,
        },
{
    let mut j = from;
    while j < data.len()
        invariant
            from <= j <= data@.len(),
            forall|k: int| from <= k < j ==> data@[k] != 10,
        decreases data@.len() - j,
    {
        if data[j] == 10 {
            return Some(j);
        }
        j += 1;
    }
    None
}

/// Deserializes manifest bytes back into a descriptor; rejects anything
/// that is not the serialization of one.
#[verifier::rlimit(80)]
#[verifier::spinoff_prover]
pub fn parse_manifest(data: &[u8]) -> (r: Option<UploadDescriptor>)
    ensures
        match r {
            Some(d) => parse_manifest_spec(data@) == Some(d@) && d.wf(),
            None => parse_manifest_spec(data@) is None,
        },
{
    let n = data.len();
    let j1 = match find_nl(data, 0) {
        None => {
            proof {
                lemma_find_byte_properties(data@, 10);
            }
            return None;
        },
        Some(j) => j,
    };
    proof {
        lemma_find_byte_first(data@, 10, j1 as int);
    }
    let ghost l1 = data@.take(j1 as int);
    let ghost r1 = data@.skip(j1 + 1);
    let j2 = match find_nl(data, j1 + 1) {
        None => {
            proof {
                assert(forall|k: int| 0 <= k < r1.len() ==> r1[k] == data@[j1 + 1 + k]);
                lemma_find_byte_properties(r1, 10);
                if find_byte(r1, 10) != -1 {
                    assert(r1[find_byte(r1, 10)] == 10);
                }
            }
            return None;
        },
        Some(j) => j,
    };
    proof {
        assert(forall|k: int| 0 <= k < r1.len() ==> r1[k] == data@[j1 + 1 + k]);
        lemma_find_byte_first(r1, 10, j2 - j1 - 1);
    }
    let ghost l2 = r1.take(j2 - j1 - 1);
    let ghost r2 = r1.skip(j2 - j1);
    let j3 = match find_nl(data, j2 + 1) {
        None => {
            proof {
                assert(forall|k: int| 0 <= k < r2.len() ==> r2[k] == data@[j2 + 1 + k]);
                lemma_find_byte_properties(r2, 10);
                if find_byte(r2, 10) != -1 {
                    assert(r2[find_byte(r2, 10)] == 10);
                }
            }
            return None;
        },
        Some(j) => j,
    };
    proof {
        assert(forall|k: int| 0 <= k < r2.len() ==> r2[k] == data@[j2 + 1 + k]);
        lemma_find_byte_first(r2, 10, j3 - j2 - 1);
    }
    let ghost l3 = r2.take(j3 - j2 - 1);
    let ghost r3 = r2.skip(j3 - j2);
    let j4 = match find_nl(data, j3 + 1) {
        None => {
            proof {
                assert(forall|k: int| 0 <= k < r3.len() ==> r3[k] == data@[j3 + 1 + k]);
                lemma_find_byte_properties(r3, 10);
                if find_byte(r3, 10) != -1 {
                    assert(r3[find_byte(r3, 10)] == 10);
                }
            }
            return None;
        },
        Some(j) => j,
    };
    proof {
        assert(forall|k: int| 0 <= k < r3.len() ==> r3[k] == data@[j3 + 1 + k]);
        lemma_find_byte_first(r3, 10, j4 - j3 - 1);
    }
    let ghost l4 = r3.take(j4 - j3 - 1);
    let ghost r4 = r3.skip(j4 - j3);
    if j4 + 1 != data.len() {
        proof {
            assert(r4.len() != 0);
        }
        return None;
    }
    proof {
        assert(r4.len() == 0);
        assert(split_line(data@) == Some((l1, r1)));
        assert(split_line(r1) == Some((l2, r2)));
        assert(split_line(r2) == Some((l3, r3)));
        assert(split_line(r3) == Some((l4, r4)));
    }
    let s1 = vstd::slice::slice_subrange(data, 0, j1);
    let s2 = vstd::slice::slice_subrange(data, j1 + 1, j2);
    let s3 = vstd::slice::slice_subrange(data, j2 + 1, j3);
    let s4 = vstd::slice::slice_subrange(data, j3 + 1, j4);
    proof {
        assert(s1@ =~= l1);
        assert(s2@ =~= l2);
        assert(s3@ =~= l3);
        assert(s4@ =~= l4);
    }
    let dev = match unescape_bytes(s1) {
        None => {
            return None;
        },
        Some(v) => v,
    };
    let path = match unescape_bytes(s2) {
        None => {
            return None;
        },
        Some(v) => v,
    };
    let fp = match hex_parse(s3) {
        None => {
            return None;
        },
        Some(v) => v,
    };
    let ts8 = match hex_parse(s4) {
        None => {
            return None;
        },
        Some(v) => v,
    };
    if fp.len() != 32 || ts8.len() != 8 {
        return None;
    }
    let ts = u64_from_le_bytes(ts8.as_slice());
    let device_name = string_from_chars(&dev);
    let relative_path = string_from_chars(&path);
    Some(UploadDescriptor::new(device_name, relative_path, fp, ts))
}

} // verus!
