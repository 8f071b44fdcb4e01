//! Lowercase hexadecimal encoding of byte strings, used for the
//! content-addressed names of staged files and for the binary fields of
//! the manifest format.

use vstd::prelude::*;

verus! {

/// The ASCII byte of the lowercase hex digit for a nibble value.
pub open spec fn hex_digit_byte(n: int) -> u8
    recommends
        0 <= n < 16,
{
    if n < 10 {
        (48 + n) as u8
    } else {
        (87 + n) as u8
    }
}

/// The ASCII bytes of the lowercase hex encoding: two digits per byte,
/// high nibble first.
pub open spec fn hex_bytes_of(bytes: Seq<u8>) -> Seq<u8>
    decreases bytes.len(),
{
    if bytes.len() == 0 {
        Seq::empty()
    } else {
        seq![
            hex_digit_byte(bytes[0] as int / 16),
            hex_digit_byte(bytes[0] as int % 16),
        ] + hex_bytes_of(bytes.skip(1))
    }
}

/// The same encoding as a character string.
pub open spec fn hex_of(bytes: Seq<u8>) -> Seq<char> {
    hex_bytes_of(bytes).map(|i: int, b: u8| b as char)
}

/// Whether a byte is an ASCII lowercase hex digit.
pub open spec fn is_hex_digit_byte(b: u8) -> bool {
    (48 <= b && b <= 57) || (97 <= b && b <= 102)
}

/// The nibble value of a hex digit byte.
pub open spec fn hex_val(b: u8) -> int
    recommends
        is_hex_digit_byte(b),
{
    if 48 <= b && b <= 57 {
        b - 48
    } else {
        b - 87
    }
}

/// The byte string recovered from a hex encoding, if it is one.
pub open spec fn hex_parse_spec(data: Seq<u8>) -> Option<Seq<u8>>
    decreases data.len(),
{
    if data.len() == 0 {
        Some(Seq::empty())
    } else if data.len() == 1 {
        None
    } else if is_hex_digit_byte(data[0]) && is_hex_digit_byte(data[1]) {
        match hex_parse_spec(data.skip(2)) {
            Some(rest) => Some(
                seq![(hex_val(data[0]) * 16 + hex_val(data[1])) as u8] + rest,
            ),
            None => None,
        }
    } else {
        None
    }
}

/// Every byte of a hex encoding is a hex digit; in particular none is a
/// newline, which the manifest format relies on.
pub proof fn lemma_hex_bytes_are_digits(bytes: Seq<u8>)
    ensures
        forall|i: int|
            0 <= i < hex_bytes_of(bytes).len() ==> is_hex_digit_byte(
                #[trigger] hex_bytes_of(bytes)[i],
            ),
        hex_bytes_of(bytes).len() == 2 * bytes.len(),
    decreases bytes.len(),
{
    if bytes.len() > 0 {
        lemma_hex_bytes_are_digits(bytes.skip(1));
    }
}

/// Appending one byte extends the encoding by its two digits.
pub proof fn lemma_hex_bytes_push(bytes: Seq<u8>, b: u8)
    ensures
        hex_bytes_of(bytes.push(b)) == hex_bytes_of(bytes) + seq![
            hex_digit_byte(b as int / 16),
            hex_digit_byte(b as int % 16),
        ],
    decreases bytes.len(),
{
    let hilo = seq![hex_digit_byte(b as int / 16), hex_digit_byte(b as int % 16)];
    assert(bytes.push(b)[0] == if bytes.len() == 0 {
        b
    } else {
        bytes[0]
    });
    if bytes.len() == 0 {
        assert(bytes.push(b).skip(1) =~= Seq::<u8>::empty());
        assert(hex_bytes_of(bytes.push(b)) == seq![
            hex_digit_byte(b as int / 16),
            hex_digit_byte(b as int % 16),
        ] + hex_bytes_of(Seq::<u8>::empty()));
        assert(hex_bytes_of(bytes.push(b)) =~= hex_bytes_of(bytes) + hilo);
    } else {
        assert(bytes.push(b).skip(1) =~= bytes.skip(1).push(b));
        lemma_hex_bytes_push(bytes.skip(1), b);
        assert(hex_bytes_of(bytes.push(b)) == seq![
            hex_digit_byte(bytes[0] as int / 16),
            hex_digit_byte(bytes[0] as int % 16),
        ] + (hex_bytes_of(bytes.skip(1)) + hilo));
        assert(hex_bytes_of(bytes.push(b)) =~= hex_bytes_of(bytes) + hilo);
    }
}

/// Law: decoding inverts encoding.
pub proof fn lemma_hex_round_trip(bytes: Seq<u8>)
    ensures
        hex_parse_spec(hex_bytes_of(bytes)) == Some(bytes),
    decreases bytes.len(),
{
    if bytes.len() == 0 {
    } else {
        lemma_hex_round_trip(bytes.skip(1));
        lemma_hex_bytes_are_digits(bytes.skip(1));
        let enc = hex_bytes_of(bytes);
        let b = bytes[0];
        let hi = hex_digit_byte(b as int / 16);
        let lo = hex_digit_byte(b as int % 16);
        assert(enc[0] == hi && enc[1] == lo);
        assert(enc.skip(2) =~= hex_bytes_of(bytes.skip(1)));
        assert(hex_val(hi) == b as int / 16 && hex_val(lo) == b as int % 16);
        assert((hex_val(hi) * 16 + hex_val(lo)) as u8 == b);
        assert(seq![b] + bytes.skip(1) =~= bytes);
    }
}

/// Law: the encoding is injective, so hex names collide only when the
/// bytes they were derived from are the same.
pub proof fn lemma_hex_of_injective(a: Seq<u8>, b: Seq<u8>)
    requires
        hex_of(a) == hex_of(b),
    ensures
        a == b,
{
    lemma_hex_bytes_are_digits(a);
    lemma_hex_bytes_are_digits(b);
    assert(hex_of(a).len() == hex_bytes_of(a).len());
    assert(hex_of(b).len() == hex_bytes_of(b).len());
    assert(hex_bytes_of(a) =~= hex_bytes_of(b)) by {
        assert forall|i: int| 0 <= i < hex_bytes_of(a).len() implies hex_bytes_of(a)[i]
            == hex_bytes_of(b)[i] by {
            assert(hex_of(a)[i] == hex_bytes_of(a)[i] as char);
            assert(hex_of(b)[i] == hex_bytes_of(b)[i] as char);
        }
    }
    lemma_hex_round_trip(a);
    lemma_hex_round_trip(b);
}

/// Relies on hex::encode: the lowercase hex digits of the bytes, two per
/// byte, high nibble first.
#[verifier::external_body]
pub(crate) fn hex_string(data: &[u8]) -> (r: String)
    ensures
        r@ == hex_of(data@),
{
    hex::encode(data)
}

/// Emits the hex encoding of a byte string as ASCII bytes.
pub fn hex_ascii_bytes(data: &[u8]) -> (r: Vec<u8>)
    ensures
        r@ == hex_bytes_of(data@),
{
    let mut r: Vec<u8> = Vec::new();
    let mut i: usize = 0;
    assert(data@.take(0) =~= Seq::<u8>::empty());
    while i < data.len()
        invariant
            0 <= i <= data@.len(),
            r@ == hex_bytes_of(data@.take(i as int)),
        decreases data@.len() - i,
    {
        let b = data[i];
        let hi: u8 = b / 16;
        let lo: u8 = b % 16;
        let hi_d: u8 = if hi < 10 {
            48 + hi
        } else {
            87 + hi
        };
        let lo_d: u8 = if lo < 10 {
            48 + lo
        } else {
            87 + lo
        };
        r.push(hi_d);
        r.push(lo_d);
        proof {
            lemma_hex_bytes_push(data@.take(i as int), b);
            assert(data@.take(i + 1) =~= data@.take(i as int).push(b));
        }
        i += 1;
    }
    assert(data@.take(data@.len() as int) =~= data@);
    r
}

/// Decodes a hex encoding back into bytes; rejects anything that is not
/// one.
pub fn hex_parse(data: &[u8]) -> (r: Option<Vec<u8>>)
    ensures
        match r {
            Some(v) => hex_parse_spec(data@) == Some(v@),
            None => hex_parse_spec(data@) is None,
        },
{
    if data.len() % 2 != 0 {
        proof {
            lemma_hex_parse_odd(data@);
        }
        return None;
    }
    let mut r: Vec<u8> = Vec::new();
    let mut i: usize = 0;
    proof {
        assert(data@.skip(0) =~= data@);
        if hex_parse_spec(data@) is Some {
            assert(r@ + hex_parse_spec(data@).unwrap() =~= hex_parse_spec(data@).unwrap());
        }
    }
    while i < data.len()
        invariant
            0 <= i <= data@.len(),
            i % 2 == 0,
            data@.len() % 2 == 0,
            match hex_parse_spec(data@.skip(i as int)) {
                Some(rest) => hex_parse_spec(data@) == Some(r@ + rest),
                None => hex_parse_spec(data@) is None,
            },
        decreases data@.len() - i,
    {
        let ghost tail = data@.skip(i as int);
        proof {
            assert(tail.len() >= 2);
            assert(tail[0] == data@[i as int] && tail[1] == data@[i + 1]);
            assert(tail.skip(2) =~= data@.skip(i + 2));
        }
        let b0 = data[i];
        let b1 = data[i + 1];
        let v0 = if 48 <= b0 && b0 <= 57 {
            b0 - 48
        } else if 97 <= b0 && b0 <= 102 {
            b0 - 87
        } else {
            proof {
                assert(hex_parse_spec(tail) is None);
            }
            return None;
        };
        let v1 = if 48 <= b1 && b1 <= 57 {
            b1 - 48
        } else if 97 <= b1 && b1 <= 102 {
            b1 - 87
        } else {
            proof {
                assert(hex_parse_spec(tail) is None);
            }
            return None;
        };
        let byte: u8 = v0 * 16 + v1;
        proof {
            assert(byte == (hex_val(tail[0]) * 16 + hex_val(tail[1])) as u8);
            if hex_parse_spec(data@.skip(i + 2)) is Some {
                let rest2 = hex_parse_spec(data@.skip(i + 2)).unwrap();
                assert(hex_parse_spec(tail) == Some(seq![byte] + rest2));
                assert(r@ + (seq![byte] + rest2) =~= r@.push(byte) + rest2);
            }
        }
        r.push(byte);
        i += 2;
    }
    proof {
        assert(data@.skip(data@.len() as int) =~= Seq::<u8>::empty());
        if hex_parse_spec(data@) is Some {
        }
        assert(r@ + Seq::<u8>::empty() =~= r@);
    }
    Some(r)
}

/// A hex encoding always has even length.
proof fn lemma_hex_parse_odd(data: Seq<u8>)
    requires
        data.len() % 2 == 1,
    ensures
        hex_parse_spec(data) is None,
    decreases data.len(),
{
    if data.len() > 1 {
        lemma_hex_parse_odd(data.skip(2));
    }
}

} // verus!
