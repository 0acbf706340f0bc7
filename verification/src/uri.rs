//! `file://` URIs: percent-encoding of paths and decoding back.

use vstd::prelude::*;
use vstd::string::StringSliceAdditionalSpecFns;

verus! {

/// Bytes that are copied into a URI unchanged.
pub open spec fn is_uri_safe(b: u8) -> bool {
    (48 <= b <= 57) || (97 <= b <= 122) || (65 <= b <= 90) || b == 45 || b == 46 || b == 95
        || b == 126 || b == 47 || b == 58
}

/// Upper-case hexadecimal digit for a nibble.
pub open spec fn hex_digit_upper(n: u8) -> u8 {
    if n < 10 { (48 + n) as u8 } else { (55 + n) as u8 }
}

/// The encoding of one byte: itself, or `%` and two upper-case hex digits.
pub open spec fn encode_byte(b: u8) -> Seq<u8> {
    if is_uri_safe(b) {
        seq![b]
    } else {
        seq![37u8, hex_digit_upper(b / 16), hex_digit_upper(b % 16)]
    }
}

/// Percent-encoding of a whole byte string.
pub open spec fn uri_encode_spec(s: Seq<u8>) -> Seq<u8>
    decreases s.len(),
{
    if s.len() == 0 {
        seq![]
    } else {
        encode_byte(s[0]) + uri_encode_spec(s.skip(1))
    }
}

fn hex_upper(n: u8) -> (r: u8)
    requires
        n < 16,
    ensures
        r == hex_digit_upper(n),
{
    if n < 10 {
        48 + n
    } else {
        55 + n
    }
}

/// Percent-encodes `s`: every byte outside `[0-9a-zA-Z-._~/:]` becomes `%XX`.
pub fn uri_encode(s: &str) -> (out: Vec<u8>)
    ensures
        out@ == uri_encode_spec(s.spec_bytes()),
{
    encode_bytes(s.as_bytes())
}

/// The value of a hexadecimal digit in either case.
pub open spec fn hex_value(b: u8) -> Option<nat> {
    if 48 <= b <= 57 {
        Some((b - 48) as nat)
    } else if 97 <= b <= 102 {
        Some((b - 87) as nat)
    } else if 65 <= b <= 70 {
        Some((b - 55) as nat)
    } else {
        None
    }
}

/// Percent-decoding: `%` and two hex digits become the byte they spell;
/// every byte becomes the char of the same number.  `None` when a `%` with
/// two following bytes is not followed by two hex digits.
pub open spec fn percent_decode(b: Seq<u8>) -> Option<Seq<char>>
    decreases b.len(),
{
    if b.len() == 0 {
        Some(seq![])
    } else if b[0] == 37 && 2 < b.len() {
        match (hex_value(b[1]), hex_value(b[2])) {
            (Some(h), Some(l)) => match percent_decode(b.skip(3)) {
                Some(r) => Some(seq![((h * 16 + l) as u8) as char] + r),
                None => None,
            },
            _ => None,
        }
    } else {
        match percent_decode(b.skip(1)) {
            Some(r) => Some(seq![b[0] as char] + r),
            None => None,
        }
    }
}

/// `file://`
pub open spec fn file_scheme() -> Seq<u8> {
    seq![102u8, 105, 108, 101, 58, 47, 47]
}

/// The path of a `file://` URI, or `None` for another scheme or a bad escape.
pub open spec fn uri_to_path_spec(u: Seq<u8>) -> Option<Seq<char>> {
    if u.len() >= 7 && u.take(7) == file_scheme() {
        percent_decode(u.skip(7))
    } else {
        None
    }
}

/// Bytes read as chars of the same number.
pub open spec fn latin1(s: Seq<u8>) -> Seq<char> {
    s.map_values(|b: u8| b as char)
}

fn hex_val(b: u8) -> (r: Option<u32>)
    ensures
        r matches Some(v) ==> hex_value(b) == Some(v as nat),
        r is None ==> hex_value(b) is None,
{
    if 48 <= b && b <= 57 {
        Some((b - 48) as u32)
    } else if 97 <= b && b <= 102 {
        Some((b - 87) as u32)
    } else if 65 <= b && b <= 70 {
        Some((b - 55) as u32)
    } else {
        None
    }
}

/// Decodes a `file://` URI into the path it names.
pub fn uri_to_path(uri: &str) -> (r: Option<Vec<char>>)
    ensures
        r matches Some(p) ==> uri_to_path_spec(uri.spec_bytes()) == Some(p@),
        r is None ==> uri_to_path_spec(uri.spec_bytes()) is None,
{
    let b = uri.as_bytes();
    if b.len() < 7 || b[0] != 102 || b[1] != 105 || b[2] != 108 || b[3] != 101 || b[4] != 58
        || b[5] != 47 || b[6] != 47 {
        proof {
            if b@.len() >= 7 && b@.take(7) == file_scheme() {
                assert(b@.take(7)[0] == b@[0]);
                assert(b@.take(7)[1] == b@[1]);
                assert(b@.take(7)[2] == b@[2]);
                assert(b@.take(7)[3] == b@[3]);
                assert(b@.take(7)[4] == b@[4]);
                assert(b@.take(7)[5] == b@[5]);
                assert(b@.take(7)[6] == b@[6]);
            }
        }
        return None;
    }
    assert(b@.take(7) =~= file_scheme());
    let mut out: Vec<char> = Vec::new();
    let mut i: usize = 7;
    loop
        invariant
            7 <= i <= b@.len(),
            b@ == uri.spec_bytes(),
            uri_to_path_spec(b@) == percent_decode(b@.skip(7)),
            percent_decode(b@.skip(7)) == match percent_decode(b@.skip(i as int)) {
                Some(r) => Some(out@ + r),
                None => None,
            },
        decreases b@.len() - i,
    {
        let ghost rest = b@.skip(i as int);
        if i >= b.len() {
            assert(rest.len() == 0);
            assert(out@ + Seq::<char>::empty() =~= out@);
            return Some(out);
        }
        assert(rest[0] == b@[i as int]);
        if b[i] == 37 && b.len() - i > 2 {
            assert(rest[1] == b@[i + 1]);
            assert(rest[2] == b@[i + 2]);
            let hi = match hex_val(b[i + 1]) {
                Some(v) => v,
                None => {
                    return None;
                },
            };
            let lo = match hex_val(b[i + 2]) {
                Some(v) => v,
                None => {
                    return None;
                },
            };
            let v: u8 = (hi * 16 + lo) as u8;
            let ghost before = out@;
            out.push(v as char);
            assert(rest.skip(3) =~= b@.skip(i + 3));
            proof {
                match percent_decode(b@.skip(i + 3)) {
                    Some(r) => {
                        assert(out@ + r =~= before + (seq![((hi * 16 + lo) as u8) as char] + r));
                    },
                    None => {},
                }
            }
            i = i + 3;
        } else {
            let ghost before = out@;
            out.push(b[i] as char);
            assert(rest.skip(1) =~= b@.skip(i + 1));
            proof {
                match percent_decode(b@.skip(i + 1)) {
                    Some(r) => {
                        assert(out@ + r =~= before + (seq![b@[i as int] as char] + r));
                    },
                    None => {},
                }
            }
            i = i + 1;
        }
    }
}

/// Decoding what `uri_encode` produced gives back every byte, each as the
/// char of the same value.
pub proof fn decode_undoes_encode(s: Seq<u8>)
    ensures
        percent_decode(uri_encode_spec(s)) == Some(latin1(s)),
    decreases s.len(),
{
    if s.len() > 0 {
        decode_undoes_encode(s.skip(1));
        let x = uri_encode_spec(s);
        let b = s[0];
        let tail = uri_encode_spec(s.skip(1));
        assert(latin1(s) =~= seq![b as char] + latin1(s.skip(1)));
        if is_uri_safe(b) {
            assert(x =~= seq![b] + tail);
            assert(x.skip(1) =~= tail);
        } else {
            assert(x =~= seq![37u8, hex_digit_upper(b / 16), hex_digit_upper(b % 16)] + tail);
            assert(x.skip(3) =~= tail);
            assert(hex_value(hex_digit_upper(b / 16)) == Some((b / 16) as nat));
            assert(hex_value(hex_digit_upper(b % 16)) == Some((b % 16) as nat));
            assert(((b / 16) * 16 + b % 16) as u8 == b);
        }
    } else {
        assert(latin1(s) =~= Seq::<char>::empty());
    }
}

/// The URI for a path that is already normalized: backslashes become
/// slashes, a leading `/` is added when missing, and the result is
/// percent-encoded after `file://`.
pub open spec fn path_to_uri_spec(p: Seq<u8>) -> Seq<u8> {
    let slashed = p.map_values(|b: u8| if b == 92 { 47u8 } else { b });
    let rooted = if slashed.len() > 0 && slashed[0] == 47 { slashed } else { seq![47u8] + slashed };
    file_scheme() + uri_encode_spec(rooted)
}

/// Builds the `file://` URI of a normalized path.
pub fn path_to_uri(normalized: &str) -> (r: Vec<u8>)
    ensures
        r@ == path_to_uri_spec(normalized.spec_bytes()),
{
    let b = normalized.as_bytes();
    let mut slashed: Vec<u8> = Vec::new();
    if b.len() == 0 || (b[0] != 47 && b[0] != 92) {
        slashed.push(47);
    }
    let ghost lead = slashed@;
    let mut i: usize = 0;
    while i < b.len()
        invariant
            i <= b@.len(),
            b@ == normalized.spec_bytes(),
            slashed@ == lead + b@.take(i as int).map_values(|x: u8| if x == 92 { 47u8 } else { x }),
        decreases b@.len() - i,
    {
        let c = b[i];
        slashed.push(if c == 92 { 47 } else { c });
        i = i + 1;
        assert(b@.take(i as int).map_values(|x: u8| if x == 92 { 47u8 } else { x }) =~= b@.take(
            i - 1,
        ).map_values(|x: u8| if x == 92 { 47u8 } else { x }).push(if c == 92 { 47u8 } else { c }));
    }
    assert(b@.take(i as int) =~= b@);
    let ghost m = b@.map_values(|x: u8| if x == 92 { 47u8 } else { x });
    assert(slashed@ =~= (if m.len() > 0 && m[0] == 47 { m } else { seq![47u8] + m }));
    let mut out: Vec<u8> = Vec::new();
    out.push(102);
    out.push(105);
    out.push(108);
    out.push(101);
    out.push(58);
    out.push(47);
    out.push(47);
    assert(out@ =~= file_scheme());
    let enc = encode_bytes(slashed.as_slice());
    let ghost o = out@;
    crate::text::push_all(&mut out, enc.as_slice());
    out
}

/// Percent-encodes a byte string (see `uri_encode_spec`).
pub fn encode_bytes(bytes: &[u8]) -> (out: Vec<u8>)
    ensures
        out@ == uri_encode_spec(bytes@),
{
    let mut out: Vec<u8> = Vec::new();
    let mut i: usize = 0;
    assert(bytes@.skip(0) =~= bytes@);
    while i < bytes.len()
        invariant
            i <= bytes@.len(),
            uri_encode_spec(bytes@) == out@ + uri_encode_spec(bytes@.skip(i as int)),
        decreases bytes@.len() - i,
    {
        let b = bytes[i];
        let ghost before = out@;
        proof {
            assert(bytes@.skip(i as int).skip(1) =~= bytes@.skip(i + 1));
            assert(bytes@.skip(i as int)[0] == b);
        }
        if (48 <= b && b <= 57) || (97 <= b && b <= 122) || (65 <= b && b <= 90) || b == 45
            || b == 46 || b == 95 || b == 126 || b == 47 || b == 58 {
            out.push(b);
        } else {
            out.push(37);
            out.push(hex_upper(b / 16));
            out.push(hex_upper(b % 16));
        }
        assert(out@ =~= before + encode_byte(b));
        i = i + 1;
    }
    assert(bytes@.skip(i as int) =~= Seq::<u8>::empty());
    assert(out@ + Seq::<u8>::empty() =~= out@);
    out
}

/// Decoding the URI built for a path gives the path back (bytes read as
/// chars of the same number), after its separators were normalized.
pub proof fn uri_path_roundtrip(p: Seq<u8>)
    ensures
        uri_to_path_spec(path_to_uri_spec(p)) == Some(latin1({
            let slashed = p.map_values(|b: u8| if b == 92 { 47u8 } else { b });
            if slashed.len() > 0 && slashed[0] == 47 { slashed } else { seq![47u8] + slashed }
        })),
{
    let slashed = p.map_values(|b: u8| if b == 92 { 47u8 } else { b });
    let rooted = if slashed.len() > 0 && slashed[0] == 47 { slashed } else { seq![47u8] + slashed };
    let u = path_to_uri_spec(p);
    assert(u.take(7) =~= file_scheme());
    assert(u.skip(7) =~= uri_encode_spec(rooted));
    decode_undoes_encode(rooted);
}

/// For an ASCII path, the `file://` URI that percent-encoding builds decodes
/// to the path itself.
pub proof fn ascii_path_uri_roundtrip(p: Seq<char>)
    requires
        vstd::utf8::is_ascii_chars(p),
    ensures
        uri_to_path_spec(file_scheme() + uri_encode_spec(vstd::utf8::encode_utf8(p))) == Some(p),
{
    let b = vstd::utf8::encode_utf8(p);
    vstd::utf8::is_ascii_chars_encode_utf8(p);
    let u = file_scheme() + uri_encode_spec(b);
    assert(u.take(7) =~= file_scheme());
    assert(u.skip(7) =~= uri_encode_spec(b));
    decode_undoes_encode(b);
    assert forall|i: int| 0 <= i < p.len() implies #[trigger] latin1(b)[i] == p[i] by {
        let c = p[i];
        assert('\0' <= c <= '\u{7f}');
        assert(b[i] == c as u8);
        assert((c as u32) < 128);
        let x = c as u32;
        assert(x < 128 ==> ((x as u8) as u32) == x) by (bit_vector);
    }
    assert(latin1(b) =~= p);
}

} // verus!
