//! The canonical text of a token's parts and their base64 framing: the header
//! `DSWT-<version>/<algorithm>`, the decimal version, and the encoding and decoding of a
//! segment (UTF-8 bytes, then standard base64 with padding).
use vstd::prelude::*;
use vstd::utf8::{decode_utf8, encode_utf8, valid_utf8};
use base64::Engine;
use crate::algorithms::Algorithm;
use crate::error::TokenError;
use crate::text::{
    chars_eq, free_of, join, lemma_join_injective, push_char, split_on, string_of, sub_chars,
    views,
};

verus! {

#[verifier::external_type_specification]
#[verifier::external_body]
pub struct ExDecodeError(base64::DecodeError);

#[verifier::external_type_specification]
#[verifier::external_body]
pub struct ExFromUtf8Error(std::string::FromUtf8Error);

/// The base64 digit of a six-bit value, in the standard alphabet `A-Z a-z 0-9 + /`.
pub open spec fn b64_digit(v: int) -> char {
    if v < 26 {
        (65 + v) as char
    } else if v < 52 {
        (71 + v) as char
    } else if v < 62 {
        (v - 4) as char
    } else if v == 62 {
        '+'
    } else {
        '/'
    }
}

/// Standard base64 with padding (RFC 4648, section 4): each three bytes become four digits,
/// and a final group of one or two bytes is padded with `=` to four characters.
pub open spec fn b64_encode(b: Seq<u8>) -> Seq<char>
    decreases b.len(),
{
    if b.len() == 0 {
        Seq::empty()
    } else if b.len() == 1 {
        let x = b[0] as int;
        seq![b64_digit(x / 4), b64_digit((x % 4) * 16), '=', '=']
    } else if b.len() == 2 {
        let x = b[0] as int;
        let y = b[1] as int;
        seq![b64_digit(x / 4), b64_digit((x % 4) * 16 + y / 16), b64_digit((y % 16) * 4), '=']
    } else {
        let x = b[0] as int;
        let y = b[1] as int;
        let z = b[2] as int;
        seq![
            b64_digit(x / 4),
            b64_digit((x % 4) * 16 + y / 16),
            b64_digit((y % 16) * 4 + z / 64),
            b64_digit(z % 64),
        ] + b64_encode(b.subrange(3, b.len() as int))
    }
}

/// A segment of the wire form: the base64 of the text's UTF-8 bytes.
pub open spec fn seg(text: Seq<char>) -> Seq<char> {
    b64_encode(encode_utf8(text))
}

/// Base64 text never holds the segment separator `;`.
pub proof fn lemma_b64_no_semicolon(b: Seq<u8>)
    ensures
        !b64_encode(b).contains(';'),
    decreases b.len(),
{
    let e = b64_encode(b);
    if b.len() >= 3 {
        lemma_b64_no_semicolon(b.subrange(3, b.len() as int));
    }
    if e.contains(';') {
        let k = choose|k: int| 0 <= k < e.len() && e[k] == ';';
        if b.len() >= 3 && k >= 4 {
            assert(b64_encode(b.subrange(3, b.len() as int))[k - 4] == ';');
        }
    }
}

/// Base64 gives four characters for each started group of three bytes.
pub proof fn lemma_b64_len(b: Seq<u8>)
    ensures
        b64_encode(b).len() == 4 * ((b.len() + 2) / 3),
    decreases b.len(),
{
    if b.len() >= 3 {
        lemma_b64_len(b.subrange(3, b.len() as int));
    }
}

/// Different six-bit values have different digits, and no digit is `=`.
proof fn lemma_b64_digit(a: int, b: int)
    requires
        0 <= a < 64,
        0 <= b < 64,
    ensures
        b64_digit(a) == b64_digit(b) ==> a == b,
        b64_digit(a) != '=',
{
}

/// The four digits of a group of three bytes determine the bytes.
proof fn lemma_b64_group(x: u8, y: u8, z: u8, x2: u8, y2: u8, z2: u8)
    requires
        x / 4 == x2 / 4,
        (x % 4) * 16 + y / 16 == (x2 % 4) * 16 + y2 / 16,
        (y % 16) * 4 + z / 64 == (y2 % 16) * 4 + z2 / 64,
        z % 64 == z2 % 64,
    ensures
        x == x2 && y == y2 && z == z2,
{
    assert(x % 4 == x2 % 4 && y / 16 == y2 / 16);
    assert(y % 16 == y2 % 16 && z / 64 == z2 / 64);
}

/// Base64 encoding is injective: different byte strings have different encodings.
pub proof fn lemma_b64_injective(a: Seq<u8>, b: Seq<u8>)
    requires
        b64_encode(a) == b64_encode(b),
    ensures
        a == b,
    decreases a.len(),
{
    let e = b64_encode(a);
    if a.len() == 0 {
        if b.len() > 0 {
            assert(b64_encode(b).len() > 0);
        }
        assert(a =~= b);
    } else if b.len() == 0 {
        assert(e.len() > 0);
    } else {
        let x = a[0] as int;
        let x2 = b[0] as int;
        assert(e[0] == b64_encode(b)[0]);
        lemma_b64_digit(x / 4, x2 / 4);
        if a.len() < 3 || b.len() < 3 {
            if a.len() >= 3 {
                lemma_b64_digit(a[2] as int % 64, 0);
                assert(e[3] == b64_encode(b)[3]);
            } else if b.len() >= 3 {
                lemma_b64_digit(b[2] as int % 64, 0);
                assert(e[3] == b64_encode(b)[3]);
            } else if a.len() == 1 && b.len() == 2 {
                lemma_b64_digit((b[1] as int % 16) * 4, 0);
                assert(e[2] == b64_encode(b)[2]);
            } else if a.len() == 2 && b.len() == 1 {
                lemma_b64_digit((a[1] as int % 16) * 4, 0);
                assert(e[2] == b64_encode(b)[2]);
            } else if a.len() == 1 {
                assert(e[1] == b64_encode(b)[1]);
                lemma_b64_digit((x % 4) * 16, (x2 % 4) * 16);
                lemma_b64_group(a[0], 0, 0, b[0], 0, 0);
                assert(a =~= b);
            } else {
                let y = a[1] as int;
                let y2 = b[1] as int;
                assert(e[1] == b64_encode(b)[1]);
                assert(e[2] == b64_encode(b)[2]);
                lemma_b64_digit((x % 4) * 16 + y / 16, (x2 % 4) * 16 + y2 / 16);
                lemma_b64_digit((y % 16) * 4, (y2 % 16) * 4);
                lemma_b64_group(a[0], a[1], 0, b[0], b[1], 0);
                assert(a =~= b);
            }
        } else {
            let y = a[1] as int;
            let y2 = b[1] as int;
            let z = a[2] as int;
            let z2 = b[2] as int;
            assert(e[0] == b64_digit(x / 4));
            assert(b64_encode(b)[0] == b64_digit(x2 / 4));
            assert(e[1] == b64_digit((x % 4) * 16 + y / 16));
            assert(b64_encode(b)[1] == b64_digit((x2 % 4) * 16 + y2 / 16));
            assert(e[2] == b64_digit((y % 16) * 4 + z / 64));
            assert(b64_encode(b)[2] == b64_digit((y2 % 16) * 4 + z2 / 64));
            assert(e[3] == b64_digit(z % 64));
            assert(b64_encode(b)[3] == b64_digit(z2 % 64));
            assert(e[1] == b64_encode(b)[1]);
            assert(e[2] == b64_encode(b)[2]);
            assert(e[3] == b64_encode(b)[3]);
            lemma_b64_digit((x % 4) * 16 + y / 16, (x2 % 4) * 16 + y2 / 16);
            lemma_b64_digit((y % 16) * 4 + z / 64, (y2 % 16) * 4 + z2 / 64);
            lemma_b64_digit(z % 64, z2 % 64);
            lemma_b64_group(a[0], a[1], a[2], b[0], b[1], b[2]);
            let ta = a.subrange(3, a.len() as int);
            let tb = b.subrange(3, b.len() as int);
            assert(b64_encode(ta) =~= e.subrange(4, e.len() as int));
            assert(b64_encode(tb) =~= b64_encode(b).subrange(4, e.len() as int));
            lemma_b64_injective(ta, tb);
            assert(a =~= seq![a[0], a[1], a[2]] + ta);
            assert(b =~= seq![b[0], b[1], b[2]] + tb);
        }
    }
}

/// Relies on base64's `STANDARD` engine, `Engine::encode`: the standard alphabet with `=`
/// padding.
#[verifier::external_body]
pub(crate) fn b64_encode_bytes(b: &[u8]) -> (r: String)
    ensures
        r@ == b64_encode(b@),
{
    base64::engine::general_purpose::STANDARD.encode(b)
}

/// Relies on base64's `STANDARD` engine, `Engine::decode`. Its configuration requires
/// canonical padding and refuses non-zero trailing bits, so it accepts exactly the texts
/// that `encode` produces, and gives back bytes whose encoding is the text.
#[verifier::external_body]
pub(crate) fn b64_decode_str(s: &str) -> (r: Result<Vec<u8>, base64::DecodeError>)
    ensures
        match r {
            Ok(v) => b64_encode(v@) == s@,
            Err(_) => forall|x: Seq<u8>| b64_encode(x) != s@,
        },
{
    base64::engine::general_purpose::STANDARD.decode(s)
}

/// Relies on `String::from_utf8`: it succeeds exactly on valid UTF-8 and then holds the
/// characters those bytes encode.
#[verifier::external_body]
fn utf8_string(b: Vec<u8>) -> (r: Result<String, std::string::FromUtf8Error>)
    ensures
        match r {
            Ok(s) => valid_utf8(b@) && s@ == decode_utf8(b@),
            Err(_) => !valid_utf8(b@),
        },
{
    String::from_utf8(b)
}

/// The segment of `text`.
pub fn encode_segment(text: &str) -> (r: String)
    ensures
        r@ == seg(text@),
{
    b64_encode_bytes(text.as_bytes())
}

/// Reads a segment back into its text. It succeeds exactly on the segments of texts, and
/// then gives that text.
pub fn decode_segment(part: &str) -> (r: Result<String, TokenError>)
    ensures
        match r {
            Ok(t) => seg(t@) == part@,
            Err(e) => e == TokenError::MalformedToken && forall|t: Seq<char>| seg(t) != part@,
        },
        forall|t: Seq<char>| seg(t) == part@ ==> (r is Ok && r->Ok_0@ == t),
{
    broadcast use vstd::utf8::encode_utf8_valid_utf8, vstd::utf8::encode_utf8_decode_utf8;

    match b64_decode_str(part) {
        Ok(bytes) => {
            let ghost bv = bytes@;
            proof {
                assert forall|t: Seq<char>| seg(t) == part@ implies encode_utf8(t) == bv by {
                    lemma_b64_injective(encode_utf8(t), bv);
                }
            }
            match utf8_string(bytes) {
                Ok(s) => {
                    proof {
                        vstd::utf8::decode_utf8_encode_utf8(bv);
                    }
                    Ok(s)
                },
                Err(_) => Err(TokenError::MalformedToken),
            }
        },
        Err(_) => Err(TokenError::MalformedToken),
    }
}

/// The decimal digit of `d`.
pub open spec fn digit(d: int) -> char {
    (48 + d) as char
}

/// The decimal form of `v`, without leading zeros.
pub open spec fn dec(v: u8) -> Seq<char> {
    let v = v as int;
    if v < 10 {
        seq![digit(v)]
    } else if v < 100 {
        seq![digit(v / 10), digit(v % 10)]
    } else {
        seq![digit(v / 100), digit((v / 10) % 10), digit(v % 10)]
    }
}

/// A decimal form holds only digits, so no `/`.
pub proof fn lemma_dec_no_slash(v: u8)
    ensures
        !dec(v).contains('/'),
{
    let d = dec(v);
    if d.contains('/') {
        let k = choose|k: int| 0 <= k < d.len() && d[k] == '/';
        assert(d[k] != '/');
    }
}

/// Different numbers have different decimal forms.
pub proof fn lemma_dec_injective(a: u8, b: u8)
    requires
        dec(a) == dec(b),
    ensures
        a == b,
{
    let da = dec(a);
    let db = dec(b);
    assert(da.len() == db.len());
    if a < 10 {
        assert(da[0] == db[0]);
    } else if a < 100 {
        assert(da[0] == db[0]);
        assert(da[1] == db[1]);
    } else {
        assert(da[0] == db[0]);
        assert(da[1] == db[1]);
        assert(da[2] == db[2]);
    }
}

fn digit_char(d: u8) -> (r: char)
    requires
        d < 10,
    ensures
        r == digit(d as int),
{
    ((48 + d) as u8) as char
}

/// The decimal form of `v`, as characters.
pub fn dec_chars(v: u8) -> (r: Vec<char>)
    ensures
        r@ == dec(v),
{
    let mut out: Vec<char> = Vec::new();
    if v >= 100 {
        out.push(digit_char(v / 100));
    }
    if v >= 10 {
        out.push(digit_char((v / 10) % 10));
    }
    out.push(digit_char(v % 10));
    proof {
        if v < 10 {
        } else if v < 100 {
            assert(v / 10 < 10);
            assert((v / 10) % 10 == v / 10);
        }
    }
    assert(out@ =~= dec(v));
    out
}

/// The number whose decimal form is `digits`, if there is one that fits a byte.
pub fn version_of(digits: &[char]) -> (r: Option<u8>)
    ensures
        match r {
            Some(v) => dec(v) == digits@,
            None => forall|v: u8| dec(v) != digits@,
        },
{
    let mut v: u16 = 0;
    while v < 256
        invariant
            v <= 256,
            forall|w: u8| w < v ==> dec(w) != digits@,
        decreases 256 - v,
    {
        let d = dec_chars(v as u8);
        if chars_eq(&d, digits) {
            return Some(v as u8);
        }
        v = v + 1;
    }
    None
}

/// The text `DSWT-` that opens every header.
pub open spec fn magic() -> Seq<char> {
    seq!['D', 'S', 'W', 'T', '-']
}

/// A header naming the algorithm `name`, registered or not.
pub open spec fn named_header(version: u8, name: Seq<char>) -> Seq<char> {
    magic() + dec(version) + seq!['/'] + name
}

/// The header of a token of that version and algorithm: `DSWT-<version>/<algorithm>`.
pub open spec fn header_text(version: u8, alg: Algorithm) -> Seq<char> {
    named_header(version, alg.name())
}

/// A header that is well formed but names an algorithm that is not registered.
pub open spec fn unknown_header(text: Seq<char>) -> bool {
    exists|v: u8, name: Seq<char>|
        text == #[trigger] named_header(v, name) && !name.contains('/') && Algorithm::named(
            name,
        ) is None
}

/// The header of a token of that version and algorithm.
pub fn header_string(version: u8, alg: Algorithm) -> (r: String)
    ensures
        r@ == header_text(version, alg),
{
    proof {
        reveal_strlit("DSWT-");
        reveal_strlit("/");
    }
    let mut s = "DSWT-".to_owned();
    let d = dec_chars(version);
    let ds = string_of(&d);
    s.append(ds.as_str());
    s.append("/");
    let n = alg.to_string();
    s.append(n.as_str());
    assert(s@ =~= header_text(version, alg));
    s
}

/// The parts of a header split on `/`, when it is `named_header(v, name)`.
proof fn lemma_header_parts(v: u8, name: Seq<char>)
    requires
        !name.contains('/'),
    ensures
        named_header(v, name) == join(seq![magic() + dec(v), name], '/'),
        free_of(seq![magic() + dec(v), name], '/'),
{
    let p = seq![magic() + dec(v), name];
    assert(p.drop_last() =~= seq![magic() + dec(v)]);
    assert(join(p.drop_last(), '/') == magic() + dec(v));
    assert(p.last() == name);
    assert(named_header(v, name) =~= join(p, '/'));
    lemma_dec_no_slash(v);
    assert(!(magic() + dec(v)).contains('/')) by {
        let m = magic() + dec(v);
        if m.contains('/') {
            let k = choose|k: int| 0 <= k < m.len() && m[k] == '/';
            if k >= 5 {
                assert(dec(v)[k - 5] == '/');
            }
        }
    }
}

/// Reads a header. It gives the version and algorithm exactly when the text is the header
/// of some token; `UnknownAlgorithm` exactly when it is well formed but names an algorithm
/// that is not registered; `MalformedToken` otherwise.
pub fn read_header(text: &[char]) -> (r: Result<(u8, Algorithm), TokenError>)
    ensures
        match r {
            Ok((v, a)) => header_text(v, a) == text@ && !unknown_header(text@),
            Err(e) => (e == TokenError::UnknownAlgorithm) == unknown_header(text@) && (e
                == TokenError::UnknownAlgorithm || e == TokenError::MalformedToken),
        },
        forall|v: u8, a: Algorithm| header_text(v, a) == text@ ==> r == Ok::<(u8, Algorithm), TokenError>((v, a)),
{
    proof {
        reveal_strlit("DSWT-");
    }
    let parts = split_on(text, '/');
    let ghost pv = views(parts@);
    proof {
        assert forall|v: u8, name: Seq<char>|
            #[trigger] named_header(v, name) == text@ && !name.contains('/') implies pv == seq![
            magic() + dec(v), name] by {
            lemma_header_parts(v, name);
            lemma_join_injective(pv, seq![magic() + dec(v), name], '/');
        }
    }
    if parts.len() != 2 {
        proof {
            assert forall|v: u8, name: Seq<char>|
                !(#[trigger] named_header(v, name) == text@ && !name.contains('/')) by {
                if named_header(v, name) == text@ && !name.contains('/') {
                    assert(pv.len() == 2);
                }
            }
            assert forall|v: u8, a: Algorithm| header_text(v, a) != text@ by {
                assert(!a.name().contains('/')) by {
                    assert(a.name()[0] != '/' && a.name()[1] != '/' && a.name()[2] != '/'
                        && a.name()[3] != '/' && a.name()[4] != '/');
                }
            }
        }
        return Err(TokenError::MalformedToken);
    }
    let first = &parts[0];
    let name = &parts[1];
    assert(pv[0] == first@ && pv[1] == name@);
    let m = chars_of_magic();
    if first.len() < 5 || !chars_eq(&sub_chars(first, 0, 5), &m) {
        proof {
            assert forall|v: u8, nm: Seq<char>|
                !(#[trigger] named_header(v, nm) == text@ && !nm.contains('/')) by {
                if named_header(v, nm) == text@ && !nm.contains('/') {
                    assert(first@ == magic() + dec(v));
                    assert(first@.subrange(0, 5) =~= magic());
                }
            }
            lemma_names_have_no_slash();
        }
        return Err(TokenError::MalformedToken);
    }
    let digits = sub_chars(first, 5, first.len());
    let version = match version_of(&digits) {
        Some(v) => v,
        None => {
            proof {
                assert forall|v: u8, nm: Seq<char>|
                    !(#[trigger] named_header(v, nm) == text@ && !nm.contains('/')) by {
                    if named_header(v, nm) == text@ && !nm.contains('/') {
                        assert(first@ == magic() + dec(v));
                        assert(digits@ =~= dec(v));
                    }
                }
                lemma_names_have_no_slash();
            }
            return Err(TokenError::MalformedToken);
        },
    };
    proof {
        assert(first@ =~= magic() + dec(version));
        assert forall|v: u8, nm: Seq<char>|
            #[trigger] named_header(v, nm) == text@ && !nm.contains('/') implies v == version
            && nm == name@ by {
            assert(first@ == magic() + dec(v));
            assert(digits@ =~= dec(v));
            lemma_dec_injective(v, version);
        }
        lemma_names_have_no_slash();
        assert(!name@.contains('/')) by {
            assert(pv[1] == name@);
        }
        assert(text@ == named_header(version, name@)) by {
            lemma_header_parts(version, name@);
            assert(pv =~= seq![magic() + dec(version), name@]);
        }
    }
    match Algorithm::from_name_chars(name) {
        Some(a) => Ok((version, a)),
        None => Err(TokenError::UnknownAlgorithm),
    }
}

/// The characters of `DSWT-`.
fn chars_of_magic() -> (r: Vec<char>)
    ensures
        r@ == magic(),
{
    proof {
        reveal_strlit("DSWT-");
    }
    let r = crate::text::chars_of("DSWT-");
    assert(r@ =~= magic());
    r
}

/// No registered algorithm's name holds `/`.
proof fn lemma_names_have_no_slash()
    ensures
        forall|a: Algorithm| !(#[trigger] a.name()).contains('/'),
{
    assert forall|a: Algorithm| !(#[trigger] a.name()).contains('/') by {
        let n = a.name();
        if n.contains('/') {
            let k = choose|k: int| 0 <= k < n.len() && n[k] == '/';
            assert(n[k] != '/');
        }
    }
}

} // verus!
