//! Byte and text encodings: Base64 (through the `base64` crate), UTF-8 and decimal integers.
use vstd::prelude::*;
use vstd::string::*;
use vstd::utf8::*;

verus! {

broadcast use vstd::string::group_string_axioms;

// ---------------------------------------------------------------------------
// Base64 (standard alphabet, padded), as `base64::encode` / `base64::decode` do it.
// ---------------------------------------------------------------------------

/// The character of the standard Base64 alphabet for the six bits `v`.
pub open spec fn b64_digit(v: int) -> char {
    if v < 26 {
        (65 + v) as char
    } else if v < 52 {
        (97 + v - 26) as char
    } else if v < 62 {
        (48 + v - 52) as char
    } else if v == 62 {
        '+'
    } else {
        '/'
    }
}

/// The standard Base64 encoding of `data` (alphabet `A-Z a-z 0-9 + /`, padded with `=`):
/// each three bytes become four characters of six bits each; a last one or two bytes become
/// two or three characters and `=` padding.
pub open spec fn base64_encode_spec(data: Seq<u8>) -> Seq<char>
    decreases data.len(),
{
    if data.len() == 0 {
        seq![]
    } else if data.len() == 1 {
        let a = data[0] as int;
        seq![b64_digit(a / 4), b64_digit((a % 4) * 16), '=', '=']
    } else if data.len() == 2 {
        let a = data[0] as int;
        let b = data[1] as int;
        seq![b64_digit(a / 4), b64_digit((a % 4) * 16 + b / 16), b64_digit((b % 16) * 4), '=']
    } else {
        let a = data[0] as int;
        let b = data[1] as int;
        let c = data[2] as int;
        seq![
            b64_digit(a / 4),
            b64_digit((a % 4) * 16 + b / 16),
            b64_digit((b % 16) * 4 + c / 64),
            b64_digit(c % 64),
        ] + base64_encode_spec(data.subrange(3, data.len() as int))
    }
}

proof fn lemma_b64_digit(v: int)
    requires
        0 <= v < 64,
    ensures
        is_base64_char(b64_digit(v)),
{
}

/// The Base64 encoding uses only the Base64 alphabet, and is empty exactly when the data is.
pub proof fn lemma_base64_encode_alphabet(data: Seq<u8>)
    ensures
        all_base64(base64_encode_spec(data)),
        base64_encode_spec(data).len() == 0 <==> data.len() == 0,
    decreases data.len(),
{
    let e = base64_encode_spec(data);
    if data.len() == 0 {
    } else {
        let a = data[0] as int;
        assert(0 <= a / 4 < 64);
        lemma_b64_digit(a / 4);
        assert(0 <= (a % 4) * 16 < 64);
        lemma_b64_digit((a % 4) * 16);
        if data.len() == 1 {
            assert forall|i: int| 0 <= i < e.len() implies is_base64_char(#[trigger] e[i]) by {
                assert(i < 4);
            }
        } else {
            let b = data[1] as int;
            assert(0 <= (a % 4) * 16 + b / 16 < 64);
            lemma_b64_digit((a % 4) * 16 + b / 16);
            assert(0 <= (b % 16) * 4 < 64);
            lemma_b64_digit((b % 16) * 4);
            if data.len() == 2 {
                assert forall|i: int| 0 <= i < e.len() implies is_base64_char(#[trigger] e[i]) by {
                    assert(i < 4);
                }
            } else {
                let c = data[2] as int;
                assert(0 <= (b % 16) * 4 + c / 64 < 64);
                lemma_b64_digit((b % 16) * 4 + c / 64);
                lemma_b64_digit(c % 64);
                let rest = data.subrange(3, data.len() as int);
                lemma_base64_encode_alphabet(rest);
                let head = seq![
                    b64_digit(a / 4),
                    b64_digit((a % 4) * 16 + b / 16),
                    b64_digit((b % 16) * 4 + c / 64),
                    b64_digit(c % 64),
                ];
                assert forall|i: int| 0 <= i < e.len() implies is_base64_char(#[trigger] e[i]) by {
                    if i < 4 {
                        assert(e[i] == head[i]);
                    } else {
                        assert(e[i] == base64_encode_spec(rest)[i - 4]);
                    }
                }
            }
        }
    }
}

/// What `base64::decode` returns for the text `text`: the bytes, or `None` for invalid input.
pub uninterp spec fn base64_decode_spec(text: Seq<u8>) -> Option<Seq<u8>>;

/// The characters of the standard Base64 alphabet, padding included.
pub open spec fn is_base64_char(c: char) -> bool {
    ||| 'A' <= c <= 'Z'
    ||| 'a' <= c <= 'z'
    ||| '0' <= c <= '9'
    ||| c == '+'
    ||| c == '/'
    ||| c == '='
}

/// Every character of `s` belongs to the Base64 alphabet.
pub open spec fn all_base64(s: Seq<char>) -> bool {
    forall|i: int| 0 <= i < s.len() ==> is_base64_char(#[trigger] s[i])
}

/// Encodes `data` as Base64 with `base64::encode`.
///
/// Trusted: the result is the standard padded encoding `base64_encode_spec` of the input,
/// and `base64::decode` of its bytes gives the input back (the round trip that the crate
/// documents and tests).
#[verifier::external_body]
fn base64_encode_std(data: &[u8]) -> (res: String)
    requires
        data@.len() <= isize::MAX,
    ensures
        res@ == base64_encode_spec(data@),
        base64_decode_spec(encode_utf8(res@)) == Some(data@),
{
    #[allow(deprecated)]
    base64::encode(data)
}

/// The Base64 encoding of `data`: only Base64 characters, empty exactly when `data` is, and
/// decoding back to `data`.
pub(crate) fn base64_encode(data: &[u8]) -> (res: String)
    requires
        data@.len() <= isize::MAX,
    ensures
        res@ == base64_encode_spec(data@),
        all_base64(res@),
        res@.len() == 0 <==> data@.len() == 0,
        base64_decode_spec(encode_utf8(res@)) == Some(data@),
{
    proof {
        lemma_base64_encode_alphabet(data@);
    }
    base64_encode_std(data)
}

/// Decodes the Base64 text `text` with `base64::decode`; `None` where the crate returns an error.
///
/// Trusted: the result is the name `base64_decode_spec` of the input bytes.
#[verifier::external_body]
pub(crate) fn base64_decode(text: &[u8]) -> (res: Option<Vec<u8>>)
    ensures
        match res {
            Some(v) => base64_decode_spec(text@) == Some(v@) && v@.len() <= isize::MAX,
            None => base64_decode_spec(text@) is None,
        },
{
    #[allow(deprecated)]
    base64::decode(text).ok()
}

// ---------------------------------------------------------------------------
// UTF-8 and strings (std).
// ---------------------------------------------------------------------------

/// The UTF-8 bytes of `s` (`str::as_bytes`).
///
/// Trusted: the bytes are the UTF-8 encoding of the characters, and, as for every slice,
/// there are at most `isize::MAX` of them.
#[verifier::external_body]
pub(crate) fn utf8_bytes(s: &str) -> (b: &[u8])
    ensures
        b@ == encode_utf8(s@),
        b@.len() <= isize::MAX,
{
    s.as_bytes()
}

/// The bytes of `v` as a slice (`Vec::as_slice`).
///
/// Trusted: the slice holds the bytes of the vector, and, as every allocation, at most
/// `isize::MAX` of them.
#[verifier::external_body]
pub(crate) fn vec_bytes(v: &Vec<u8>) -> (b: &[u8])
    ensures
        b@ == v@,
        b@.len() <= isize::MAX,
{
    v.as_slice()
}

/// `std::str::from_utf8`: the text that `bytes` encode, or `None` where they are not UTF-8.
///
/// Trusted: `Some` exactly for valid UTF-8, and then the characters that the bytes encode.
#[verifier::external_body]
pub(crate) fn str_from_utf8(bytes: &[u8]) -> (res: Option<&str>)
    ensures
        res is Some <==> valid_utf8(bytes@),
        res matches Some(s) ==> s@ == decode_utf8(bytes@),
{
    std::str::from_utf8(bytes).ok()
}

/// Appends `c` to `s` (`String::push`).
#[verifier::external_body]
pub(crate) fn push_char(s: &mut String, c: char)
    ensures
        final(s)@ == old(s)@.push(c),
{
    s.push(c)
}

/// Appends `t` to `s`.
pub(crate) fn push_str(s: &mut String, t: &str)
    ensures
        final(s)@ == old(s)@ + t@,
{
    s.append(t)
}

/// A new `String` holding the characters of `t`.
pub(crate) fn to_owned_string(t: &str) -> (res: String)
    ensures
        res@ == t@,
{
    t.to_owned()
}

/// What the text of a Base64 string decodes to: `None` where the text is not Base64 or
/// the bytes are not UTF-8.
pub open spec fn decode_base64_spec(text: Seq<char>) -> Option<Seq<char>> {
    match base64_decode_spec(encode_utf8(text)) {
        Some(b) => if valid_utf8(b) {
            Some(decode_utf8(b))
        } else {
            None
        },
        None => None,
    }
}

/// Base64-decodes `text` and reads the bytes as UTF-8 text.
pub fn try_decode_base64(text: &str) -> (res: Option<String>)
    ensures
        match res {
            Some(s) => decode_base64_spec(text@) == Some(s@),
            None => decode_base64_spec(text@) is None,
        },
{
    match base64_decode(utf8_bytes(text)) {
        Some(bytes) => match str_from_utf8(vec_bytes(&bytes)) {
            Some(s) => Some(to_owned_string(s)),
            None => None,
        },
        None => None,
    }
}

/// The Base64 text of the UTF-8 bytes of `s`.
pub open spec fn encode_base64_text(s: Seq<char>) -> Seq<char> {
    base64_encode_spec(encode_utf8(s))
}

/// Base64-encodes the UTF-8 bytes of `s`.
pub fn encode_base64_str(s: &str) -> (res: String)
    ensures
        res@ == encode_base64_text(s@),
        all_base64(res@),
        res@.len() == 0 <==> s@.len() == 0,
        decode_base64_spec(res@) == Some(s@),
{
    let b = utf8_bytes(s);
    proof {
        encode_utf8_valid_utf8(s@);
        encode_utf8_decode_utf8(s@);
        if s@.len() > 0 {
            encode_utf8_first_scalar(s@);
        }
    }
    base64_encode(b)
}

/// The Base64 text of `data`, with what `base64_encode` promises of it.
pub fn encode_base64_bytes(data: &Vec<u8>) -> (res: String)
    ensures
        res@ == base64_encode_spec(data@),
        all_base64(res@),
        res@.len() == 0 <==> data@.len() == 0,
        base64_decode_spec(encode_utf8(res@)) == Some(data@),
{
    base64_encode(vec_bytes(data))
}

}

verus! {

// ---------------------------------------------------------------------------
// Decimal integers, as `i32`'s `Display` writes them and `str::parse::<i32>` reads them.
// ---------------------------------------------------------------------------

/// The character of the decimal digit `d`.
pub open spec fn digit_char(d: int) -> char {
    (48 + d) as char
}

/// Whether `c` is an ASCII decimal digit.
pub open spec fn is_digit(c: char) -> bool {
    '0' <= c <= '9'
}

/// The value of the decimal digit `c`.
pub open spec fn digit_value(c: char) -> int {
    c as int - 48
}

/// The decimal digits of `n`, without leading zeros.
pub open spec fn dec_nat(n: nat) -> Seq<char>
    decreases n,
{
    if n < 10 {
        seq![digit_char(n as int)]
    } else {
        dec_nat(n / 10).push(digit_char((n % 10) as int))
    }
}

/// `n` written in decimal, with a leading `-` when it is negative.
pub open spec fn dec_int(n: int) -> Seq<char> {
    if n < 0 {
        seq!['-'] + dec_nat((-n) as nat)
    } else {
        dec_nat(n as nat)
    }
}

/// Every character of `s` is a decimal digit.
pub open spec fn all_digits(s: Seq<char>) -> bool {
    forall|i: int| 0 <= i < s.len() ==> is_digit(#[trigger] s[i])
}

/// The number that the decimal digits `s` denote.
pub open spec fn digits_value(s: Seq<char>) -> int
    decreases s.len(),
{
    if s.len() == 0 {
        0
    } else {
        digits_value(s.drop_last()) * 10 + digit_value(s.last())
    }
}

/// What `str::parse::<i32>` returns for `s`: an optional `+` or `-`, then one or more
/// decimal digits whose value fits in an `i32`; `None` for anything else.
pub open spec fn parse_i32_spec(s: Seq<char>) -> Option<i32> {
    let neg = s.len() > 0 && s[0] == '-';
    let signed = s.len() > 0 && (s[0] == '-' || s[0] == '+');
    let d = if signed {
        s.drop_first()
    } else {
        s
    };
    if d.len() > 0 && all_digits(d) {
        let v = if neg {
            -digits_value(d)
        } else {
            digits_value(d)
        };
        if i32::MIN <= v <= i32::MAX {
            Some(v as i32)
        } else {
            None
        }
    } else {
        None
    }
}

proof fn lemma_digit_char(d: int)
    requires
        0 <= d < 10,
    ensures
        is_digit(digit_char(d)),
        digit_value(digit_char(d)) == d,
{
    assert((48 + d) as char as int == 48 + d);
}

/// A number written in decimal is a non-empty run of digits that denotes the number.
pub proof fn lemma_dec_nat(n: nat)
    ensures
        dec_nat(n).len() > 0,
        all_digits(dec_nat(n)),
        digits_value(dec_nat(n)) == n,
    decreases n,
{
    if n >= 10 {
        lemma_dec_nat(n / 10);
        let s = dec_nat(n);
        assert(s.drop_last() =~= dec_nat(n / 10));
        lemma_digit_char((n % 10) as int);
        assert(s.last() == digit_char((n % 10) as int));
        assert(digits_value(s) == digits_value(dec_nat(n / 10)) * 10 + (n % 10) as int);
        let q: int = (n / 10) as int;
        let r: int = (n % 10) as int;
        assert(digits_value(dec_nat(n / 10)) == q);
        assert(n as int == q * 10 + r) by (nonlinear_arith)
            requires q == n / 10, r == n % 10;
        assert(digits_value(s) == q * 10 + r);
        assert(digits_value(dec_nat(n)) == n);
    } else {
        lemma_digit_char(n as int);
        assert(dec_nat(n).drop_last() =~= Seq::<char>::empty());
        assert(digits_value(Seq::<char>::empty()) == 0);
        assert(digits_value(dec_nat(n)) == n);
    }
}

/// Reading back what `i32` writes in decimal gives the number again.
pub proof fn lemma_parse_dec_i32(n: i32)
    ensures
        parse_i32_spec(dec_int(n as int)) == Some(n),
        dec_int(n as int).len() > 0,
{
    if n < 0 {
        lemma_dec_nat((-n) as nat);
        let s = dec_int(n as int);
        assert(s.drop_first() =~= dec_nat((-n) as nat));
    } else {
        lemma_dec_nat(n as nat);
    }
}

proof fn lemma_digits_value_grows(s: Seq<char>, k: int)
    requires
        0 <= k <= s.len(),
        all_digits(s),
    ensures
        digits_value(s.take(k)) <= digits_value(s),
        0 <= digits_value(s.take(k)),
    decreases s.len() - k,
{
    if k < s.len() {
        lemma_digits_value_grows(s, k + 1);
        assert(s.take(k + 1).drop_last() =~= s.take(k));
        assert(is_digit(s[k]));
    } else {
        assert(s.take(k) =~= s);
        lemma_digits_value_nonneg(s);
    }
}

proof fn lemma_digits_value_nonneg(s: Seq<char>)
    requires
        all_digits(s),
    ensures
        0 <= digits_value(s),
    decreases s.len(),
{
    if s.len() > 0 {
        lemma_digits_value_nonneg(s.drop_last());
        assert(is_digit(s.last()));
    }
}

fn push_dec_u32(s: &mut String, m: u32)
    ensures
        final(s)@ == old(s)@ + dec_nat(m as nat),
    decreases m,
{
    if m >= 10 {
        push_dec_u32(s, m / 10);
    }
    let d = (m % 10) as u8;
    let c = (48u8 + d) as char;
    push_char(s, c);
    proof {
        if m >= 10 {
            assert(old(s)@ + dec_nat(m as nat) =~= old(s)@ + dec_nat((m / 10) as nat) + seq![c]);
        } else {
            assert(old(s)@ + dec_nat(m as nat) =~= old(s)@.push(c));
        }
    }
}

/// `n` in decimal, as `format!("{}", n)` writes it.
pub fn i32_to_decimal(n: i32) -> (res: String)
    ensures
        res@ == dec_int(n as int),
{
    let mut s = String::new();
    if n < 0 {
        push_char(&mut s, '-');
        let m: u32 = (-(n as i64)) as u32;
        push_dec_u32(&mut s, m);
    } else {
        push_dec_u32(&mut s, n as u32);
    }
    s
}

/// Parses `t` as an `i32` the way `str::parse::<i32>` does; `None` where it fails.
pub fn parse_i32(t: &str) -> (res: Option<i32>)
    ensures
        res == parse_i32_spec(t@),
{
    let chars = crate::text::str_chars(t);
    let n = chars.len();
    if n == 0 {
        return None;
    }
    let neg = chars[0] == '-';
    let signed = chars[0] == '-' || chars[0] == '+';
    let start: usize = if signed {
        1
    } else {
        0
    };
    let ghost d = if signed {
        chars@.drop_first()
    } else {
        chars@
    };
    assert(d =~= chars@.subrange(start as int, n as int));
    if start == n {
        return None;
    }
    let mut acc: i64 = 0;
    let mut i = start;
    while i < n
        invariant
            start <= i <= n,
            n == chars@.len(),
            chars@ == t@,
            neg == (chars@[0] == '-'),
            signed == (chars@[0] == '-' || chars@[0] == '+'),
            d == (if signed { chars@.drop_first() } else { chars@ }),
            d == chars@.subrange(start as int, n as int),
            all_digits(d.take(i - start)),
            acc == digits_value(d.take(i - start)),
            0 <= acc <= 0x8000_0000,
        decreases n - i,
    {
        let c = chars[i];
        if !('0' <= c && c <= '9') {
            assert(d[i - start] == c);
            assert(!all_digits(d));
            return None;
        }
        let v = (c as u32 - 48) as i64;
        assert(d.take(i + 1 - start).drop_last() =~= d.take(i - start));
        acc = acc * 10 + v;
        if acc > 0x8000_0000 {
            proof {
                if all_digits(d) {
                    lemma_digits_value_grows(d, i + 1 - start);
                    assert(digits_value(d) > 0x8000_0000);
                }
            }
            return None;
        }
        i = i + 1;
    }
    assert(d.take(n - start) =~= d);
    if neg {
        Some((-acc) as i32)
    } else if acc <= 0x7fff_ffff {
        Some(acc as i32)
    } else {
        None
    }
}

}

verus! {

/// What `str::parse` returns for an integer type with the bounds `lo` and `hi`: an optional
/// `+` (or `-`, for a signed type), then one or more decimal digits whose value lies within
/// the bounds; `None` for anything else.
pub open spec fn parse_num_spec(s: Seq<char>, signed: bool, lo: int, hi: int) -> Option<int> {
    let neg = signed && s.len() > 0 && s[0] == '-';
    let has_sign = s.len() > 0 && (s[0] == '+' || (signed && s[0] == '-'));
    let d = if has_sign {
        s.drop_first()
    } else {
        s
    };
    if d.len() > 0 && all_digits(d) {
        let v = if neg {
            -digits_value(d)
        } else {
            digits_value(d)
        };
        if lo <= v <= hi {
            Some(v)
        } else {
            None
        }
    } else {
        None
    }
}

fn parse_num(t: &str, signed: bool, lo: i128, hi: i128) -> (res: Option<i128>)
    requires
        -0x1_0000_0000_0000_0000 <= lo <= 0 <= hi <= 0x1_0000_0000_0000_0000,
    ensures
        match res {
            Some(v) => parse_num_spec(t@, signed, lo as int, hi as int) == Some(v as int),
            None => parse_num_spec(t@, signed, lo as int, hi as int) is None,
        },
{
    let chars = crate::text::str_chars(t);
    let n = chars.len();
    if n == 0 {
        return None;
    }
    let neg = signed && chars[0] == '-';
    let has_sign = chars[0] == '+' || (signed && chars[0] == '-');
    let start: usize = if has_sign {
        1
    } else {
        0
    };
    let ghost d = if has_sign {
        chars@.drop_first()
    } else {
        chars@
    };
    assert(d =~= chars@.subrange(start as int, n as int));
    if start == n {
        return None;
    }
    let mut acc: i128 = 0;
    let mut i = start;
    while i < n
        invariant
            start <= i <= n,
            n == chars@.len(),
            chars@ == t@,
            d == chars@.subrange(start as int, n as int),
            neg == (signed && chars@[0] == '-'),
            has_sign == (chars@[0] == '+' || (signed && chars@[0] == '-')),
            d == (if has_sign { chars@.drop_first() } else { chars@ }),
            -0x1_0000_0000_0000_0000 <= lo <= 0 <= hi <= 0x1_0000_0000_0000_0000,
            all_digits(d.take(i - start)),
            acc == digits_value(d.take(i - start)),
            0 <= acc <= 0x1_0000_0000_0000_0000,
        decreases n - i,
    {
        let c = chars[i];
        if !('0' <= c && c <= '9') {
            assert(d[i - start] == c);
            assert(!all_digits(d));
            return None;
        }
        let v = (c as u32 - 48) as i128;
        assert(d.take(i + 1 - start).drop_last() =~= d.take(i - start));
        acc = acc * 10 + v;
        if acc > 0x1_0000_0000_0000_0000 {
            proof {
                if all_digits(d) {
                    lemma_digits_value_grows(d, i + 1 - start);
                    assert(digits_value(d) > 0x1_0000_0000_0000_0000);
                }
            }
            return None;
        }
        i = i + 1;
    }
    assert(d.take(n - start) =~= d);
    let v = if neg {
        -acc
    } else {
        acc
    };
    if lo <= v && v <= hi {
        Some(v)
    } else {
        None
    }
}

/// Parses `t` as a `usize` the way `str::parse::<usize>` does; `None` where it fails.
pub fn parse_usize(t: &str) -> (res: Option<usize>)
    ensures
        match res {
            Some(v) => parse_num_spec(t@, false, 0, usize::MAX as int) == Some(v as int),
            None => parse_num_spec(t@, false, 0, usize::MAX as int) is None,
        },
{
    match parse_num(t, false, 0, usize::MAX as i128) {
        Some(v) => Some(v as usize),
        None => None,
    }
}

/// Parses `t` as an `i64` the way `str::parse::<i64>` does; `None` where it fails.
pub fn parse_i64(t: &str) -> (res: Option<i64>)
    ensures
        match res {
            Some(v) => parse_num_spec(t@, true, i64::MIN as int, i64::MAX as int) == Some(v as int),
            None => parse_num_spec(t@, true, i64::MIN as int, i64::MAX as int) is None,
        },
{
    match parse_num(t, true, i64::MIN as i128, i64::MAX as i128) {
        Some(v) => Some(v as i64),
        None => None,
    }
}

pub(crate) fn push_dec_u64(s: &mut String, m: u64)
    ensures
        final(s)@ == old(s)@ + dec_nat(m as nat),
    decreases m,
{
    if m >= 10 {
        push_dec_u64(s, m / 10);
    }
    let d = (m % 10) as u8;
    let c = (48u8 + d) as char;
    push_char(s, c);
    proof {
        if m >= 10 {
            assert(old(s)@ + dec_nat(m as nat) =~= old(s)@ + dec_nat((m / 10) as nat) + seq![c]);
        } else {
            assert(old(s)@ + dec_nat(m as nat) =~= old(s)@.push(c));
        }
    }
}

/// `n` in decimal, as `format!("{}", n)` writes it.
pub fn usize_to_decimal(n: usize) -> (res: String)
    ensures
        res@ == dec_int(n as int),
{
    let mut s = String::new();
    push_dec_u64(&mut s, n as u64);
    s
}

/// `n` in decimal, as `format!("{}", n)` writes it.
pub fn i64_to_decimal(n: i64) -> (res: String)
    ensures
        res@ == dec_int(n as int),
{
    let mut s = String::new();
    if n < 0 {
        push_char(&mut s, '-');
        let m: u64 = (-(n as i128)) as u64;
        push_dec_u64(&mut s, m);
    } else {
        push_dec_u64(&mut s, n as u64);
    }
    s
}

/// Reading back what an integer writes in decimal gives the number again.
pub proof fn lemma_parse_dec(n: int, signed: bool, lo: int, hi: int)
    requires
        lo <= n <= hi,
        signed || n >= 0,
    ensures
        parse_num_spec(dec_int(n), signed, lo, hi) == Some(n),
        dec_int(n).len() > 0,
{
    if n < 0 {
        lemma_dec_nat((-n) as nat);
        let s = dec_int(n);
        assert(s.drop_first() =~= dec_nat((-n) as nat));
    } else {
        lemma_dec_nat(n as nat);
        let s = dec_nat(n as nat);
        assert(is_digit(s[0]));
    }
}

} // verus!
