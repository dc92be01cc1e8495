//! Text forms: white space, hexadecimal, base64url and decimal numbers.

use vstd::prelude::*;

verus! {

/// The characters with the Unicode property `White_Space`.
pub open spec fn is_white(c: char) -> bool {
    let n = c as u32;
    ||| 0x09 <= n <= 0x0d
    ||| n == 0x20
    ||| n == 0x85
    ||| n == 0xa0
    ||| n == 0x1680
    ||| 0x2000 <= n <= 0x200a
    ||| n == 0x2028
    ||| n == 0x2029
    ||| n == 0x202f
    ||| n == 0x205f
    ||| n == 0x3000
}

/// `s` without the white space at its two ends.
pub open spec fn trimmed(s: Seq<char>) -> Seq<char>
    decreases s.len(),
{
    if s.len() > 0 && is_white(s[0]) {
        trimmed(s.drop_first())
    } else if s.len() > 0 && is_white(s.last()) {
        trimmed(s.drop_last())
    } else {
        s
    }
}

/// Calls `str::trim`: the characters with the Unicode property `White_Space` are
/// taken off at both ends, and nothing else.
#[verifier::external_body]
pub(crate) fn trim(s: &str) -> (r: &str)
    ensures
        r@ == trimmed(s@),
{
    s.trim()
}

/// Whether every character is white space.
pub open spec fn all_white(s: Seq<char>) -> bool {
    forall|i: int| 0 <= i < s.len() ==> is_white(#[trigger] s[i])
}

/// White space around a text that has none at its own ends is trimmed off.
pub proof fn law_trim_surrounded(pre: Seq<char>, s: Seq<char>, suf: Seq<char>)
    requires
        all_white(pre),
        all_white(suf),
        s.len() > 0,
        !is_white(s[0]),
        !is_white(s.last()),
    ensures
        trimmed(pre + s + suf) == s,
    decreases pre.len() + suf.len(),
{
    let t = pre + s + suf;
    if pre.len() > 0 {
        assert(t[0] == pre[0]);
        assert(t.drop_first() =~= pre.drop_first() + s + suf);
        assert forall|i: int| 0 <= i < pre.drop_first().len() implies is_white(
            #[trigger] pre.drop_first()[i],
        ) by {
            assert(pre.drop_first()[i] == pre[i + 1]);
        }
        law_trim_surrounded(pre.drop_first(), s, suf);
    } else if suf.len() > 0 {
        assert(t[0] == s[0]);
        assert(t.last() == suf.last());
        assert(is_white(suf[suf.len() - 1]));
        assert(t.drop_last() =~= pre + s + suf.drop_last());
        law_trim_surrounded(pre, s, suf.drop_last());
    } else {
        assert(t =~= s);
    }
}

/// The lowercase hexadecimal digit of a number below 16.
pub open spec fn hex_digit(n: int) -> char {
    if n < 10 {
        (0x30 + n) as char
    } else {
        (0x57 + n) as char
    }
}

/// Two lowercase hexadecimal digits for each byte.
pub open spec fn hex_text(b: Seq<u8>) -> Seq<char> {
    Seq::new(
        2 * b.len(),
        |i: int|
            hex_digit(
                if i % 2 == 0 {
                    b[i / 2] as int / 16
                } else {
                    b[i / 2] as int % 16
                },
            ),
    )
}

/// The value of a hexadecimal digit, in lower or upper case.
pub open spec fn hex_value(c: char) -> Option<int> {
    let n = c as u32;
    if 0x30 <= n <= 0x39 {
        Some(n - 0x30)
    } else if 0x61 <= n <= 0x66 {
        Some(n - 0x57)
    } else if 0x41 <= n <= 0x46 {
        Some(n - 0x37)
    } else {
        None
    }
}

/// The bytes that hexadecimal text stands for: it has two digits for each byte,
/// and nothing but digits.
pub open spec fn hex_bytes(s: Seq<char>) -> Option<Seq<u8>> {
    if s.len() % 2 == 0 && forall|i: int| 0 <= i < s.len() ==> hex_value(#[trigger] s[i]) is Some {
        Some(
            Seq::new(
                s.len() / 2,
                |i: int| (hex_value(s[2 * i])->0 * 16 + hex_value(s[2 * i + 1])->0) as u8,
            ),
        )
    } else {
        None
    }
}

/// Calls `hex::encode`: each byte becomes two lowercase hexadecimal digits.
#[verifier::external_body]
pub(crate) fn hex_encode(b: &[u8]) -> (r: String)
    ensures
        r@ == hex_text(b@),
{
    hex::encode(b)
}

/// The text of the error with which `hex::decode` fails.
pub uninterp spec fn hex_error(s: Seq<char>) -> Seq<char>;

/// Calls `hex::decode`: two hexadecimal digits, in lower or upper case, become a
/// byte. It fails on text of odd length and on any character that is no digit, and
/// the text of its error is handed out; which text it is, is left to the name.
#[verifier::external_body]
pub(crate) fn hex_decode(s: &str) -> (r: Result<Vec<u8>, String>)
    ensures
        match r {
            Ok(b) => hex_bytes(s@) == Some(b@),
            Err(e) => hex_bytes(s@) is None && e@ == hex_error(s@),
        },
{
    match hex::decode(s) {
        Ok(b) => Ok(b),
        Err(e) => Err(e.to_string()),
    }
}

/// Bytes are read back from their hexadecimal text.
pub proof fn law_hex_roundtrip(b: Seq<u8>)
    ensures
        hex_bytes(hex_text(b)) == Some(b),
{
    let s = hex_text(b);
    assert forall|i: int| 0 <= i < s.len() implies hex_value(#[trigger] s[i]) is Some by {
        assert(0 <= i / 2 < b.len());
    }
    let r = hex_bytes(s)->0;
    assert forall|i: int| 0 <= i < b.len() implies r[i] == #[trigger] b[i] by {
        assert((2 * i) / 2 == i && (2 * i) % 2 == 0);
        assert((2 * i + 1) / 2 == i && (2 * i + 1) % 2 == 1);
        assert(hex_value(s[2 * i]) == Some(b[i] as int / 16));
        assert(hex_value(s[2 * i + 1]) == Some(b[i] as int % 16));
    }
    assert(r =~= b);
}

/// Hexadecimal text has nothing to trim.
pub proof fn lemma_hex_trimmed(b: Seq<u8>)
    ensures
        trimmed(hex_text(b)) == hex_text(b),
{
    let s = hex_text(b);
    if s.len() > 0 {
        assert(!is_white(s[0])) by {
            assert(s[0] == hex_digit(b[0] as int / 16));
        }
        assert(!is_white(s.last())) by {
            let i = s.len() - 1;
            assert(i / 2 == b.len() - 1 && i % 2 == 1);
            assert(s.last() == hex_digit(b[b.len() - 1] as int % 16));
        }
    }
}

/// The symbol of a number below 64 in the URL-safe base64 alphabet.
pub open spec fn base64_symbol(n: int) -> char {
    if n < 26 {
        (0x41 + n) as char
    } else if n < 52 {
        (0x61 + n - 26) as char
    } else if n < 62 {
        (0x30 + n - 52) as char
    } else if n == 62 {
        '-'
    } else {
        '_'
    }
}

/// The URL-safe base64 text of bytes, without padding: four symbols of six bits
/// each for three bytes, and as many as needed for the bytes that are left over.
pub open spec fn base64_text(b: Seq<u8>) -> Seq<char>
    decreases b.len(),
{
    if b.len() == 0 {
        Seq::empty()
    } else if b.len() == 1 {
        seq![base64_symbol(b[0] as int / 4), base64_symbol(b[0] as int % 4 * 16)]
    } else if b.len() == 2 {
        seq![
            base64_symbol(b[0] as int / 4),
            base64_symbol(b[0] as int % 4 * 16 + b[1] as int / 16),
            base64_symbol(b[1] as int % 16 * 4),
        ]
    } else {
        seq![
            base64_symbol(b[0] as int / 4),
            base64_symbol(b[0] as int % 4 * 16 + b[1] as int / 16),
            base64_symbol(b[1] as int % 16 * 4 + b[2] as int / 64),
            base64_symbol(b[2] as int % 64),
        ] + base64_text(b.skip(3))
    }
}

/// The length of the base64 text of `n` bytes.
pub open spec fn base64_len(n: nat) -> nat {
    n / 3 * 4 + (if n % 3 == 0 {
        0nat
    } else {
        n % 3 + 1
    })
}

/// Calls `encode` of `base64`'s `URL_SAFE_NO_PAD` engine: the text has the
/// URL-safe alphabet and no padding. A text longer than a vector can be is out of
/// the question, since the call panics on it.
#[verifier::external_body]
pub(crate) fn base64_encode(b: &[u8]) -> (r: String)
    requires
        base64_len(b@.len()) <= isize::MAX,
    ensures
        r@ == base64_text(b@),
{
    base64::Engine::encode(&base64::engine::general_purpose::URL_SAFE_NO_PAD, b)
}

/// The text of the error with which `decode` of `base64`'s `URL_SAFE_NO_PAD` engine
/// fails.
pub uninterp spec fn base64_error(s: Seq<char>) -> Seq<char>;

/// Calls `decode` of `base64`'s `URL_SAFE_NO_PAD` engine: it gives back the bytes
/// whose text this is, and fails where it is the text of no bytes (a symbol that
/// is not in the alphabet, padding, a length that no text has, bits that are left
/// over and not zero). The text of its error is handed out; which text it is, is left
/// to the name.
#[verifier::external_body]
pub(crate) fn base64_decode(s: &str) -> (r: Result<Vec<u8>, String>)
    ensures
        match r {
            Ok(b) => base64_text(b@) == s@,
            Err(e) => e@ == base64_error(s@) && forall|b: Seq<u8>| #[trigger]
                base64_text(b) != s@,
        },
{
    match base64::Engine::decode(&base64::engine::general_purpose::URL_SAFE_NO_PAD, s) {
        Ok(b) => Ok(b),
        Err(e) => Err(e.to_string()),
    }
}

/// Different numbers have different symbols.
proof fn lemma_base64_symbol_injective(x: int, y: int)
    requires
        0 <= x < 64,
        0 <= y < 64,
        base64_symbol(x) == base64_symbol(y),
    ensures
        x == y,
{
}

/// The length of base64 text.
pub proof fn lemma_base64_len(b: Seq<u8>)
    ensures
        base64_text(b).len() == base64_len(b.len()),
    decreases b.len(),
{
    if b.len() > 2 {
        lemma_base64_len(b.skip(3));
    }
}

/// Different bytes have different base64 texts.
pub proof fn law_base64_injective(a: Seq<u8>, b: Seq<u8>)
    requires
        base64_text(a) == base64_text(b),
    ensures
        a == b,
    decreases a.len(),
{
    lemma_base64_len(a);
    lemma_base64_len(b);
    assert(a.len() == b.len());
    let s = base64_text(a);
    let t = base64_text(b);
    if a.len() >= 1 {
        assert(s[0] == t[0] && s[1] == t[1]);
        lemma_base64_symbol_injective(a[0] as int / 4, b[0] as int / 4);
    }
    if a.len() == 1 {
        lemma_base64_symbol_injective(a[0] as int % 4 * 16, b[0] as int % 4 * 16);
        assert(a =~= b);
    } else if a.len() >= 2 {
        assert(s[2] == t[2]);
        lemma_base64_symbol_injective(
            a[0] as int % 4 * 16 + a[1] as int / 16,
            b[0] as int % 4 * 16 + b[1] as int / 16,
        );
        if a.len() == 2 {
            lemma_base64_symbol_injective(a[1] as int % 16 * 4, b[1] as int % 16 * 4);
            assert(a =~= b);
        } else {
            assert(s[3] == t[3]);
            lemma_base64_symbol_injective(
                a[1] as int % 16 * 4 + a[2] as int / 64,
                b[1] as int % 16 * 4 + b[2] as int / 64,
            );
            lemma_base64_symbol_injective(a[2] as int % 64, b[2] as int % 64);
            assert(s.skip(4) =~= base64_text(a.skip(3)));
            assert(t.skip(4) =~= base64_text(b.skip(3)));
            law_base64_injective(a.skip(3), b.skip(3));
            assert(a =~= a.take(3) + a.skip(3));
            assert(b =~= b.take(3) + b.skip(3));
            assert(a.take(3) =~= b.take(3));
        }
    } else {
        assert(a =~= b);
    }
}

/// The symbols of base64 text are no white space.
pub proof fn lemma_base64_not_white(b: Seq<u8>)
    ensures
        forall|i: int| 0 <= i < base64_text(b).len() ==> !is_white(#[trigger] base64_text(b)[i]),
    decreases b.len(),
{
    if b.len() > 2 {
        lemma_base64_not_white(b.skip(3));
        let s = base64_text(b);
        let r = base64_text(b.skip(3));
        assert forall|i: int| 0 <= i < s.len() implies !is_white(#[trigger] s[i]) by {
            if i >= 4 {
                assert(s[i] == r[i - 4]);
            }
        }
    }
}

/// A decimal digit.
pub open spec fn decimal_digit(n: nat) -> char {
    (0x30 + n) as char
}

/// A number in decimal, without leading zeros.
pub open spec fn decimal(n: nat) -> Seq<char>
    decreases n,
{
    if n < 10 {
        seq![decimal_digit(n)]
    } else {
        decimal(n / 10).push(decimal_digit(n % 10))
    }
}

/// The text of a decimal digit.
fn digit_text(d: u64) -> (r: &'static str)
    requires
        d < 10,
    ensures
        r@ == seq![decimal_digit(d as nat)],
{
    proof {
        reveal_strlit("0");
        reveal_strlit("1");
        reveal_strlit("2");
        reveal_strlit("3");
        reveal_strlit("4");
        reveal_strlit("5");
        reveal_strlit("6");
        reveal_strlit("7");
        reveal_strlit("8");
        reveal_strlit("9");
    }
    let r = match d {
        0 => "0",
        1 => "1",
        2 => "2",
        3 => "3",
        4 => "4",
        5 => "5",
        6 => "6",
        7 => "7",
        8 => "8",
        _ => "9",
    };
    assert(r@ =~= seq![decimal_digit(d as nat)]);
    r
}

/// Writes a number in decimal.
pub fn decimal_text(n: u64) -> (r: String)
    ensures
        r@ == decimal(n as nat),
    decreases n,
{
    if n < 10 {
        String::from_str(digit_text(n))
    } else {
        let mut r = decimal_text(n / 10);
        r.append(digit_text(n % 10));
        assert(r@ =~= decimal(n as nat));
        r
    }
}

/// The decimal text of a number that may be negative.
pub open spec fn signed_decimal(n: int) -> Seq<char> {
    if n < 0 {
        "-"@ + decimal((-n) as nat)
    } else {
        decimal(n as nat)
    }
}

/// Writes a number that may be negative in decimal.
pub fn signed_decimal_text(n: i64) -> (r: String)
    ensures
        r@ == signed_decimal(n as int),
{
    if n < 0 {
        let positive: u64 = (-(n + 1)) as u64 + 1;
        join2("-", decimal_text(positive).as_str())
    } else {
        decimal_text(n as u64)
    }
}

/// Two texts one after the other.
pub fn join2(a: &str, b: &str) -> (r: String)
    ensures
        r@ == a@ + b@,
{
    let mut r = String::from_str(a);
    r.append(b);
    r
}

/// The number that decimal digits stand for, the one of the highest place first.
pub open spec fn decimal_value(s: Seq<char>) -> int
    decreases s.len(),
{
    if s.len() == 0 {
        0
    } else {
        decimal_value(s.drop_last()) * 10 + (s.last() as int - '0' as int)
    }
}

/// The decimal text of a number is made of digits that stand for the number, and begins with
/// a zero only where the number is zero.
pub proof fn law_decimal_stands_for_number(n: nat)
    ensures
        decimal_value(decimal(n)) == n,
        decimal(n).len() > 0,
        forall|i: int| 0 <= i < decimal(n).len() ==> '0' <= #[trigger] decimal(n)[i] <= '9',
        decimal(n)[0] == '0' ==> n == 0 && decimal(n).len() == 1,
    decreases n,
{
    if n < 10 {
        let s = decimal(n);
        assert(s.drop_last() =~= Seq::<char>::empty());
        assert(decimal_value(s.drop_last()) == 0);
    } else {
        let s = decimal(n);
        law_decimal_stands_for_number(n / 10);
        assert(s.drop_last() =~= decimal(n / 10));
        assert(s[0] == decimal(n / 10)[0]);
        assert forall|i: int| 0 <= i < s.len() implies '0' <= #[trigger] s[i] <= '9' by {
            if i < s.len() - 1 {
                assert(s[i] == decimal(n / 10)[i]);
            }
        }
    }
}

/// Different numbers have different decimal texts, and only that of a negative number
/// begins with a minus sign, behind which stands the number without its sign.
pub proof fn law_signed_decimal(n: int, m: int)
    ensures
        signed_decimal(n) == signed_decimal(m) ==> n == m,
        n >= 0 ==> decimal_value(signed_decimal(n)) == n,
        n < 0 ==> signed_decimal(n)[0] == '-' && decimal_value(signed_decimal(n).drop_first())
            == -n,
{
    reveal_strlit("-");
    let a = if n < 0 { -n } else { n };
    let b = if m < 0 { -m } else { m };
    law_decimal_stands_for_number(a as nat);
    law_decimal_stands_for_number(b as nat);
    if n < 0 {
        assert(signed_decimal(n).drop_first() =~= decimal(a as nat));
    }
    if m < 0 {
        assert(signed_decimal(m).drop_first() =~= decimal(b as nat));
    }
    assert('0' <= decimal(a as nat)[0] && '0' <= decimal(b as nat)[0]);
}

} // verus!
