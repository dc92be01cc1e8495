//! CBOR data items, as `minicbor` writes and reads them.
//!
//! Every data item begins with a head: a major type and an argument. The
//! functions here write one item at the end of a buffer, or read one item at a
//! position of a buffer.

use vstd::prelude::*;

verus! {

/// The bytes at hand are no encoding of the value that was asked for.
#[derive(Debug, PartialEq, Eq)]
pub struct CborError {
    /// What is wrong with them, in the words of `minicbor`.
    pub text: String,
}

impl View for CborError {
    type V = Seq<char>;

    open spec fn view(&self) -> Seq<char> {
        self.text@
    }
}

/// Major type of unsigned integers.
pub const UNSIGNED: u8 = 0;

/// Major type of negative integers.
pub const NEGATIVE: u8 = 1;

/// Major type of byte strings.
pub const BYTES: u8 = 2;

/// Major type of text strings.
pub const TEXT: u8 = 3;

/// Major type of arrays.
pub const ARRAY: u8 = 4;

/// Major type of maps.
pub const MAP: u8 = 5;

/// The byte that ends an array or a map of indefinite length.
pub const BREAK: u8 = 0xff;

/// The item `null`.
pub const NULL: u8 = 0xf6;

/// `n` in two bytes, the higher first.
pub open spec fn be2(n: nat) -> Seq<u8> {
    seq![(n / 0x100) as u8, (n % 0x100) as u8]
}

/// `n` in four bytes, the highest first.
pub open spec fn be4(n: nat) -> Seq<u8> {
    be2(n / 0x1_0000) + be2(n % 0x1_0000)
}

/// `n` in eight bytes, the highest first.
pub open spec fn be8(n: nat) -> Seq<u8> {
    be4(n / 0x1_0000_0000) + be4(n % 0x1_0000_0000)
}

/// The number that two bytes from `pos` on stand for.
pub open spec fn val2(b: Seq<u8>, pos: int) -> nat {
    (b[pos] * 0x100 + b[pos + 1]) as nat
}

/// The number that four bytes from `pos` on stand for.
pub open spec fn val4(b: Seq<u8>, pos: int) -> nat {
    val2(b, pos) * 0x1_0000 + val2(b, pos + 2)
}

/// The number that eight bytes from `pos` on stand for.
pub open spec fn val8(b: Seq<u8>, pos: int) -> nat {
    val4(b, pos) * 0x1_0000_0000 + val4(b, pos + 4)
}

/// The numbers that the argument of a head can hold.
pub open spec fn fits_argument(n: nat) -> bool {
    n < 0x1_0000_0000_0000_0000
}

/// The head of an item: its major type and the shortest form of its argument.
pub open spec fn head(major: u8, n: nat) -> Seq<u8> {
    if n < 24 {
        seq![(major * 32 + n) as u8]
    } else if n < 0x100 {
        seq![(major * 32 + 24) as u8, n as u8]
    } else if n < 0x1_0000 {
        seq![(major * 32 + 25) as u8] + be2(n)
    } else if n < 0x1_0000_0000 {
        seq![(major * 32 + 26) as u8] + be4(n)
    } else {
        seq![(major * 32 + 27) as u8] + be8(n)
    }
}

/// The argument of the head at `pos`, and where what follows the head begins.
pub open spec fn argument(b: Seq<u8>, pos: int) -> Option<(nat, int)> {
    let info = b[pos] % 32;
    if info < 24 {
        Some((info as nat, pos + 1))
    } else if info == 24 && pos + 2 <= b.len() {
        Some((b[pos + 1] as nat, pos + 2))
    } else if info == 25 && pos + 3 <= b.len() {
        Some((val2(b, pos + 1), pos + 3))
    } else if info == 26 && pos + 5 <= b.len() {
        Some((val4(b, pos + 1), pos + 5))
    } else if info == 27 && pos + 9 <= b.len() {
        Some((val8(b, pos + 1), pos + 9))
    } else {
        None
    }
}

/// Whether an item of this major type begins at `pos`.
pub open spec fn begins(b: Seq<u8>, pos: int, major: u8) -> bool {
    0 <= pos < b.len() && b[pos] / 32 == major
}

/// The head of an array or a map at `pos`: the number of its elements, or `None`
/// where a break byte ends it, and where the first element begins.
pub open spec fn container(b: Seq<u8>, pos: int, major: u8) -> Option<(Option<nat>, int)> {
    if !begins(b, pos, major) {
        None
    } else if b[pos] % 32 == 31 {
        Some((None, pos + 1))
    } else {
        match argument(b, pos) {
            Some((n, p)) => Some((Some(n), p)),
            None => None,
        }
    }
}

/// The integer at `pos`, and where it ends.
pub open spec fn integer(b: Seq<u8>, pos: int) -> Option<(int, int)> {
    if begins(b, pos, UNSIGNED) {
        match argument(b, pos) {
            Some((n, p)) => Some((n as int, p)),
            None => None,
        }
    } else if begins(b, pos, NEGATIVE) {
        match argument(b, pos) {
            Some((n, p)) => Some((-1 - n, p)),
            None => None,
        }
    } else {
        None
    }
}

/// The contents of the string at `pos`, whose length the head gives, and where
/// it ends.
pub open spec fn string(b: Seq<u8>, pos: int, major: u8) -> Option<(Seq<u8>, int)> {
    if !begins(b, pos, major) {
        None
    } else {
        match argument(b, pos) {
            Some((n, p)) => if p + n <= b.len() {
                Some((b.subrange(p, p + n), p + n))
            } else {
                None
            },
            None => None,
        }
    }
}

/// The text at `pos`, and where it ends.
pub open spec fn text(b: Seq<u8>, pos: int) -> Option<(Seq<char>, int)> {
    match string(b, pos, TEXT) {
        Some((s, p)) => if vstd::utf8::valid_utf8(s) {
            Some((vstd::utf8::decode_utf8(s), p))
        } else {
            None
        },
        None => None,
    }
}

/// The truth value at `pos`, and where it ends.
pub open spec fn truth(b: Seq<u8>, pos: int) -> Option<(bool, int)> {
    if 0 <= pos < b.len() && b[pos] == 0xf4 {
        Some((false, pos + 1))
    } else if 0 <= pos < b.len() && b[pos] == 0xf5 {
        Some((true, pos + 1))
    } else {
        None
    }
}

/// The text of the error with which `minicbor`'s `Decoder::array` fails at `pos`.
pub uninterp spec fn minicbor_array_error(b: Seq<u8>, pos: int) -> Seq<char>;

/// The text of the error with which `minicbor`'s `Decoder::map` fails at `pos`.
pub uninterp spec fn minicbor_map_error(b: Seq<u8>, pos: int) -> Seq<char>;

/// The text of the error with which `minicbor`'s `Decoder::u8` fails at `pos`.
pub uninterp spec fn minicbor_u8_error(b: Seq<u8>, pos: int) -> Seq<char>;

/// The text of the error with which `minicbor`'s `Decoder::i64` fails at `pos`.
pub uninterp spec fn minicbor_i64_error(b: Seq<u8>, pos: int) -> Seq<char>;

/// The text of the error with which `minicbor`'s `Decoder::bytes` fails at `pos`.
pub uninterp spec fn minicbor_bytes_error(b: Seq<u8>, pos: int) -> Seq<char>;

/// The text of the error with which `minicbor`'s `Decoder::str` fails at `pos`.
pub uninterp spec fn minicbor_str_error(b: Seq<u8>, pos: int) -> Seq<char>;

/// The text of the error with which `minicbor`'s `Decoder::bool` fails at `pos`.
pub uninterp spec fn minicbor_bool_error(b: Seq<u8>, pos: int) -> Seq<char>;

/// Where `minicbor`'s `Decoder::skip` leaves a decoder that stood at `pos`,
/// whatever item is there, or the text of the error with which it fails.
pub uninterp spec fn minicbor_skip(b: Seq<u8>, pos: int) -> Result<int, Seq<char>>;

/// The text of the error with which passing over the item at `pos` fails.
pub open spec fn skip_failure(b: Seq<u8>, pos: int) -> Seq<char> {
    match minicbor_skip(b, pos) {
        Ok(_) => Seq::empty(),
        Err(text) => text,
    }
}

/// Where the item at `pos` ends, whatever item it is.
pub open spec fn skipped(b: Seq<u8>, pos: int) -> Option<int> {
    if !(0 <= pos < b.len()) {
        None
    } else if b[pos] == 0x80 {
        Some(pos + 1)
    } else {
        match minicbor_skip(b, pos) {
            Ok(p) => if pos < p <= b.len() {
                Some(p)
            } else {
                None
            },
            Err(_) => None,
        }
    }
}

/// The number of elements in a head, as a mathematical number.
pub open spec fn count(n: Option<u64>) -> Option<nat> {
    match n {
        Some(k) => Some(k as nat),
        None => None,
    }
}

/// A head is read back from what was written.
pub proof fn lemma_head(major: u8, n: nat, pre: Seq<u8>, suf: Seq<u8>)
    requires
        major < 8,
        fits_argument(n),
    ensures
        begins(pre + head(major, n) + suf, pre.len() as int, major),
        argument(pre + head(major, n) + suf, pre.len() as int) == Some(
            (n, (pre.len() + head(major, n).len()) as int),
        ),
        (pre + head(major, n) + suf)[pre.len() as int] % 32 < 28,
        head(major, n).len() >= 1,
{
    let h = head(major, n);
    let b = pre + h + suf;
    let pos = pre.len() as int;
    assert(h.len() >= 1);
    assert forall|i: int| 0 <= i < h.len() implies b[pos + i] == #[trigger] h[i] by {
    }
    assert(b[pos] == h[0]);
    if n < 24 {
    } else if n < 0x100 {
        assert(b[pos + 1] == h[1]);
    } else if n < 0x1_0000 {
        assert(b[pos + 1] == h[1]);
        assert(b[pos + 2] == h[2]);
        assert(val2(b, pos + 1) == n);
    } else if n < 0x1_0000_0000 {
        assert(b.subrange(pos + 1, pos + 5) =~= be4(n));
        lemma_val4(b, pos + 1, n);
    } else {
        assert(b.subrange(pos + 1, pos + 5) =~= be4(n / 0x1_0000_0000));
        assert(b.subrange(pos + 5, pos + 9) =~= be4(n % 0x1_0000_0000));
        lemma_val4(b, pos + 1, n / 0x1_0000_0000);
        lemma_val4(b, pos + 5, n % 0x1_0000_0000);
        assert(val8(b, pos + 1) == n);
    }
}

/// Four bytes are read back from what was written.
proof fn lemma_val4(b: Seq<u8>, pos: int, n: nat)
    requires
        n < 0x1_0000_0000,
        0 <= pos,
        pos + 4 <= b.len(),
        b.subrange(pos, pos + 4) == be4(n),
    ensures
        val4(b, pos) == n,
{
    let s = b.subrange(pos, pos + 4);
    assert(b[pos] == s[0]);
    assert(b[pos + 1] == s[1]);
    assert(b[pos + 2] == s[2]);
    assert(b[pos + 3] == s[3]);
    assert(s[0] == ((n / 0x1_0000) / 0x100) as u8);
    assert(s[1] == ((n / 0x1_0000) % 0x100) as u8);
    assert(s[2] == ((n % 0x1_0000) / 0x100) as u8);
    assert(s[3] == ((n % 0x1_0000) % 0x100) as u8);
}

/// Eight bytes determine the number that they were made of.
pub proof fn lemma_be8_injective(m: nat, n: nat)
    requires
        fits_argument(m),
        fits_argument(n),
        be8(m) == be8(n),
    ensures
        m == n,
{
    lemma_be8(m);
    lemma_be8(n);
}

/// Eight bytes are read back from what was written.
proof fn lemma_be8(n: nat)
    requires
        fits_argument(n),
    ensures
        val8(be8(n), 0) == n,
{
    let b = be8(n);
    assert(b.subrange(0, 4) =~= be4(n / 0x1_0000_0000));
    assert(b.subrange(4, 8) =~= be4(n % 0x1_0000_0000));
    lemma_val4(b, 0, n / 0x1_0000_0000);
    lemma_val4(b, 4, n % 0x1_0000_0000);
}

/// Calls `minicbor`'s `Encoder::array` on `out`: the head of an array of `n`
/// elements is appended. Writing to a vector never fails.
#[verifier::external_body]
pub(crate) fn put_array(out: &mut Vec<u8>, n: u64)
    ensures
        final(out)@ == old(out)@ + head(ARRAY, n as nat),
{
    let _ = minicbor::Encoder::new(&mut *out).array(n);
}

/// Calls `minicbor`'s `Encoder::map` on `out`: the head of a map of `n` entries
/// is appended. Writing to a vector never fails.
#[verifier::external_body]
pub(crate) fn put_map(out: &mut Vec<u8>, n: u64)
    ensures
        final(out)@ == old(out)@ + head(MAP, n as nat),
{
    let _ = minicbor::Encoder::new(&mut *out).map(n);
}

/// Calls `minicbor`'s `Encoder::u8` on `out`: an unsigned integer is appended.
/// Writing to a vector never fails.
#[verifier::external_body]
pub(crate) fn put_u8(out: &mut Vec<u8>, x: u8)
    ensures
        final(out)@ == old(out)@ + head(UNSIGNED, x as nat),
{
    let _ = minicbor::Encoder::new(&mut *out).u8(x);
}

/// Calls `minicbor`'s `Encoder::i64` on `out`: an integer is appended, one below
/// zero as the negative integer of argument `-1 - x`. Writing to a vector never
/// fails.
#[verifier::external_body]
pub(crate) fn put_i64(out: &mut Vec<u8>, x: i64)
    ensures
        final(out)@ == old(out)@ + (if x >= 0 {
            head(UNSIGNED, x as nat)
        } else {
            head(NEGATIVE, (-1 - x) as nat)
        }),
{
    let _ = minicbor::Encoder::new(&mut *out).i64(x);
}

/// Calls `minicbor`'s `Encoder::bytes` on `out`: a byte string is appended, its
/// length in the head. Writing to a vector never fails.
#[verifier::external_body]
pub(crate) fn put_bytes(out: &mut Vec<u8>, x: &[u8])
    ensures
        final(out)@ == old(out)@ + head(BYTES, x@.len()) + x@,
{
    let _ = minicbor::Encoder::new(&mut *out).bytes(x);
}

/// Calls `minicbor`'s `Encoder::str` on `out`: a text string is appended as
/// UTF-8, the number of its bytes in the head. Writing to a vector never fails.
#[verifier::external_body]
pub(crate) fn put_str(out: &mut Vec<u8>, x: &str)
    ensures
        final(out)@ == old(out)@ + head(TEXT, vstd::utf8::encode_utf8(x@).len())
            + vstd::utf8::encode_utf8(x@),
{
    let _ = minicbor::Encoder::new(&mut *out).str(x);
}

/// Calls `minicbor`'s `Encoder::bool` on `out`: a truth value is appended as one
/// byte. Writing to a vector never fails.
#[verifier::external_body]
pub(crate) fn put_bool(out: &mut Vec<u8>, x: bool)
    ensures
        final(out)@ == old(out)@ + seq![
            if x {
                0xf5u8
            } else {
                0xf4u8
            },
        ],
{
    let _ = minicbor::Encoder::new(&mut *out).bool(x);
}

/// Calls `minicbor`'s `Decoder::array` at `pos`: the head of an array is read,
/// of definite or indefinite length. Where it fails the text of the error is handed
/// out, here and below; which text it is, is left to the name.
#[verifier::external_body]
pub(crate) fn get_array(b: &[u8], pos: usize) -> (r: Result<
    (Option<u64>, usize),
    CborError,
>)
    ensures
        match r {
            Ok((n, p)) => container(b@, pos as int, ARRAY) == Some((count(n), p as int)),
            Err(e) => e@ == minicbor_array_error(b@, pos as int) && container(b@, pos as int, ARRAY) is None,
        },
{
    let mut d = minicbor::Decoder::new(b);
    d.set_position(pos);
    match d.array() {
        Ok(n) => Ok((n, d.position())),
        Err(e) => Err(CborError { text: e.to_string() }),
    }
}

/// Calls `minicbor`'s `Decoder::map` at `pos`: the head of a map is read, of
/// definite or indefinite length.
#[verifier::external_body]
pub(crate) fn get_map(b: &[u8], pos: usize) -> (r: Result<
    (Option<u64>, usize),
    CborError,
>)
    ensures
        match r {
            Ok((n, p)) => container(b@, pos as int, MAP) == Some((count(n), p as int)),
            Err(e) => e@ == minicbor_map_error(b@, pos as int) && container(b@, pos as int, MAP) is None,
        },
{
    let mut d = minicbor::Decoder::new(b);
    d.set_position(pos);
    match d.map() {
        Ok(n) => Ok((n, d.position())),
        Err(e) => Err(CborError { text: e.to_string() }),
    }
}

/// Calls `minicbor`'s `Decoder::u8` at `pos`: an unsigned integer below 256 is
/// read, in whichever form its head has.
#[verifier::external_body]
pub(crate) fn get_u8(b: &[u8], pos: usize) -> (r: Result<(u8, usize), CborError>)
    ensures
        match r {
            Ok((x, p)) => integer(b@, pos as int) == Some((x as int, p as int)),
            Err(e) => e@ == minicbor_u8_error(b@, pos as int) && !(integer(b@, pos as int) matches Some((x, _)) && 0 <= x < 256),
        },
{
    let mut d = minicbor::Decoder::new(b);
    d.set_position(pos);
    match d.u8() {
        Ok(x) => Ok((x, d.position())),
        Err(e) => Err(CborError { text: e.to_string() }),
    }
}

/// Calls `minicbor`'s `Decoder::i64` at `pos`: an integer in the range of `i64`
/// is read, in whichever form its head has.
#[verifier::external_body]
pub(crate) fn get_i64(b: &[u8], pos: usize) -> (r: Result<(i64, usize), CborError>)
    ensures
        match r {
            Ok((x, p)) => integer(b@, pos as int) == Some((x as int, p as int)),
            Err(e) => e@ == minicbor_i64_error(b@, pos as int) && !(integer(b@, pos as int) matches Some((x, _)) && i64::MIN <= x <= i64::MAX),
        },
{
    let mut d = minicbor::Decoder::new(b);
    d.set_position(pos);
    match d.i64() {
        Ok(x) => Ok((x, d.position())),
        Err(e) => Err(CborError { text: e.to_string() }),
    }
}

/// Calls `minicbor`'s `Decoder::bytes` at `pos`: a byte string of definite length
/// is read.
#[verifier::external_body]
pub(crate) fn get_bytes(b: &[u8], pos: usize) -> (r: Result<
    (Vec<u8>, usize),
    CborError,
>)
    ensures
        match r {
            Ok((x, p)) => string(b@, pos as int, BYTES) == Some((x@, p as int)),
            Err(e) => e@ == minicbor_bytes_error(b@, pos as int) && string(b@, pos as int, BYTES) is None,
        },
{
    let mut d = minicbor::Decoder::new(b);
    d.set_position(pos);
    match d.bytes() {
        Ok(x) => Ok((x.to_vec(), d.position())),
        Err(e) => Err(CborError { text: e.to_string() }),
    }
}

/// Calls `minicbor`'s `Decoder::str` at `pos`: a text string of definite length
/// is read, which has to be UTF-8.
#[verifier::external_body]
pub(crate) fn get_str(b: &[u8], pos: usize) -> (r: Result<(String, usize), CborError>)
    ensures
        match r {
            Ok((x, p)) => text(b@, pos as int) == Some((x@, p as int)),
            Err(e) => e@ == minicbor_str_error(b@, pos as int) && text(b@, pos as int) is None,
        },
{
    let mut d = minicbor::Decoder::new(b);
    d.set_position(pos);
    match d.str() {
        Ok(x) => Ok((x.to_string(), d.position())),
        Err(e) => Err(CborError { text: e.to_string() }),
    }
}

/// Calls `minicbor`'s `Decoder::bool` at `pos`: a truth value is read.
#[verifier::external_body]
pub(crate) fn get_bool(b: &[u8], pos: usize) -> (r: Result<(bool, usize), CborError>)
    ensures
        match r {
            Ok((x, p)) => truth(b@, pos as int) == Some((x, p as int)),
            Err(e) => e@ == minicbor_bool_error(b@, pos as int) && truth(b@, pos as int) is None,
        },
{
    let mut d = minicbor::Decoder::new(b);
    d.set_position(pos);
    match d.bool() {
        Ok(x) => Ok((x, d.position())),
        Err(e) => Err(CborError { text: e.to_string() }),
    }
}

/// Calls `minicbor`'s `Decoder::skip` at `pos`: whatever item is there is passed
/// over. Where it succeeds it has consumed at least one byte and not more than
/// there are, and exactly one byte of an empty array. Which other bytes it takes
/// for an item is left to its name.
#[verifier::external_body]
pub(crate) fn get_skip(b: &[u8], pos: usize) -> (r: Result<usize, CborError>)
    ensures
        match r {
            Ok(p) => minicbor_skip(b@, pos as int) == Ok::<int, Seq<char>>(p as int),
            Err(e) => minicbor_skip(b@, pos as int) == Err::<int, Seq<char>>(e@),
        },
        match r {
            Ok(p) => skipped(b@, pos as int) == Some(p as int),
            Err(_) => skipped(b@, pos as int) is None,
        },
{
    let mut d = minicbor::Decoder::new(b);
    d.set_position(pos);
    match d.skip() {
        Ok(()) => Ok(d.position()),
        Err(e) => Err(CborError { text: e.to_string() }),
    }
}

/// Of the bytes of a number, the first has the highest place.
pub proof fn law_highest_byte_first(n: nat)
    requires
        n <= u64::MAX,
    ensures
        be8(n).len() == 8,
        n == be8(n)[0] * 0x100_0000_0000_0000 + be8(n)[1] * 0x1_0000_0000_0000 + be8(n)[2]
            * 0x100_0000_0000 + be8(n)[3] * 0x1_0000_0000 + be8(n)[4] * 0x100_0000 + be8(n)[5]
            * 0x1_0000 + be8(n)[6] * 0x100 + be8(n)[7],
{
    lemma_be8(n);
}

} // verus!
