//! How values are laid out as CBOR, and how they are read back.
//!
//! A type states which mathematical value its values stand for (`model`), which
//! bytes a model is written as (`encoding`) and what the bytes at a position
//! stand for (`parse`). Reading accepts more than writing produces: heads in a
//! longer form, arrays and maps of indefinite length, records with fields that
//! are not known. Where it fails, it says what is wrong (`failure`).

use vstd::prelude::*;

use crate::cbor;
use crate::cbor::CborError;
use crate::sorted_map;
use crate::sorted_map::{MapKey, SortedMap};
use crate::text;

verus! {

/// A type whose values can be read from CBOR.
pub trait CborDecode: Sized {
    /// What a value stands for.
    type Model;

    /// What this value stands for.
    spec fn model(&self) -> Self::Model;

    /// What the bytes at `pos` stand for, and where it ends.
    spec fn parse(b: Seq<u8>, pos: int) -> Option<(Self::Model, int)>;

    /// What is said to be wrong with the bytes at `pos` where they stand for nothing.
    spec fn failure(b: Seq<u8>, pos: int) -> Seq<char>;

    /// A value takes at least one byte, and not more than there are.
    proof fn lemma_parse_advances(b: Seq<u8>, pos: int)
        ensures
            Self::parse(b, pos) matches Some((_, p)) ==> 0 <= pos < p <= b.len(),
    ;

    /// Reads the value at `pos`, and says where it ends.
    fn decode(b: &[u8], pos: usize) -> (r: Result<(Self, usize), CborError>)
        ensures
            match r {
                Ok((v, p)) => Self::parse(b@, pos as int) == Some((v.model(), p as int)),
                Err(e) => Self::parse(b@, pos as int) is None && e@ == Self::failure(
                    b@,
                    pos as int,
                ),
            },
    ;
}

/// A type whose values can be written as CBOR.
pub trait CborEncode: CborDecode {
    /// The models that can be written.
    spec fn encodable(m: Self::Model) -> bool;

    /// The bytes that a model is written as.
    spec fn encoding(m: Self::Model) -> Seq<u8>;

    /// What was written is read back, whatever stands before and after it.
    proof fn lemma_roundtrip(m: Self::Model, pre: Seq<u8>, suf: Seq<u8>)
        requires
            Self::encodable(m),
        ensures
            Self::parse(pre + Self::encoding(m) + suf, pre.len() as int) == Some(
                (m, (pre.len() + Self::encoding(m).len()) as int),
            ),
    ;

    /// Writes this value at the end of `out`.
    fn encode(&self, out: &mut Vec<u8>)
        ensures
            Self::encodable(self.model()),
            final(out)@ == old(out)@ + Self::encoding(self.model()),
    ;
}

impl CborDecode for u8 {
    type Model = u8;

    open spec fn model(&self) -> u8 {
        *self
    }

    open spec fn parse(b: Seq<u8>, pos: int) -> Option<(u8, int)> {
        match cbor::integer(b, pos) {
            Some((x, p)) => if 0 <= x < 256 {
                Some((x as u8, p))
            } else {
                None
            },
            None => None,
        }
    }

    open spec fn failure(b: Seq<u8>, pos: int) -> Seq<char> {
        cbor::minicbor_u8_error(b, pos)
    }

    proof fn lemma_parse_advances(b: Seq<u8>, pos: int) {
    }

    fn decode(b: &[u8], pos: usize) -> (r: Result<(u8, usize), CborError>) {
        cbor::get_u8(b, pos)
    }
}

impl CborEncode for u8 {
    open spec fn encodable(m: u8) -> bool {
        true
    }

    open spec fn encoding(m: u8) -> Seq<u8> {
        cbor::head(cbor::UNSIGNED, m as nat)
    }

    proof fn lemma_roundtrip(m: u8, pre: Seq<u8>, suf: Seq<u8>) {
        cbor::lemma_head(cbor::UNSIGNED, m as nat, pre, suf);
    }

    fn encode(&self, out: &mut Vec<u8>) {
        cbor::put_u8(out, *self);
    }
}

impl CborDecode for bool {
    type Model = bool;

    open spec fn model(&self) -> bool {
        *self
    }

    open spec fn parse(b: Seq<u8>, pos: int) -> Option<(bool, int)> {
        cbor::truth(b, pos)
    }

    open spec fn failure(b: Seq<u8>, pos: int) -> Seq<char> {
        cbor::minicbor_bool_error(b, pos)
    }

    proof fn lemma_parse_advances(b: Seq<u8>, pos: int) {
    }

    fn decode(b: &[u8], pos: usize) -> (r: Result<(bool, usize), CborError>) {
        cbor::get_bool(b, pos)
    }
}

impl CborEncode for bool {
    open spec fn encodable(m: bool) -> bool {
        true
    }

    open spec fn encoding(m: bool) -> Seq<u8> {
        seq![
            if m {
                0xf5u8
            } else {
                0xf4u8
            },
        ]
    }

    proof fn lemma_roundtrip(m: bool, pre: Seq<u8>, suf: Seq<u8>) {
        assert((pre + Self::encoding(m) + suf)[pre.len() as int] == Self::encoding(m)[0]);
    }

    fn encode(&self, out: &mut Vec<u8>) {
        cbor::put_bool(out, *self);
    }
}

/// A string is read back from its head and its contents.
proof fn lemma_string(major: u8, s: Seq<u8>, pre: Seq<u8>, suf: Seq<u8>)
    requires
        major < 8,
        cbor::fits_argument(s.len()),
    ensures
        cbor::string(pre + (cbor::head(major, s.len()) + s) + suf, pre.len() as int, major) == Some(
            (s, (pre.len() + (cbor::head(major, s.len()) + s).len()) as int),
        ),
{
    let h = cbor::head(major, s.len());
    cbor::lemma_head(major, s.len(), pre, s + suf);
    let b = pre + (h + s) + suf;
    assert(b =~= pre + h + (s + suf));
    let p = (pre.len() + h.len()) as int;
    assert(b.subrange(p, p + s.len()) =~= s);
}

impl CborDecode for String {
    type Model = Seq<char>;

    open spec fn model(&self) -> Seq<char> {
        self@
    }

    open spec fn parse(b: Seq<u8>, pos: int) -> Option<(Seq<char>, int)> {
        cbor::text(b, pos)
    }

    open spec fn failure(b: Seq<u8>, pos: int) -> Seq<char> {
        cbor::minicbor_str_error(b, pos)
    }

    proof fn lemma_parse_advances(b: Seq<u8>, pos: int) {
    }

    fn decode(b: &[u8], pos: usize) -> (r: Result<(String, usize), CborError>) {
        cbor::get_str(b, pos)
    }
}

impl CborEncode for String {
    open spec fn encodable(m: Seq<char>) -> bool {
        cbor::fits_argument(vstd::utf8::encode_utf8(m).len())
    }

    open spec fn encoding(m: Seq<char>) -> Seq<u8> {
        cbor::head(cbor::TEXT, vstd::utf8::encode_utf8(m).len()) + vstd::utf8::encode_utf8(m)
    }

    proof fn lemma_roundtrip(m: Seq<char>, pre: Seq<u8>, suf: Seq<u8>) {
        let s = vstd::utf8::encode_utf8(m);
        lemma_string(cbor::TEXT, s, pre, suf);
        vstd::utf8::encode_utf8_valid_utf8(m);
        vstd::utf8::encode_utf8_decode_utf8(m);
    }

    fn encode(&self, out: &mut Vec<u8>) {
        let n: usize = self.as_str().as_bytes().len();
        assert(cbor::fits_argument(n as nat));
        cbor::put_str(out, self.as_str());
        assert(out@ =~= old(out)@ + Self::encoding(self.model()));
    }
}

impl CborDecode for Vec<u8> {
    type Model = Seq<u8>;

    open spec fn model(&self) -> Seq<u8> {
        self@
    }

    open spec fn parse(b: Seq<u8>, pos: int) -> Option<(Seq<u8>, int)> {
        cbor::string(b, pos, cbor::BYTES)
    }

    open spec fn failure(b: Seq<u8>, pos: int) -> Seq<char> {
        cbor::minicbor_bytes_error(b, pos)
    }

    proof fn lemma_parse_advances(b: Seq<u8>, pos: int) {
    }

    fn decode(b: &[u8], pos: usize) -> (r: Result<(Vec<u8>, usize), CborError>) {
        cbor::get_bytes(b, pos)
    }
}

impl CborEncode for Vec<u8> {
    open spec fn encodable(m: Seq<u8>) -> bool {
        cbor::fits_argument(m.len())
    }

    open spec fn encoding(m: Seq<u8>) -> Seq<u8> {
        cbor::head(cbor::BYTES, m.len()) + m
    }

    proof fn lemma_roundtrip(m: Seq<u8>, pre: Seq<u8>, suf: Seq<u8>) {
        lemma_string(cbor::BYTES, m, pre, suf);
    }

    fn encode(&self, out: &mut Vec<u8>) {
        let n: usize = self.len();
        assert(cbor::fits_argument(n as nat));
        cbor::put_bytes(out, self.as_slice());
        assert(out@ =~= old(out)@ + Self::encoding(self.model()));
    }
}

/// An item of any kind, of which nothing is kept.
#[derive(Debug, Clone, Copy, PartialEq, Eq, Structural)]
pub struct Ignored;

impl CborDecode for Ignored {
    type Model = ();

    open spec fn model(&self) -> () {
        ()
    }

    open spec fn parse(b: Seq<u8>, pos: int) -> Option<((), int)> {
        match cbor::skipped(b, pos) {
            Some(p) => Some(((), p)),
            None => None,
        }
    }

    open spec fn failure(b: Seq<u8>, pos: int) -> Seq<char> {
        cbor::skip_failure(b, pos)
    }

    proof fn lemma_parse_advances(b: Seq<u8>, pos: int) {
    }

    fn decode(b: &[u8], pos: usize) -> (r: Result<(Ignored, usize), CborError>) {
        match cbor::get_skip(b, pos) {
            Ok(p) => Ok((Ignored, p)),
            Err(e) => Err(e),
        }
    }
}

/// Whether `null` stands at `pos`.
pub open spec fn null_at(b: Seq<u8>, pos: int) -> bool {
    0 <= pos < b.len() && b[pos] == cbor::NULL
}

/// The model of a value that may be missing.
pub open spec fn option_model<T: CborDecode>(v: Option<T>) -> Option<T::Model> {
    match v {
        Some(x) => Some(x.model()),
        None => None,
    }
}

impl<T: CborDecode> CborDecode for Option<T> {
    type Model = Option<T::Model>;

    open spec fn model(&self) -> Option<T::Model> {
        option_model(*self)
    }

    open spec fn parse(b: Seq<u8>, pos: int) -> Option<(Option<T::Model>, int)> {
        if null_at(b, pos) {
            Some((None, pos + 1))
        } else {
            match T::parse(b, pos) {
                Some((m, p)) => Some((Some(m), p)),
                None => None,
            }
        }
    }

    open spec fn failure(b: Seq<u8>, pos: int) -> Seq<char> {
        T::failure(b, pos)
    }

    proof fn lemma_parse_advances(b: Seq<u8>, pos: int) {
        T::lemma_parse_advances(b, pos);
    }

    fn decode(b: &[u8], pos: usize) -> (r: Result<(Option<T>, usize), CborError>) {
        if pos < b.len() && b[pos] == cbor::NULL {
            Ok((None, pos + 1))
        } else {
            match T::decode(b, pos) {
                Ok((v, p)) => Ok((Some(v), p)),
                Err(e) => Err(e),
            }
        }
    }
}

impl<A: CborDecode, B: CborDecode> CborDecode for (A, B) {
    type Model = (A::Model, B::Model);

    open spec fn model(&self) -> (A::Model, B::Model) {
        (self.0.model(), self.1.model())
    }

    open spec fn parse(b: Seq<u8>, pos: int) -> Option<((A::Model, B::Model), int)> {
        match A::parse(b, pos) {
            Some((x, p)) => match B::parse(b, p) {
                Some((y, q)) => Some(((x, y), q)),
                None => None,
            },
            None => None,
        }
    }

    open spec fn failure(b: Seq<u8>, pos: int) -> Seq<char> {
        match A::parse(b, pos) {
            Some((_, p)) => B::failure(b, p),
            None => A::failure(b, pos),
        }
    }

    proof fn lemma_parse_advances(b: Seq<u8>, pos: int) {
        A::lemma_parse_advances(b, pos);
        if let Some((x, p)) = A::parse(b, pos) {
            B::lemma_parse_advances(b, p);
        }
    }

    fn decode(b: &[u8], pos: usize) -> (r: Result<((A, B), usize), CborError>) {
        match A::decode(b, pos) {
            Ok((x, p)) => match B::decode(b, p) {
                Ok((y, q)) => Ok(((x, y), q)),
                Err(e) => Err(e),
            },
            Err(e) => Err(e),
        }
    }
}

/// The elements left to read, one fewer than `left`.
pub open spec fn one_less(left: Option<nat>) -> Option<nat> {
    match left {
        Some(n) => Some((n - 1) as nat),
        None => None,
    }
}

/// The elements from `pos` on: `left` of them, or all up to a break byte.
pub open spec fn items<T: CborDecode>(b: Seq<u8>, pos: int, left: Option<nat>) -> Option<
    (Seq<T::Model>, int),
>
    decreases b.len() - pos,
{
    if left == Some(0nat) {
        Some((Seq::empty(), pos))
    } else if left is None && 0 <= pos < b.len() && b[pos] == cbor::BREAK {
        Some((Seq::empty(), pos + 1))
    } else {
        match T::parse(b, pos) {
            Some((m, p)) => if pos < p <= b.len() {
                match items::<T>(b, p, one_less(left)) {
                    Some((ms, q)) => Some((seq![m] + ms, q)),
                    None => None,
                }
            } else {
                None
            },
            None => None,
        }
    }
}

/// What is said to be wrong with the elements from `pos` on: what is wrong with the
/// first one that cannot be read.
pub open spec fn items_failure<T: CborDecode>(b: Seq<u8>, pos: int, left: Option<nat>) -> Seq<char>
    decreases b.len() - pos,
{
    match T::parse(b, pos) {
        Some((_, p)) => if pos < p <= b.len() {
            items_failure::<T>(b, p, one_less(left))
        } else {
            T::failure(b, pos)
        },
        None => T::failure(b, pos),
    }
}

/// What was read before, and then what is read.
pub open spec fn prepend<M>(before: Seq<M>, rest: Option<(Seq<M>, int)>) -> Option<(Seq<M>, int)> {
    match rest {
        Some((ms, q)) => Some((before + ms, q)),
        None => None,
    }
}

/// Elements do not begin before the buffer and do not end after it.
pub proof fn lemma_items_advance<T: CborDecode>(b: Seq<u8>, pos: int, left: Option<nat>)
    requires
        0 <= pos <= b.len(),
    ensures
        items::<T>(b, pos, left) matches Some((_, q)) ==> pos <= q <= b.len(),
    decreases b.len() - pos,
{
    T::lemma_parse_advances(b, pos);
    if let Some((m, p)) = T::parse(b, pos) {
        if pos < p <= b.len() {
            lemma_items_advance::<T>(b, p, one_less(left));
        }
    }
}

/// One element has been read, and the rest is left.
proof fn lemma_items_step<T: CborDecode>(
    b: Seq<u8>,
    pos: int,
    left: Option<nat>,
    before: Seq<T::Model>,
)
    requires
        left != Some(0nat),
        !(left is None && 0 <= pos < b.len() && b[pos] == cbor::BREAK),
    ensures
        match T::parse(b, pos) {
            Some((m, p)) => prepend(before, items::<T>(b, pos, left)) == prepend(
                before.push(m),
                items::<T>(b, p, one_less(left)),
            ) && items_failure::<T>(b, pos, left) == items_failure::<T>(b, p, one_less(left)) && 0
                <= pos < p <= b.len(),
            None => items::<T>(b, pos, left) is None && items_failure::<T>(b, pos, left)
                == T::failure(b, pos),
        },
{
    T::lemma_parse_advances(b, pos);
    if let Some((m, p)) = T::parse(b, pos) {
        if let Some((ms, q)) = items::<T>(b, p, one_less(left)) {
            assert(before + (seq![m] + ms) =~= before.push(m) + ms);
        }
    }
}

/// The models of a sequence of values.
pub open spec fn models<T: CborDecode>(vs: Seq<T>) -> Seq<T::Model> {
    Seq::new(vs.len(), |i: int| vs[i].model())
}

/// Reads the elements from `pos` on: `left` of them, or all up to a break byte.
pub fn decode_items<T: CborDecode>(b: &[u8], pos: usize, left: Option<u64>) -> (r: Result<
    (Vec<T>, usize),
    CborError,
>)
    requires
        pos <= b@.len(),
    ensures
        match r {
            Ok((vs, p)) => items::<T>(b@, pos as int, cbor::count(left)) == Some(
                (models(vs@), p as int),
            ),
            Err(e) => items::<T>(b@, pos as int, cbor::count(left)) is None && e@ == items_failure::<
                T,
            >(b@, pos as int, cbor::count(left)),
        },
{
    let mut vs: Vec<T> = Vec::new();
    let mut p: usize = pos;
    let mut k: Option<u64> = left;
    let ghost all = items::<T>(b@, pos as int, cbor::count(left));
    proof {
        if let Some((ms, q)) = all {
            assert(Seq::<T::Model>::empty() + ms =~= ms);
        }
        assert(models(vs@) =~= Seq::<T::Model>::empty());
    }
    loop
        invariant
            p <= b@.len(),
            all == items::<T>(b@, pos as int, cbor::count(left)),
            all == prepend(models(vs@), items::<T>(b@, p as int, cbor::count(k))),
            items_failure::<T>(b@, pos as int, cbor::count(left)) == items_failure::<T>(
                b@,
                p as int,
                cbor::count(k),
            ),
        decreases b@.len() - p,
    {
        match k {
            Some(0) => {
                assert(models(vs@) + Seq::<T::Model>::empty() =~= models(vs@));
                return Ok((vs, p));
            },
            None => {
                if p < b.len() && b[p] == cbor::BREAK {
                    assert(models(vs@) + Seq::<T::Model>::empty() =~= models(vs@));
                    return Ok((vs, p + 1));
                }
            },
            Some(_) => {},
        }
        proof {
            lemma_items_step::<T>(b@, p as int, cbor::count(k), models(vs@));
        }
        match T::decode(b, p) {
            Ok((v, q)) => {
                let ghost before = vs@;
                vs.push(v);
                proof {
                    assert(models(vs@) =~= models(before).push(v.model()));
                }
                p = q;
                k = match k {
                    Some(n) => Some(n - 1),
                    None => None,
                };
            },
            Err(e) => {
                return Err(e);
            },
        }
    }
}

/// The encodings of a sequence of models, one after the other.
pub open spec fn items_encoding<T: CborEncode>(ms: Seq<T::Model>) -> Seq<u8>
    decreases ms.len(),
{
    if ms.len() == 0 {
        Seq::empty()
    } else {
        T::encoding(ms[0]) + items_encoding::<T>(ms.drop_first())
    }
}

/// Whether each of the models can be written.
pub open spec fn all_encodable<T: CborEncode>(ms: Seq<T::Model>) -> bool {
    forall|i: int| 0 <= i < ms.len() ==> T::encodable(#[trigger] ms[i])
}

/// One more model is written after the others.
pub proof fn lemma_items_encoding_push<T: CborEncode>(ms: Seq<T::Model>, m: T::Model)
    ensures
        items_encoding::<T>(ms.push(m)) == items_encoding::<T>(ms) + T::encoding(m),
    decreases ms.len(),
{
    reveal_with_fuel(items_encoding, 2);
    let all = ms.push(m);
    if ms.len() == 0 {
        assert(all.drop_first() =~= Seq::<T::Model>::empty());
        assert(items_encoding::<T>(all) =~= T::encoding(m));
        assert(items_encoding::<T>(ms) + T::encoding(m) =~= T::encoding(m));
    } else {
        assert(all.drop_first() =~= ms.drop_first().push(m));
        lemma_items_encoding_push::<T>(ms.drop_first(), m);
        assert(T::encoding(ms[0]) + (items_encoding::<T>(ms.drop_first()) + T::encoding(m))
            =~= T::encoding(ms[0]) + items_encoding::<T>(ms.drop_first()) + T::encoding(m));
    }
}

/// Elements that were written are read back.
pub proof fn lemma_items_roundtrip<T: CborEncode>(ms: Seq<T::Model>, pre: Seq<u8>, suf: Seq<u8>)
    requires
        all_encodable::<T>(ms),
    ensures
        items::<T>(pre + items_encoding::<T>(ms) + suf, pre.len() as int, Some(ms.len())) == Some(
            (ms, (pre.len() + items_encoding::<T>(ms).len()) as int),
        ),
    decreases ms.len(),
{
    if ms.len() == 0 {
        assert(ms =~= Seq::<T::Model>::empty());
    } else {
        let e = T::encoding(ms[0]);
        let rest = ms.drop_first();
        let er = items_encoding::<T>(rest);
        let b = pre + (e + er) + suf;
        assert(T::encodable(ms[0]));
        T::lemma_roundtrip(ms[0], pre, er + suf);
        assert(b =~= pre + e + (er + suf));
        T::lemma_parse_advances(b, pre.len() as int);
        assert forall|i: int| 0 <= i < rest.len() implies T::encodable(#[trigger] rest[i]) by {
            assert(rest[i] == ms[i + 1]);
        }
        lemma_items_roundtrip::<T>(rest, pre + e, suf);
        assert(b =~= pre + e + er + suf);
        assert(seq![ms[0]] + rest =~= ms);
    }
}

impl<A: CborEncode, B: CborEncode> CborEncode for (A, B) {
    open spec fn encodable(m: (A::Model, B::Model)) -> bool {
        A::encodable(m.0) && B::encodable(m.1)
    }

    open spec fn encoding(m: (A::Model, B::Model)) -> Seq<u8> {
        A::encoding(m.0) + B::encoding(m.1)
    }

    proof fn lemma_roundtrip(m: (A::Model, B::Model), pre: Seq<u8>, suf: Seq<u8>) {
        let ea = A::encoding(m.0);
        let eb = B::encoding(m.1);
        A::lemma_roundtrip(m.0, pre, eb + suf);
        B::lemma_roundtrip(m.1, pre + ea, suf);
        assert(pre + (ea + eb) + suf =~= pre + ea + (eb + suf));
        assert(pre + (ea + eb) + suf =~= pre + ea + eb + suf);
    }

    fn encode(&self, out: &mut Vec<u8>) {
        self.0.encode(out);
        self.1.encode(out);
        assert(out@ =~= old(out)@ + Self::encoding(self.model()));
    }
}

/// The elements of the array at `pos`, and where it ends.
pub open spec fn array_items<T: CborDecode>(b: Seq<u8>, pos: int) -> Option<(Seq<T::Model>, int)> {
    match cbor::container(b, pos, cbor::ARRAY) {
        Some((n, p)) => items::<T>(b, p, n),
        None => None,
    }
}

/// What is said to be wrong with the array at `pos`.
pub open spec fn array_failure<T: CborDecode>(b: Seq<u8>, pos: int) -> Seq<char> {
    match cbor::container(b, pos, cbor::ARRAY) {
        Some((n, p)) => items_failure::<T>(b, p, n),
        None => cbor::minicbor_array_error(b, pos),
    }
}

/// An array of these elements, its length in the head.
pub open spec fn array_encoding<T: CborEncode>(ms: Seq<T::Model>) -> Seq<u8> {
    cbor::head(cbor::ARRAY, ms.len()) + items_encoding::<T>(ms)
}

/// An array takes at least one byte, and not more than there are.
pub proof fn lemma_array_advances<T: CborDecode>(b: Seq<u8>, pos: int)
    ensures
        array_items::<T>(b, pos) matches Some((_, p)) ==> 0 <= pos < p <= b.len(),
{
    if let Some((n, p)) = cbor::container(b, pos, cbor::ARRAY) {
        lemma_items_advance::<T>(b, p, n);
    }
}

/// An array that was written is read back.
pub proof fn lemma_array_roundtrip<T: CborEncode>(ms: Seq<T::Model>, pre: Seq<u8>, suf: Seq<u8>)
    requires
        all_encodable::<T>(ms),
        cbor::fits_argument(ms.len()),
    ensures
        array_items::<T>(pre + array_encoding::<T>(ms) + suf, pre.len() as int) == Some(
            (ms, (pre.len() + array_encoding::<T>(ms).len()) as int),
        ),
{
    let h = cbor::head(cbor::ARRAY, ms.len());
    let e = items_encoding::<T>(ms);
    cbor::lemma_head(cbor::ARRAY, ms.len(), pre, e + suf);
    assert(pre + (h + e) + suf =~= pre + h + (e + suf));
    lemma_items_roundtrip::<T>(ms, pre + h, suf);
    assert(pre + (h + e) + suf =~= pre + h + e + suf);
}

/// Reads the array at `pos`.
pub fn decode_array<T: CborDecode>(b: &[u8], pos: usize) -> (r: Result<(Vec<T>, usize), CborError>)
    ensures
        match r {
            Ok((vs, p)) => array_items::<T>(b@, pos as int) == Some((models(vs@), p as int)),
            Err(e) => array_items::<T>(b@, pos as int) is None && e@ == array_failure::<T>(
                b@,
                pos as int,
            ),
        },
{
    match cbor::get_array(b, pos) {
        Ok((n, p)) => decode_items::<T>(b, p, n),
        Err(e) => Err(e),
    }
}

/// Writes an array of these elements.
pub fn encode_array<T: CborEncode>(vs: &Vec<T>, out: &mut Vec<u8>)
    ensures
        all_encodable::<T>(models(vs@)),
        cbor::fits_argument(vs@.len()),
        final(out)@ == old(out)@ + array_encoding::<T>(models(vs@)),
{
    let n: usize = vs.len();
    cbor::put_array(out, n as u64);
    let ghost start = out@;
    let mut i: usize = 0;
    proof {
        assert(models(vs@.take(0)) =~= Seq::<T::Model>::empty());
        assert(start + items_encoding::<T>(models(vs@.take(0))) =~= start);
    }
    while i < n
        invariant
            i <= n == vs@.len(),
            all_encodable::<T>(models(vs@.take(i as int))),
            out@ == start + items_encoding::<T>(models(vs@.take(i as int))),
        decreases n - i,
    {
        let ghost before = models(vs@.take(i as int));
        let ghost m = vs@[i as int].model();
        vs[i].encode(out);
        proof {
            assert(models(vs@.take(i + 1)) =~= before.push(m));
            lemma_items_encoding_push::<T>(before, m);
            assert(start + items_encoding::<T>(before) + T::encoding(m) =~= start + (
            items_encoding::<T>(before) + T::encoding(m)));
        }
        i = i + 1;
    }
    proof {
        assert(vs@.take(n as int) =~= vs@);
        assert(out@ =~= old(out)@ + array_encoding::<T>(models(vs@)));
    }
}

/// Makes an array out of 32 bytes.
pub fn to_array32(v: &[u8]) -> (r: [u8; 32])
    requires
        v@.len() == 32,
    ensures
        r@ == v@,
{
    let mut r: [u8; 32] = [0u8; 32];
    let mut i: usize = 0;
    while i < 32
        invariant
            i <= 32,
            v@.len() == 32,
            forall|j: int| 0 <= j < i ==> r@[j] == v@[j],
        decreases 32 - i,
    {
        r[i] = v[i];
        i = i + 1;
    }
    assert(r@ =~= v@);
    r
}

/// What is said to be wrong in general, and where.
pub open spec fn message_at(message: Seq<char>, pos: nat) -> Seq<char> {
    "decode error at position "@ + text::decimal(pos) + ": "@ + message
}

/// Says what is wrong in general, and where.
pub fn error_at(message: &str, pos: usize) -> (r: CborError)
    ensures
        r@ == message_at(message@, pos as nat),
{
    let mut t = String::from_str("decode error at position ");
    t.append(text::decimal_text(pos as u64).as_str());
    t.append(": ");
    t.append(message);
    CborError { text: t }
}

/// What is said where a field of a record is missing.
pub open spec fn missing_field(index: nat, name: Seq<char>, pos: nat) -> Seq<char> {
    "missing value at index "@ + text::decimal(index) + " ("@ + name
        + ") in map or array starting at position "@ + text::decimal(pos)
}

/// Says which field of a record is missing.
pub fn missing_error(index: u64, name: &str, pos: usize) -> (r: CborError)
    ensures
        r@ == missing_field(index as nat, name@, pos as nat),
{
    let mut t = String::from_str("missing value at index ");
    t.append(text::decimal_text(index).as_str());
    t.append(" (");
    t.append(name);
    t.append(") in map or array starting at position ");
    t.append(text::decimal_text(pos as u64).as_str());
    CborError { text: t }
}

/// What is said to be wrong with the array of 32 bytes at `start`, of which `n` bytes have
/// been read up to `pos`. A byte too many is found when it has been read.
pub open spec fn array32_failure(
    b: Seq<u8>,
    start: int,
    pos: int,
    left: Option<nat>,
    n: nat,
) -> Seq<char>
    decreases b.len() - pos,
{
    if left == Some(0nat) || (left is None && 0 <= pos < b.len() && b[pos] == cbor::BREAK) {
        message_at("array has less than 32 elements"@, start as nat)
    } else {
        match u8::parse(b, pos) {
            Some((_, p)) => if n >= 32 {
                message_at("array has more than 32 elements"@, start as nat)
            } else if pos < p <= b.len() {
                array32_failure(b, start, p, one_less(left), n + 1)
            } else {
                u8::failure(b, pos)
            },
            None => u8::failure(b, pos),
        }
    }
}

impl CborDecode for [u8; 32] {
    type Model = Seq<u8>;

    open spec fn model(&self) -> Seq<u8> {
        self@
    }

    open spec fn parse(b: Seq<u8>, pos: int) -> Option<(Seq<u8>, int)> {
        match array_items::<u8>(b, pos) {
            Some((ms, p)) => if ms.len() == 32 {
                Some((ms, p))
            } else {
                None
            },
            None => None,
        }
    }

    open spec fn failure(b: Seq<u8>, pos: int) -> Seq<char> {
        match cbor::container(b, pos, cbor::ARRAY) {
            Some((n, p)) => array32_failure(b, pos, p, n, 0),
            None => cbor::minicbor_array_error(b, pos),
        }
    }

    proof fn lemma_parse_advances(b: Seq<u8>, pos: int) {
        lemma_array_advances::<u8>(b, pos);
    }

    fn decode(b: &[u8], pos: usize) -> (r: Result<([u8; 32], usize), CborError>) {
        let (n, start) = match cbor::get_array(b, pos) {
            Ok(h) => h,
            Err(e) => {
                return Err(e);
            },
        };
        let mut vs: Vec<u8> = Vec::new();
        let mut p: usize = start;
        let mut k: Option<u64> = n;
        let ghost all = items::<u8>(b@, start as int, cbor::count(n));
        proof {
            if let Some((ms, q)) = all {
                assert(Seq::<u8>::empty() + ms =~= ms);
            }
        }
        loop
            invariant
                p <= b@.len(),
                vs@.len() <= 32,
                cbor::container(b@, pos as int, cbor::ARRAY) == Some(
                    (cbor::count(n), start as int),
                ),
                all == items::<u8>(b@, start as int, cbor::count(n)),
                all == prepend(vs@, items::<u8>(b@, p as int, cbor::count(k))),
                Self::failure(b@, pos as int) == array32_failure(
                    b@,
                    pos as int,
                    p as int,
                    cbor::count(k),
                    vs@.len(),
                ),
            decreases b@.len() - p,
        {
            let ended = match k {
                Some(left) => left == 0,
                None => p < b.len() && b[p] == cbor::BREAK,
            };
            if ended {
                assert(vs@ + Seq::<u8>::empty() =~= vs@);
                let end: usize = if k.is_some() {
                    p
                } else {
                    p + 1
                };
                if vs.len() == 32 {
                    return Ok((to_array32(vs.as_slice()), end));
                }
                return Err(error_at("array has less than 32 elements", pos));
            }
            proof {
                lemma_items_step::<u8>(b@, p as int, cbor::count(k), vs@);
            }
            match u8::decode(b, p) {
                Ok((v, q)) => {
                    if vs.len() == 32 {
                        return Err(error_at("array has more than 32 elements", pos));
                    }
                    vs.push(v);
                    p = q;
                    k = match k {
                        Some(left) => Some(left - 1),
                        None => None,
                    };
                },
                Err(e) => {
                    return Err(e);
                },
            }
        }
    }
}

impl CborEncode for [u8; 32] {
    open spec fn encodable(m: Seq<u8>) -> bool {
        m.len() == 32
    }

    open spec fn encoding(m: Seq<u8>) -> Seq<u8> {
        array_encoding::<u8>(m)
    }

    proof fn lemma_roundtrip(m: Seq<u8>, pre: Seq<u8>, suf: Seq<u8>) {
        lemma_array_roundtrip::<u8>(m, pre, suf);
    }

    fn encode(&self, out: &mut Vec<u8>) {
        let vs = vstd::slice::slice_to_vec(self.as_slice());
        encode_array::<u8>(&vs, out);
        assert(models(vs@) =~= self@);
    }
}

impl CborDecode for Vec<Vec<u8>> {
    type Model = Seq<Seq<u8>>;

    open spec fn model(&self) -> Seq<Seq<u8>> {
        models(self@)
    }

    open spec fn parse(b: Seq<u8>, pos: int) -> Option<(Seq<Seq<u8>>, int)> {
        array_items::<Vec<u8>>(b, pos)
    }

    open spec fn failure(b: Seq<u8>, pos: int) -> Seq<char> {
        array_failure::<Vec<u8>>(b, pos)
    }

    proof fn lemma_parse_advances(b: Seq<u8>, pos: int) {
        lemma_array_advances::<Vec<u8>>(b, pos);
    }

    fn decode(b: &[u8], pos: usize) -> (r: Result<(Vec<Vec<u8>>, usize), CborError>) {
        decode_array::<Vec<u8>>(b, pos)
    }
}

impl CborEncode for Vec<Vec<u8>> {
    open spec fn encodable(m: Seq<Seq<u8>>) -> bool {
        all_encodable::<Vec<u8>>(m) && cbor::fits_argument(m.len())
    }

    open spec fn encoding(m: Seq<Seq<u8>>) -> Seq<u8> {
        array_encoding::<Vec<u8>>(m)
    }

    proof fn lemma_roundtrip(m: Seq<Seq<u8>>, pre: Seq<u8>, suf: Seq<u8>) {
        lemma_array_roundtrip::<Vec<u8>>(m, pre, suf);
    }

    fn encode(&self, out: &mut Vec<u8>) {
        encode_array::<Vec<u8>>(self, out);
    }
}

/// A key of a map that can be read from CBOR and written to it.
pub trait CborKey: MapKey + CborEncode<Model = <Self as MapKey>::Id> {
    /// What a key stands for in a map is what it stands for in CBOR.
    proof fn lemma_key_model(&self)
        ensures
            self.id() == self.model(),
    ;
}

impl CborKey for [u8; 32] {
    proof fn lemma_key_model(&self) {
    }
}

impl CborKey for String {
    proof fn lemma_key_model(&self) {
    }
}

/// The map that results from entering `pairs` one after the other.
pub open spec fn entered<Id, M>(pairs: Seq<(Id, M)>) -> Map<Id, M>
    decreases pairs.len(),
{
    if pairs.len() == 0 {
        Map::empty()
    } else {
        entered(pairs.drop_last()).insert(pairs.last().0, pairs.last().1)
    }
}

/// Entering sorted pairs gives the map that they stand for.
pub proof fn lemma_entered_sorted<K: MapKey, M>(pairs: Seq<(K::Id, M)>)
    requires
        sorted_map::sorted::<K, M>(pairs),
    ensures
        entered(pairs) == sorted_map::as_map(pairs),
    decreases pairs.len(),
{
    if pairs.len() == 0 {
        assert(sorted_map::as_map(pairs) =~= Map::<K::Id, M>::empty());
    } else {
        let rest = pairs.drop_last();
        let last = pairs.last();
        lemma_entered_sorted::<K, M>(rest);
        assert forall|j: int| 0 <= j < rest.len() implies crate::order::before(
            K::rank((#[trigger] rest[j]).0),
            K::rank(last.0),
        ) by {
            assert(rest[j] == pairs[j]);
            assert(pairs[pairs.len() - 1] == last);
        }
        sorted_map::lemma_insert_pair::<K, M>(rest, rest.len() as int, last.0, last.1);
        assert(rest.insert(rest.len() as int, (last.0, last.1)) =~= pairs);
    }
}

/// The models of the values of a map.
pub open spec fn map_model<Id, V: CborDecode>(m: Map<Id, V>) -> Map<Id, V::Model> {
    Map::new(|k: Id| m.contains_key(k), |k: Id| m[k].model())
}

/// Pairs with the models of their values.
pub open spec fn pair_models<Id, V: CborDecode>(pairs: Seq<(Id, V)>) -> Seq<(Id, V::Model)> {
    Seq::new(pairs.len(), |i: int| (pairs[i].0, pairs[i].1.model()))
}

/// The sorted pairs of a map.
pub open spec fn sorted_pairs<K: MapKey, M>(m: Map<K::Id, M>) -> Seq<(K::Id, M)> {
    choose|pairs: Seq<(K::Id, M)>|
        sorted_map::sorted::<K, M>(pairs) && #[trigger] sorted_map::as_map(pairs) == m
}

/// The pairs of a sorted map, with the models of the values, are the sorted
/// pairs of its model.
pub proof fn lemma_pair_models<K: MapKey, V: CborDecode>(pairs: Seq<(K::Id, V)>)
    requires
        sorted_map::sorted::<K, V>(pairs),
    ensures
        sorted_map::sorted::<K, V::Model>(pair_models(pairs)),
        sorted_map::as_map(pair_models(pairs)) == map_model(sorted_map::as_map(pairs)),
        sorted_pairs::<K, V::Model>(map_model(sorted_map::as_map(pairs))) == pair_models(pairs),
{
    let ms = pair_models(pairs);
    assert forall|i: int, j: int| 0 <= i < j < ms.len() implies crate::order::before(
        K::rank((#[trigger] ms[i]).0),
        K::rank((#[trigger] ms[j]).0),
    ) by {
        assert(ms[i].0 == pairs[i].0 && ms[j].0 == pairs[j].0);
    }
    assert forall|k: K::Id| sorted_map::has_key(ms, k) == sorted_map::has_key(pairs, k) by {
        if sorted_map::has_key(ms, k) {
            let i = sorted_map::lemma_key_has_position(ms, k);
            assert(pairs[i].0 == k);
        }
        if sorted_map::has_key(pairs, k) {
            let i = sorted_map::lemma_key_has_position(pairs, k);
            assert(ms[i].0 == k);
        }
    }
    assert forall|k: K::Id| sorted_map::has_key(ms, k) implies sorted_map::value_of(ms, k)
        == sorted_map::value_of(pairs, k).model() by {
        let i = sorted_map::lemma_key_has_position(ms, k);
        sorted_map::lemma_pair_in_map::<K, V::Model>(ms, i);
        sorted_map::lemma_pair_in_map::<K, V>(pairs, i);
    }
    assert(sorted_map::as_map(ms) =~= map_model(sorted_map::as_map(pairs)));
    let chosen = sorted_pairs::<K, V::Model>(map_model(sorted_map::as_map(pairs)));
    assert(sorted_map::sorted::<K, V::Model>(chosen) && sorted_map::as_map(chosen)
        == map_model(sorted_map::as_map(pairs)));
    sorted_map::lemma_sorted_unique::<K, V::Model>(chosen, ms);
}

impl<K: CborKey, V: CborDecode> CborDecode for SortedMap<K, V> {
    type Model = Map<<K as MapKey>::Id, V::Model>;

    open spec fn model(&self) -> Map<<K as MapKey>::Id, V::Model> {
        map_model(self@)
    }

    open spec fn parse(b: Seq<u8>, pos: int) -> Option<
        (Map<<K as MapKey>::Id, V::Model>, int),
    > {
        match cbor::container(b, pos, cbor::MAP) {
            Some((n, p)) => match items::<(K, V)>(b, p, n) {
                Some((pairs, q)) => Some((entered(pairs), q)),
                None => None,
            },
            None => None,
        }
    }

    open spec fn failure(b: Seq<u8>, pos: int) -> Seq<char> {
        match cbor::container(b, pos, cbor::MAP) {
            Some((n, p)) => items_failure::<(K, V)>(b, p, n),
            None => cbor::minicbor_map_error(b, pos),
        }
    }

    proof fn lemma_parse_advances(b: Seq<u8>, pos: int) {
        if let Some((n, p)) = cbor::container(b, pos, cbor::MAP) {
            lemma_items_advance::<(K, V)>(b, p, n);
        }
    }

    fn decode(b: &[u8], pos: usize) -> (r: Result<(SortedMap<K, V>, usize), CborError>) {
        let (n, start) = match cbor::get_map(b, pos) {
            Ok(h) => h,
            Err(e) => {
                return Err(e);
            },
        };
        let mut map: SortedMap<K, V> = SortedMap::new();
        let mut p: usize = start;
        let mut k: Option<u64> = n;
        let ghost mut seen: Seq<(<K as MapKey>::Id, V::Model)> = Seq::empty();
        let ghost all = items::<(K, V)>(b@, start as int, cbor::count(n));
        proof {
            if let Some((ms, q)) = all {
                assert(seen + ms =~= ms);
            }
            assert(map.model() =~= entered(seen));
        }
        loop
            invariant
                p <= b@.len(),
                cbor::container(b@, pos as int, cbor::MAP) == Some((cbor::count(n), start as int)),
                all == items::<(K, V)>(b@, start as int, cbor::count(n)),
                all == prepend(seen, items::<(K, V)>(b@, p as int, cbor::count(k))),
                Self::failure(b@, pos as int) == items_failure::<(K, V)>(
                    b@,
                    p as int,
                    cbor::count(k),
                ),
                map.model() == entered(seen),
            decreases b@.len() - p,
        {
            match k {
                Some(0) => {
                    assert(seen + Seq::<(<K as MapKey>::Id, V::Model)>::empty() =~= seen);
                    return Ok((map, p));
                },
                None => {
                    if p < b.len() && b[p] == cbor::BREAK {
                        assert(seen + Seq::<(<K as MapKey>::Id, V::Model)>::empty() =~= seen);
                        return Ok((map, p + 1));
                    }
                },
                Some(_) => {},
            }
            proof {
                lemma_items_step::<(K, V)>(b@, p as int, cbor::count(k), seen);
            }
            match <(K, V)>::decode(b, p) {
                Ok(((key, value), q)) => {
                    let ghost before = map@;
                    proof {
                        key.lemma_key_model();
                    }
                    map.insert(key, value);
                    proof {
                        let ghost pushed = seen.push((key.model(), value.model()));
                        assert(pushed.drop_last() =~= seen);
                        assert(map_model(map@) =~= map_model(before).insert(
                            key.id(),
                            value.model(),
                        ));
                        seen = pushed;
                    }
                    p = q;
                    k = match k {
                        Some(j) => Some(j - 1),
                        None => None,
                    };
                },
                Err(e) => {
                    return Err(e);
                },
            }
        }
    }
}

impl<K: CborKey, V: CborEncode> CborEncode for SortedMap<K, V> {
    open spec fn encodable(m: Map<<K as MapKey>::Id, V::Model>) -> bool {
        let pairs = sorted_pairs::<K, V::Model>(m);
        &&& sorted_map::sorted::<K, V::Model>(pairs)
        &&& sorted_map::as_map(pairs) == m
        &&& all_encodable::<(K, V)>(pairs)
        &&& cbor::fits_argument(pairs.len())
    }

    open spec fn encoding(m: Map<<K as MapKey>::Id, V::Model>) -> Seq<u8> {
        let pairs = sorted_pairs::<K, V::Model>(m);
        cbor::head(cbor::MAP, pairs.len()) + items_encoding::<(K, V)>(pairs)
    }

    proof fn lemma_roundtrip(
        m: Map<<K as MapKey>::Id, V::Model>,
        pre: Seq<u8>,
        suf: Seq<u8>,
    ) {
        let pairs = sorted_pairs::<K, V::Model>(m);
        let h = cbor::head(cbor::MAP, pairs.len());
        let e = items_encoding::<(K, V)>(pairs);
        cbor::lemma_head(cbor::MAP, pairs.len(), pre, e + suf);
        assert(pre + (h + e) + suf =~= pre + h + (e + suf));
        lemma_items_roundtrip::<(K, V)>(pairs, pre + h, suf);
        assert(pre + (h + e) + suf =~= pre + h + e + suf);
        lemma_entered_sorted::<K, V::Model>(pairs);
    }

    fn encode(&self, out: &mut Vec<u8>) {
        let n: usize = self.len();
        let ghost pairs = self.pairs();
        let ghost ms = pair_models(pairs);
        cbor::put_map(out, n as u64);
        let ghost start = out@;
        let mut i: usize = 0;
        proof {
            assert(ms.take(0) =~= Seq::<(<K as MapKey>::Id, V::Model)>::empty());
            assert(start + items_encoding::<(K, V)>(ms.take(0)) =~= start);
        }
        while i < n
            invariant
                i <= n == pairs.len(),
                pairs == self.pairs(),
                ms == pair_models(pairs),
                all_encodable::<(K, V)>(ms.take(i as int)),
                out@ == start + items_encoding::<(K, V)>(ms.take(i as int)),
            decreases n - i,
        {
            let ghost before = ms.take(i as int);
            let ghost m = ms[i as int];
            let (key, value) = self.entry(i);
            proof {
                key.lemma_key_model();
            }
            key.encode(out);
            value.encode(out);
            proof {
                assert(ms.take(i + 1) =~= before.push(m));
                lemma_items_encoding_push::<(K, V)>(before, m);
                assert(out@ =~= start + (items_encoding::<(K, V)>(before) + <(K, V)>::encoding(m)));
            }
            i = i + 1;
        }
        proof {
            assert(ms.take(n as int) =~= ms);
            lemma_pair_models::<K, V>(pairs);
            assert(out@ =~= old(out)@ + Self::encoding(self.model()));
        }
    }
}

/// The fields of a record that have been read so far.
pub type Fields<A, B, C> = (Option<A>, Option<B>, Option<C>);

/// The field of index `i` at `pos`. A field of an index that the record does not
/// have is passed over.
pub open spec fn field_at<A: CborDecode, B: CborDecode, C: CborDecode>(
    b: Seq<u8>,
    pos: int,
    i: nat,
    got: Fields<A::Model, B::Model, C::Model>,
) -> Option<(Fields<A::Model, B::Model, C::Model>, int)> {
    if i == 0 {
        match A::parse(b, pos) {
            Some((m, p)) => Some(((Some(m), got.1, got.2), p)),
            None => None,
        }
    } else if i == 1 {
        match B::parse(b, pos) {
            Some((m, p)) => Some(((got.0, Some(m), got.2), p)),
            None => None,
        }
    } else if i == 2 {
        match C::parse(b, pos) {
            Some((m, p)) => Some(((got.0, got.1, Some(m)), p)),
            None => None,
        }
    } else {
        match cbor::skipped(b, pos) {
            Some(p) => Some((got, p)),
            None => None,
        }
    }
}

/// The fields from index `i` on: `left` of them, or all up to a break byte.
pub open spec fn fields<A: CborDecode, B: CborDecode, C: CborDecode>(
    b: Seq<u8>,
    pos: int,
    i: nat,
    left: Option<nat>,
    got: Fields<A::Model, B::Model, C::Model>,
) -> Option<(Fields<A::Model, B::Model, C::Model>, int)>
    decreases b.len() - pos,
{
    if left == Some(0nat) {
        Some((got, pos))
    } else if left is None && 0 <= pos < b.len() && b[pos] == cbor::BREAK {
        Some((got, pos + 1))
    } else {
        match field_at::<A, B, C>(b, pos, i, got) {
            Some((g, p)) => if pos < p <= b.len() {
                fields::<A, B, C>(b, p, i + 1, one_less(left), g)
            } else {
                None
            },
            None => None,
        }
    }
}

/// The record of up to three known fields at `pos`, and where it ends. A record
/// is an array of its fields; fields may be missing at its end.
pub open spec fn record<A: CborDecode, B: CborDecode, C: CborDecode>(
    b: Seq<u8>,
    pos: int,
) -> Option<(Fields<A::Model, B::Model, C::Model>, int)> {
    match cbor::container(b, pos, cbor::ARRAY) {
        Some((n, p)) => fields::<A, B, C>(b, p, 0, n, (None, None, None)),
        None => None,
    }
}

/// What is said to be wrong with the field of index `i` at `pos`.
pub open spec fn field_failure<A: CborDecode, B: CborDecode, C: CborDecode>(
    b: Seq<u8>,
    pos: int,
    i: nat,
) -> Seq<char> {
    if i == 0 {
        A::failure(b, pos)
    } else if i == 1 {
        B::failure(b, pos)
    } else if i == 2 {
        C::failure(b, pos)
    } else {
        cbor::skip_failure(b, pos)
    }
}

/// What is said to be wrong with the fields from index `i` on: what is wrong with the
/// first one that cannot be read.
pub open spec fn fields_failure<A: CborDecode, B: CborDecode, C: CborDecode>(
    b: Seq<u8>,
    pos: int,
    i: nat,
    got: Fields<A::Model, B::Model, C::Model>,
) -> Seq<char>
    decreases b.len() - pos,
{
    match field_at::<A, B, C>(b, pos, i, got) {
        Some((g, p)) => if pos < p <= b.len() {
            fields_failure::<A, B, C>(b, p, i + 1, g)
        } else {
            field_failure::<A, B, C>(b, pos, i)
        },
        None => field_failure::<A, B, C>(b, pos, i),
    }
}

/// What is said to be wrong with the record at `pos`.
pub open spec fn record_failure<A: CborDecode, B: CborDecode, C: CborDecode>(
    b: Seq<u8>,
    pos: int,
) -> Seq<char> {
    match cbor::container(b, pos, cbor::ARRAY) {
        Some((_, p)) => fields_failure::<A, B, C>(b, p, 0, (None, None, None)),
        None => cbor::minicbor_array_error(b, pos),
    }
}

/// One field takes at least one byte, and not more than there are.
proof fn lemma_field_advances<A: CborDecode, B: CborDecode, C: CborDecode>(
    b: Seq<u8>,
    pos: int,
    i: nat,
    got: Fields<A::Model, B::Model, C::Model>,
)
    ensures
        field_at::<A, B, C>(b, pos, i, got) matches Some((_, p)) ==> 0 <= pos < p <= b.len(),
{
    A::lemma_parse_advances(b, pos);
    B::lemma_parse_advances(b, pos);
    C::lemma_parse_advances(b, pos);
}

/// Fields do not begin before the buffer and do not end after it.
proof fn lemma_fields_advance<A: CborDecode, B: CborDecode, C: CborDecode>(
    b: Seq<u8>,
    pos: int,
    i: nat,
    left: Option<nat>,
    got: Fields<A::Model, B::Model, C::Model>,
)
    requires
        0 <= pos <= b.len(),
    ensures
        fields::<A, B, C>(b, pos, i, left, got) matches Some((_, p)) ==> pos <= p <= b.len(),
    decreases b.len() - pos,
{
    lemma_field_advances::<A, B, C>(b, pos, i, got);
    if let Some((g, p)) = field_at::<A, B, C>(b, pos, i, got) {
        if pos < p <= b.len() {
            lemma_fields_advance::<A, B, C>(b, p, i + 1, one_less(left), g);
        }
    }
}

/// A record takes at least one byte, and not more than there are.
pub proof fn lemma_record_advances<A: CborDecode, B: CborDecode, C: CborDecode>(
    b: Seq<u8>,
    pos: int,
)
    ensures
        record::<A, B, C>(b, pos) matches Some((_, p)) ==> 0 <= pos < p <= b.len(),
{
    if let Some((n, p)) = cbor::container(b, pos, cbor::ARRAY) {
        lemma_fields_advance::<A, B, C>(b, p, 0, n, (None, None, None));
    }
}

/// The models of the fields that were read.
pub open spec fn fields_model<A: CborDecode, B: CborDecode, C: CborDecode>(
    got: Fields<A, B, C>,
) -> Fields<A::Model, B::Model, C::Model> {
    (option_model(got.0), option_model(got.1), option_model(got.2))
}

/// Reads the record at `pos`.
pub fn decode_record<A: CborDecode, B: CborDecode, C: CborDecode>(b: &[u8], pos: usize) -> (r:
    Result<(Fields<A, B, C>, usize), CborError>)
    ensures
        match r {
            Ok((got, p)) => record::<A, B, C>(b@, pos as int) == Some(
                (fields_model(got), p as int),
            ),
            Err(e) => record::<A, B, C>(b@, pos as int) is None && e@ == record_failure::<A, B, C>(
                b@,
                pos as int,
            ),
        },
{
    let (n, start) = match cbor::get_array(b, pos) {
        Ok(h) => h,
        Err(e) => {
            return Err(e);
        },
    };
    let mut got: Fields<A, B, C> = (None, None, None);
    let mut p: usize = start;
    let mut i: usize = 0;
    let mut k: Option<u64> = n;
    loop
        invariant
            i <= p <= b@.len(),
            record::<A, B, C>(b@, pos as int) == fields::<A, B, C>(
                b@,
                p as int,
                i as nat,
                cbor::count(k),
                fields_model(got),
            ),
            record_failure::<A, B, C>(b@, pos as int) == fields_failure::<A, B, C>(
                b@,
                p as int,
                i as nat,
                fields_model(got),
            ),
        decreases b@.len() - p,
    {
        match k {
            Some(0) => {
                return Ok((got, p));
            },
            None => {
                if p < b.len() && b[p] == cbor::BREAK {
                    return Ok((got, p + 1));
                }
            },
            Some(_) => {},
        }
        proof {
            lemma_field_advances::<A, B, C>(b@, p as int, i as nat, fields_model(got));
        }
        let q: usize = if i == 0 {
            let (v, q) = match A::decode(b, p) {
                Ok(x) => x,
                Err(e) => {
                    return Err(e);
                },
            };
            got = (Some(v), got.1, got.2);
            q
        } else if i == 1 {
            let (v, q) = match B::decode(b, p) {
                Ok(x) => x,
                Err(e) => {
                    return Err(e);
                },
            };
            got = (got.0, Some(v), got.2);
            q
        } else if i == 2 {
            let (v, q) = match C::decode(b, p) {
                Ok(x) => x,
                Err(e) => {
                    return Err(e);
                },
            };
            got = (got.0, got.1, Some(v));
            q
        } else {
            match cbor::get_skip(b, p) {
                Ok(q) => q,
                Err(e) => {
                    return Err(e);
                },
            }
        };
        p = q;
        i = i + 1;
        k = match k {
            Some(j) => Some(j - 1),
            None => None,
        };
    }
}

/// A record of three fields that was written is read back.
pub proof fn lemma_record3<A: CborEncode, B: CborEncode, C: CborEncode>(
    x: A::Model,
    y: B::Model,
    z: C::Model,
    pre: Seq<u8>,
    suf: Seq<u8>,
)
    requires
        A::encodable(x),
        B::encodable(y),
        C::encodable(z),
    ensures
        record::<A, B, C>(
            pre + (cbor::head(cbor::ARRAY, 3) + A::encoding(x) + B::encoding(y) + C::encoding(z))
                + suf,
            pre.len() as int,
        ) == Some(
            (
                (Some(x), Some(y), Some(z)),
                (pre.len() + (cbor::head(cbor::ARRAY, 3) + A::encoding(x) + B::encoding(y)
                    + C::encoding(z)).len()) as int,
            ),
        ),
{
    let h = cbor::head(cbor::ARRAY, 3);
    let (ex, ey, ez) = (A::encoding(x), B::encoding(y), C::encoding(z));
    let b = pre + (h + ex + ey + ez) + suf;
    cbor::lemma_head(cbor::ARRAY, 3, pre, ex + ey + ez + suf);
    assert(b =~= pre + h + (ex + ey + ez + suf));
    A::lemma_roundtrip(x, pre + h, ey + ez + suf);
    assert(b =~= pre + h + ex + (ey + ez + suf));
    B::lemma_roundtrip(y, pre + h + ex, ez + suf);
    assert(b =~= pre + h + ex + ey + (ez + suf));
    C::lemma_roundtrip(z, pre + h + ex + ey, suf);
    assert(b =~= pre + h + ex + ey + ez + suf);
    A::lemma_parse_advances(b, (pre + h).len() as int);
    B::lemma_parse_advances(b, (pre + h + ex).len() as int);
    C::lemma_parse_advances(b, (pre + h + ex + ey).len() as int);
    reveal_with_fuel(fields, 4);
}

/// A record of two fields that was written is read back.
pub proof fn lemma_record2<A: CborEncode, B: CborEncode, C: CborDecode>(
    x: A::Model,
    y: B::Model,
    pre: Seq<u8>,
    suf: Seq<u8>,
)
    requires
        A::encodable(x),
        B::encodable(y),
    ensures
        record::<A, B, C>(
            pre + (cbor::head(cbor::ARRAY, 2) + A::encoding(x) + B::encoding(y)) + suf,
            pre.len() as int,
        ) == Some(
            (
                (Some(x), Some(y), None::<C::Model>),
                (pre.len() + (cbor::head(cbor::ARRAY, 2) + A::encoding(x) + B::encoding(
                    y,
                )).len()) as int,
            ),
        ),
{
    let h = cbor::head(cbor::ARRAY, 2);
    let (ex, ey) = (A::encoding(x), B::encoding(y));
    let b = pre + (h + ex + ey) + suf;
    cbor::lemma_head(cbor::ARRAY, 2, pre, ex + ey + suf);
    assert(b =~= pre + h + (ex + ey + suf));
    A::lemma_roundtrip(x, pre + h, ey + suf);
    assert(b =~= pre + h + ex + (ey + suf));
    B::lemma_roundtrip(y, pre + h + ex, suf);
    assert(b =~= pre + h + ex + ey + suf);
    A::lemma_parse_advances(b, (pre + h).len() as int);
    B::lemma_parse_advances(b, (pre + h + ex).len() as int);
    reveal_with_fuel(fields, 3);
}

/// A record of one field that was written is read back.
pub proof fn lemma_record1<A: CborEncode, B: CborDecode, C: CborDecode>(
    x: A::Model,
    pre: Seq<u8>,
    suf: Seq<u8>,
)
    requires
        A::encodable(x),
    ensures
        record::<A, B, C>(
            pre + (cbor::head(cbor::ARRAY, 1) + A::encoding(x)) + suf,
            pre.len() as int,
        ) == Some(
            (
                (Some(x), None::<B::Model>, None::<C::Model>),
                (pre.len() + (cbor::head(cbor::ARRAY, 1) + A::encoding(x)).len()) as int,
            ),
        ),
{
    let h = cbor::head(cbor::ARRAY, 1);
    let ex = A::encoding(x);
    let b = pre + (h + ex) + suf;
    cbor::lemma_head(cbor::ARRAY, 1, pre, ex + suf);
    assert(b =~= pre + h + (ex + suf));
    A::lemma_roundtrip(x, pre + h, suf);
    assert(b =~= pre + h + ex + suf);
    A::lemma_parse_advances(b, (pre + h).len() as int);
    reveal_with_fuel(fields, 2);
}

/// Writes a value into a buffer of its own.
pub fn to_bytes<T: CborEncode>(v: &T) -> (r: Vec<u8>)
    ensures
        T::encodable(v.model()),
        r@ == T::encoding(v.model()),
        parsed::<T>(r@) == Some(v.model()),
{
    let mut out: Vec<u8> = Vec::new();
    v.encode(&mut out);
    proof {
        lemma_parsed_encoding::<T>(v.model(), Seq::empty());
    }
    assert(Seq::<u8>::empty() + T::encoding(v.model()) =~= T::encoding(v.model()));
    out
}

/// Reads a value from the beginning of `b`. What follows it is not looked at.
pub fn from_bytes<T: CborDecode>(b: &[u8]) -> (r: Result<T, CborError>)
    ensures
        match r {
            Ok(v) => parsed::<T>(b@) == Some(v.model()),
            Err(e) => parsed::<T>(b@) is None && e@ == T::failure(b@, 0),
        },
{
    match T::decode(b, 0) {
        Ok((v, _)) => Ok(v),
        Err(e) => Err(e),
    }
}

/// What the beginning of `b` stands for.
pub open spec fn parsed<T: CborDecode>(b: Seq<u8>) -> Option<T::Model> {
    match T::parse(b, 0) {
        Some((m, _)) => Some(m),
        None => None,
    }
}

/// What was written is read back, whatever follows it.
pub proof fn lemma_parsed_encoding<T: CborEncode>(m: T::Model, suf: Seq<u8>)
    requires
        T::encodable(m),
    ensures
        parsed::<T>(T::encoding(m) + suf) == Some(m),
        parsed::<T>(T::encoding(m)) == Some(m),
{
    let none = Seq::<u8>::empty();
    T::lemma_roundtrip(m, none, suf);
    assert(none + T::encoding(m) + suf =~= T::encoding(m) + suf);
    T::lemma_roundtrip(m, none, none);
    assert(none + T::encoding(m) + none =~= T::encoding(m));
}

/// Different models are written as different bytes.
pub proof fn lemma_encoding_injective<T: CborEncode>(x: T::Model, y: T::Model)
    requires
        T::encodable(x),
        T::encodable(y),
        T::encoding(x) == T::encoding(y),
    ensures
        x == y,
{
    lemma_parsed_encoding::<T>(x, Seq::empty());
    lemma_parsed_encoding::<T>(y, Seq::empty());
}

/// Elements are written in their order, each by itself.
pub proof fn law_elements_in_order<T: CborEncode>(a: Seq<T::Model>, b: Seq<T::Model>, m: T::Model)
    ensures
        items_encoding::<T>(Seq::empty()) == Seq::<u8>::empty(),
        items_encoding::<T>(seq![m]) == T::encoding(m),
        items_encoding::<T>(a + b) == items_encoding::<T>(a) + items_encoding::<T>(b),
    decreases b.len(),
{
    assert(seq![m] =~= Seq::<T::Model>::empty().push(m));
    lemma_items_encoding_push::<T>(Seq::empty(), m);
    assert(items_encoding::<T>(Seq::empty()) + T::encoding(m) =~= T::encoding(m));
    if b.len() == 0 {
        assert(a + b =~= a);
        assert(items_encoding::<T>(a) + items_encoding::<T>(b) =~= items_encoding::<T>(a));
    } else {
        let front = b.drop_last();
        law_elements_in_order::<T>(a, front, m);
        assert(a + b =~= (a + front).push(b.last()));
        assert(b =~= front.push(b.last()));
        lemma_items_encoding_push::<T>(a + front, b.last());
        lemma_items_encoding_push::<T>(front, b.last());
        assert(items_encoding::<T>(a) + items_encoding::<T>(front) + T::encoding(b.last())
            =~= items_encoding::<T>(a) + (items_encoding::<T>(front) + T::encoding(b.last())));
    }
}

/// How values are written. A truth value is one byte. A small number is one byte, and another
/// of one byte's size comes behind a mark. A text and a byte string come behind their length.
/// Thirty-two bytes are an array of so many numbers, in their order.
pub proof fn law_values_written(
    truth: bool,
    n: u8,
    text: Seq<char>,
    bytes: Seq<u8>,
    id: Seq<u8>,
)
    requires
        id.len() == 32,
    ensures
        bool::encoding(truth) == seq![if truth { 0xf5u8 } else { 0xf4u8 }],
        u8::encoding(n) == (if n < 24 {
            seq![n]
        } else {
            seq![0x18u8, n]
        }),
        String::encoding(text) == cbor::head(3, vstd::utf8::encode_utf8(text).len())
            + vstd::utf8::encode_utf8(text),
        Vec::<u8>::encoding(bytes) == cbor::head(2, bytes.len()) + bytes,
        <[u8; 32]>::encoding(id) == seq![0x98u8, 0x20u8] + items_encoding::<u8>(id),
{
    assert(cbor::head(cbor::ARRAY, 32) =~= seq![0x98u8, 0x20u8]);
}

/// A key that is entered twice has the later value.
pub proof fn law_later_entry_wins<Id, M>(pairs: Seq<(Id, M)>, id: Id, m: M)
    ensures
        entered(Seq::<(Id, M)>::empty()) == Map::<Id, M>::empty(),
        entered(pairs.push((id, m))).contains_key(id),
        entered(pairs.push((id, m)))[id] == m,
        forall|other: Id|
            other != id ==> #[trigger] entered(pairs.push((id, m))).contains_key(other) == entered(
                pairs,
            ).contains_key(other) && (entered(pairs).contains_key(other) ==> entered(
                pairs.push((id, m)),
            )[other] == entered(pairs)[other]),
{
    assert(pairs.push((id, m)).drop_last() =~= pairs);
}

/// A failure is told with the place where it was found, and a missing field with its index,
/// its name and the place where its record begins.
pub proof fn law_failures_are_placed(message: Seq<char>, index: nat, name: Seq<char>, pos: nat)
    ensures
        message_at(message, pos) == "decode error at position "@ + text::decimal(pos) + ": "@
            + message,
        missing_field(index, name, pos) == "missing value at index "@ + text::decimal(index)
            + " ("@ + name + ") in map or array starting at position "@ + text::decimal(pos),
{
}

} // verus!
