//! The fixed-capacity UTF-8 string over the byte vector.
use crate::copy::CopyArrayVec;
use crate::error::{FromUtf16Error, FromUtf8Error, OutOfMemoryError};
use crate::vec::retained;
use core::char::DecodeUtf16Error;
use core::str::Utf8Error;
use vstd::prelude::*;
use vstd::string::StringSliceAdditionalSpecFns;
use vstd::utf8::*;

verus! {

/// A UTF-8 string of at most `N` bytes stored inline.
pub struct ArrayString<const N: usize> {
    vec: CopyArrayVec<u8, N>,
}

/// The offset that a `Utf8Error` reports through `valid_up_to`: the length
/// of the part, from the start, that was found valid.
pub uninterp spec fn error_valid_up_to(error: Utf8Error) -> nat;

/// Whether `n` is the length of the longest prefix of `bytes` that is valid
/// UTF-8.
pub open spec fn longest_valid_prefix(bytes: Seq<u8>, n: nat) -> bool {
    &&& n <= bytes.len()
    &&& valid_utf8(bytes.take(n as int))
    &&& forall|m: int| n < m <= bytes.len() ==> !valid_utf8(#[trigger] bytes.take(m))
}

/// `core::str::from_utf8` accepts exactly the byte sequences that are valid
/// UTF-8, and the text it hands back has those bytes. The error it gives
/// otherwise reports the length of the longest valid prefix.
pub assume_specification[ core::str::from_utf8 ](v: &[u8]) -> (res: Result<&str, Utf8Error>)
    ensures
        res is Ok <==> valid_utf8(v@),
        res matches Ok(s) ==> s.spec_bytes() == v@,
        res matches Err(e) ==> longest_valid_prefix(v@, error_valid_up_to(e)),
;

/// `String::from_utf8` accepts exactly the byte vectors that are valid
/// UTF-8, and the string it gives has the characters that they decode to.
pub assume_specification[ String::from_utf8 ](vec: Vec<u8>) -> (res: Result<
    String,
    std::string::FromUtf8Error,
>)
    ensures
        res is Ok <==> valid_utf8(vec@),
        res matches Ok(s) ==> s@ == decode_utf8(vec@),
;

/// `char::from_u32` gives the character with the given scalar value, and
/// `None` for a value that is no Unicode scalar.
pub assume_specification[ char::from_u32 ](i: u32) -> (res: Option<char>)
    ensures
        is_scalar(i) ==> res == Some(i as char),
        !is_scalar(i) ==> res is None,
;

/// The bytes of `text` with `middle` put in at `index`.
pub open spec fn spliced(text: Seq<u8>, index: int, middle: Seq<u8>) -> Seq<u8> {
    text.take(index) + middle + text.skip(index)
}

/// Splicing valid UTF-8 into valid UTF-8 at a character boundary gives
/// valid UTF-8.
pub proof fn lemma_spliced_valid(text: Seq<u8>, index: int, middle: Seq<u8>)
    requires
        valid_utf8(text),
        valid_utf8(middle),
        is_char_boundary(text, index),
        0 <= index <= text.len(),
    ensures
        valid_utf8(spliced(text, index, middle)),
{
    valid_utf8_split(text, index);
    assert(text.take(index) == text.subrange(0, index));
    assert(text.skip(index) == text.subrange(index, text.len() as int));
    valid_utf8_concat(text.take(index), middle);
    valid_utf8_concat(text.take(index) + middle, text.skip(index));
}

/// A character boundary of valid UTF-8 lies within the bytes.
pub proof fn lemma_boundary_in_range(bytes: Seq<u8>, index: int)
    requires
        valid_utf8(bytes),
        is_char_boundary(bytes, index),
    ensures
        0 <= index <= bytes.len(),
    decreases bytes.len(),
{
    if index != 0 {
        if bytes.len() > 0 {
            lemma_boundary_in_range(pop_first_scalar(bytes), index - length_of_first_scalar(bytes));
        }
    }
}

/// The UTF-8 encoding of `c`, one to four bytes.
pub fn encode_char(c: char) -> (bytes: Vec<u8>)
    ensures
        bytes@ == encode_scalar(c as u32),
        valid_utf8(bytes@),
        1 <= bytes@.len() <= 4,
{
    let v: u32 = c as u32;
    proof {
        char_is_scalar(c);
        assert(encode_utf8(seq![c]) =~= encode_scalar(c as u32)) by {
            reveal_with_fuel(encode_utf8, 2);
            assert(seq![c].drop_first() =~= Seq::<char>::empty());
        }
        encode_utf8_valid_utf8(seq![c]);
    }
    let mut bytes: Vec<u8> = Vec::new();
    if v <= 0x7F {
        assert((v & 0x7F) <= 0xFF) by (bit_vector);
        bytes.push((v & 0x7F) as u8);
    } else if v <= 0x7FF {
        assert(((v >> 6) & 0x1F) <= 0xFF && (v & 0x3F) <= 0xFF) by (bit_vector);
        bytes.push(0xC0 | ((v >> 6) & 0x1F) as u8);
        bytes.push(0x80 | (v & 0x3F) as u8);
    } else if v <= 0xFFFF {
        assert(((v >> 12) & 0x0F) <= 0xFF && ((v >> 6) & 0x3F) <= 0xFF && (v & 0x3F) <= 0xFF)
            by (bit_vector);
        bytes.push(0xE0 | ((v >> 12) & 0x0F) as u8);
        bytes.push(0x80 | ((v >> 6) & 0x3F) as u8);
        bytes.push(0x80 | (v & 0x3F) as u8);
    } else {
        assert(((v >> 18) & 0x7) <= 0xFF && ((v >> 12) & 0x3F) <= 0xFF && ((v >> 6) & 0x3F)
            <= 0xFF && (v & 0x3F) <= 0xFF) by (bit_vector);
        bytes.push(0xF0 | ((v >> 18) & 0x7) as u8);
        bytes.push(0x80 | ((v >> 12) & 0x3F) as u8);
        bytes.push(0x80 | ((v >> 6) & 0x3F) as u8);
        bytes.push(0x80 | (v & 0x3F) as u8);
    }
    assert(bytes@ =~= encode_scalar(c as u32));
    bytes
}

/// Whether the two slices hold the same bytes.
fn bytes_equal(a: &[u8], b: &[u8]) -> (same: bool)
    ensures
        same == (a@ == b@),
{
    if a.len() != b.len() {
        return false;
    }
    let mut i: usize = 0;
    while i < a.len()
        invariant
            i <= a@.len() == b@.len(),
            forall|j: int| 0 <= j < i ==> a@[j] == b@[j],
        decreases a@.len() - i,
    {
        if a[i] != b[i] {
            return false;
        }
        i = i + 1;
    }
    assert(a@ =~= b@);
    true
}

/// Puts `bytes` into `vec` at `index`, moving what stood from `index` on
/// behind them.
fn insert_bytes<const N: usize>(vec: &mut CopyArrayVec<u8, N>, index: usize, bytes: &[u8])
    requires
        old(vec).inv(),
        index <= old(vec)@.len(),
        old(vec)@.len() + bytes@.len() <= N,
    ensures
        final(vec).inv(),
        final(vec)@ == spliced(old(vec)@, index as int, bytes@),
{
    let mut back: CopyArrayVec<u8, N> = vec.split_off(index);
    let _ = vec.extend_from_slice(bytes);
    let _ = vec.append(&mut back);
}

/// Where the last character of `bytes` starts: the index of the last byte
/// that is no continuation byte.
pub open spec fn last_char_start(bytes: Seq<u8>) -> int
    decreases bytes.len(),
{
    if bytes.len() == 0 {
        0
    } else if !is_continuation_byte(bytes.last()) {
        bytes.len() - 1
    } else {
        last_char_start(bytes.drop_last())
    }
}

/// Encoding a text with one more character appends that character's
/// encoding.
pub proof fn lemma_encode_push(chars: Seq<char>, c: char)
    ensures
        encode_utf8(chars.push(c)) == encode_utf8(chars) + encode_scalar(c as u32),
    decreases chars.len(),
{
    if chars.len() == 0 {
        assert(chars.push(c).drop_first() =~= Seq::<char>::empty());
        reveal_with_fuel(encode_utf8, 2);
        assert(encode_utf8(chars.push(c)) =~= encode_utf8(chars) + encode_scalar(c as u32));
    } else {
        assert(chars.push(c).drop_first() =~= chars.drop_first().push(c));
        lemma_encode_push(chars.drop_first(), c);
        assert(encode_utf8(chars.push(c)) =~= encode_utf8(chars) + encode_scalar(c as u32));
    }
}

/// Encoding two texts one after the other gives the two encodings one
/// after the other.
pub proof fn lemma_encode_concat(front: Seq<char>, back: Seq<char>)
    ensures
        encode_utf8(front + back) == encode_utf8(front) + encode_utf8(back),
    decreases back.len(),
{
    if back.len() == 0 {
        assert(front + back =~= front);
        assert(encode_utf8(front + back) =~= encode_utf8(front) + encode_utf8(back));
    } else {
        assert(front + back =~= (front + back.drop_last()).push(back.last()));
        assert(back =~= back.drop_last().push(back.last()));
        lemma_encode_push(front + back.drop_last(), back.last());
        lemma_encode_push(back.drop_last(), back.last());
        lemma_encode_concat(front, back.drop_last());
        assert(encode_utf8(front + back) =~= encode_utf8(front) + encode_utf8(back));
    }
}

/// The number of characters that stand before the byte `index` of `bytes`.
pub open spec fn char_index(bytes: Seq<u8>, index: int) -> int {
    decode_utf8(bytes.take(index)).len() as int
}

/// Decoding two valid texts one after the other gives the characters of
/// the first followed by those of the second.
pub proof fn lemma_decode_concat(front: Seq<u8>, back: Seq<u8>)
    requires
        valid_utf8(front),
        valid_utf8(back),
    ensures
        valid_utf8(front + back),
        decode_utf8(front + back) == decode_utf8(front) + decode_utf8(back),
{
    valid_utf8_concat(front, back);
    decode_utf8_encode_utf8(front);
    decode_utf8_encode_utf8(back);
    lemma_encode_concat(decode_utf8(front), decode_utf8(back));
    encode_utf8_decode_utf8(decode_utf8(front) + decode_utf8(back));
}

/// Cutting valid UTF-8 at a character boundary cuts its characters at
/// `char_index`.
pub proof fn lemma_split_chars(bytes: Seq<u8>, index: int)
    requires
        valid_utf8(bytes),
        is_char_boundary(bytes, index),
    ensures
        0 <= index <= bytes.len(),
        valid_utf8(bytes.take(index)),
        valid_utf8(bytes.skip(index)),
        0 <= char_index(bytes, index) <= decode_utf8(bytes).len(),
        decode_utf8(bytes.take(index)) == decode_utf8(bytes).take(char_index(bytes, index)),
        decode_utf8(bytes.skip(index)) == decode_utf8(bytes).skip(char_index(bytes, index)),
{
    lemma_boundary_in_range(bytes, index);
    valid_utf8_split(bytes, index);
    decode_utf8_split(bytes, index);
    assert(bytes.take(index) == bytes.subrange(0, index));
    assert(bytes.skip(index) == bytes.subrange(index, bytes.len() as int));
    let front = decode_utf8(bytes.take(index));
    let back = decode_utf8(bytes.skip(index));
    assert(decode_utf8(bytes) =~= front + back);
    assert((front + back).take(front.len() as int) =~= front);
    assert((front + back).skip(front.len() as int) =~= back);
}

/// The encoding of one character decodes to that character.
pub proof fn lemma_decode_one(c: char)
    ensures
        valid_utf8(encode_scalar(c as u32)),
        decode_utf8(encode_scalar(c as u32)) == seq![c],
{
    assert(encode_utf8(seq![c]) =~= encode_scalar(c as u32)) by {
        reveal_with_fuel(encode_utf8, 2);
        assert(seq![c].drop_first() =~= Seq::<char>::empty());
    }
    encode_utf8_valid_utf8(seq![c]);
    encode_utf8_decode_utf8(seq![c]);
}

/// The first character of non-empty valid UTF-8: what it is, how its
/// encoding relates to the bytes, and what is left behind it.
pub proof fn lemma_first_char(bytes: Seq<u8>)
    requires
        valid_utf8(bytes),
        bytes.len() > 0,
    ensures
        1 <= length_of_first_scalar(bytes) <= 4,
        length_of_first_scalar(bytes) <= bytes.len(),
        is_scalar(decode_first_scalar(bytes)),
        valid_utf8(bytes.skip(length_of_first_scalar(bytes))),
        bytes.take(length_of_first_scalar(bytes)) == encode_scalar(
            (decode_first_scalar(bytes) as char) as u32,
        ),
        decode_utf8(bytes) == seq![decode_first_scalar(bytes) as char] + decode_utf8(
            bytes.skip(length_of_first_scalar(bytes)),
        ),
{
    let b0 = bytes[0];
    let cp = decode_first_scalar(bytes);
    if is_leading_byte_width_1(b0) {
        assert((b0 & 0x7F) as u32 <= 0x7F) by (bit_vector);
    } else if is_leading_byte_width_2(b0) {
        let b1 = bytes[1];
        assert((((b0 & 0x1F) as u32) << 6) | ((b1 & 0x3f) as u32) <= 0x7FF) by (bit_vector);
    } else if is_leading_byte_width_3(b0) {
        let b1 = bytes[1];
        let b2 = bytes[2];
        assert((((b0 & 0x0F) as u32) << 12) | (((b1 & 0x3f) as u32) << 6) | ((b2 & 0x3f) as u32)
            <= 0xFFFF) by (bit_vector);
    } else {
    }
    decode_utf8_first_scalar(bytes);
    assert(pop_first_scalar(bytes) == bytes.skip(length_of_first_scalar(bytes)));
    assert(take_first_scalar(bytes) == bytes.take(length_of_first_scalar(bytes)));
}

/// Decodes the character that starts at `index`; `width` is the number of
/// bytes it takes.
fn decode_at<const N: usize>(vec: &CopyArrayVec<u8, N>, index: usize) -> (res: (char, usize))
    requires
        vec.inv(),
        index < vec@.len(),
        valid_utf8(vec@.skip(index as int)),
    ensures
        res.0 == decode_first_scalar(vec@.skip(index as int)) as char,
        res.1 == length_of_first_scalar(vec@.skip(index as int)),
        index + res.1 <= vec@.len(),
{
    let ghost rest = vec@.skip(index as int);
    proof {
        lemma_first_char(rest);
        vec.lemma_len_within_capacity();
    }
    let b0: u8 = vec.get(index).unwrap();
    assert(b0 == rest[0]);
    let (cp, width): (u32, usize) = if b0 <= 0x7F {
        ((b0 & 0x7F) as u32, 1)
    } else if 0xC0 <= b0 && b0 <= 0xDF {
        assert(rest[1] == vec@[index + 1]);
        let b1: u8 = vec.get(index + 1).unwrap();
        ((((b0 & 0x1F) as u32) << 6) | ((b1 & 0x3F) as u32), 2)
    } else if 0xE0 <= b0 && b0 <= 0xEF {
        assert(rest[1] == vec@[index + 1]);
        assert(rest[2] == vec@[index + 2]);
        let b1: u8 = vec.get(index + 1).unwrap();
        let b2: u8 = vec.get(index + 2).unwrap();
        ((((b0 & 0x0F) as u32) << 12) | (((b1 & 0x3F) as u32) << 6) | ((b2 & 0x3F) as u32), 3)
    } else {
        assert(rest[1] == vec@[index + 1]);
        assert(rest[2] == vec@[index + 2]);
        assert(rest[3] == vec@[index + 3]);
        let b1: u8 = vec.get(index + 1).unwrap();
        let b2: u8 = vec.get(index + 2).unwrap();
        let b3: u8 = vec.get(index + 3).unwrap();
        (
            (((b0 & 0x07) as u32) << 18) | (((b1 & 0x3F) as u32) << 12) | (((b2 & 0x3F) as u32)
                << 6) | ((b3 & 0x3F) as u32),
            4,
        )
    };
    assert(cp == decode_first_scalar(rest));
    let c: char = char::from_u32(cp).unwrap();
    (c, width)
}

/// The chunks into which `<[u8]>::utf8_chunks` cuts `bytes`: of each chunk
/// its valid text, as bytes, and the invalid bytes that follow it.
pub uninterp spec fn utf8_chunks_of(bytes: Seq<u8>) -> Seq<(Seq<u8>, Seq<u8>)>;

/// The chunks as sequences of bytes.
pub open spec fn chunk_views(chunks: Seq<(Vec<u8>, Vec<u8>)>) -> Seq<(Seq<u8>, Seq<u8>)> {
    Seq::new(chunks.len(), |i: int| (chunks[i].0@, chunks[i].1@))
}

/// Cuts `v` into chunks with `<[u8]>::utf8_chunks` and copies out, of each
/// chunk, its valid text and its invalid bytes. The contract names the
/// result and claims that every valid part is valid UTF-8.
#[verifier::external_body]
fn utf8_chunks(v: &[u8]) -> (chunks: Vec<(Vec<u8>, Vec<u8>)>)
    ensures
        chunk_views(chunks@) == utf8_chunks_of(v@),
        forall|i: int| 0 <= i < chunks@.len() ==> valid_utf8(#[trigger] chunks@[i].0@),
{
    v.utf8_chunks()
        .map(|chunk| (chunk.valid().as_bytes().to_vec(), chunk.invalid().to_vec()))
        .collect()
}

/// The encoding of U+FFFD, the replacement character.
pub open spec fn replacement_bytes() -> Seq<u8> {
    encode_scalar('\u{FFFD}' as u32)
}

/// The text that stands for `chunks`: the valid parts in order, each
/// followed by one replacement character where invalid bytes follow it.
pub open spec fn lossy_text(chunks: Seq<(Seq<u8>, Seq<u8>)>) -> Seq<u8>
    decreases chunks.len(),
{
    if chunks.len() == 0 {
        Seq::empty()
    } else {
        lossy_text(chunks.drop_last()) + chunks.last().0 + (if chunks.last().1.len() > 0 {
            replacement_bytes()
        } else {
            Seq::empty()
        })
    }
}

/// The text of the first `i` chunks is no longer than the text of all.
pub proof fn lemma_lossy_text_grows(chunks: Seq<(Seq<u8>, Seq<u8>)>, i: int)
    requires
        0 <= i <= chunks.len(),
    ensures
        lossy_text(chunks.take(i)).len() <= lossy_text(chunks).len(),
    decreases chunks.len(),
{
    if i == chunks.len() {
        assert(chunks.take(i) =~= chunks);
    } else {
        assert(chunks.drop_last().take(i) =~= chunks.take(i));
        lemma_lossy_text_grows(chunks.drop_last(), i);
    }
}

/// What `char::decode_utf16` yields for `units`: a character for each code
/// unit outside the surrogate range and for each high surrogate followed
/// by a low one, and `None` for each surrogate that stands alone.
pub open spec fn utf16_decoded(units: Seq<u16>) -> Seq<Option<char>>
    decreases units.len(),
{
    if units.len() == 0 {
        Seq::empty()
    } else if units[0] < 0xD800 || 0xDFFF < units[0] {
        seq![Some((units[0] as u32) as char)] + utf16_decoded(units.skip(1))
    } else if units[0] <= 0xDBFF && units.len() >= 2 && 0xDC00 <= units[1] <= 0xDFFF {
        seq![
            Some(
                ((0x10000 + (units[0] - 0xD800) * 0x400 + (units[1] - 0xDC00)) as u32) as char,
            ),
        ] + utf16_decoded(units.skip(2))
    } else {
        seq![None] + utf16_decoded(units.skip(1))
    }
}

/// Decodes `v` with `char::decode_utf16` and collects what it yields. The
/// contract claims that the items are those of [`utf16_decoded`]: the same
/// characters, and an error exactly where that has `None`.
#[verifier::external_body]
fn decode_utf16_units(v: &[u16]) -> (decoded: Vec<Result<char, DecodeUtf16Error>>)
    ensures
        decoded@.len() == utf16_decoded(v@).len(),
        forall|i: int|
            0 <= i < decoded@.len() ==> match #[trigger] decoded@[i] {
                Ok(c) => utf16_decoded(v@)[i] == Some(c),
                Err(_) => utf16_decoded(v@)[i] is None,
            },
{
    char::decode_utf16(v.iter().cloned()).collect()
}

/// How building a text from decoded items ends.
pub enum Utf16Outcome {
    /// Every item was a character and all fit: the bytes of the text.
    Text(Seq<u8>),
    /// An unpaired surrogate came before the capacity ran out.
    Unpaired,
    /// A character did not fit before any unpaired surrogate came.
    Full,
}

/// The outcome of appending `items` in order to the bytes `text` under the
/// capacity `cap`. With `lossy`, an unpaired surrogate counts as the
/// replacement character; without, it ends the building.
pub open spec fn utf16_outcome(
    items: Seq<Option<char>>,
    text: Seq<u8>,
    cap: int,
    lossy: bool,
) -> Utf16Outcome
    decreases items.len(),
{
    if items.len() == 0 {
        Utf16Outcome::Text(text)
    } else if items[0] is None && !lossy {
        Utf16Outcome::Unpaired
    } else {
        let c = if items[0] is None {
            '\u{FFFD}'
        } else {
            items[0]->0
        };
        if text.len() + encode_scalar(c as u32).len() > cap {
            Utf16Outcome::Full
        } else {
            utf16_outcome(items.skip(1), text + encode_scalar(c as u32), cap, lossy)
        }
    }
}

/// The decoded items as plain values: the character, or `None` for an error.
pub open spec fn decoded_items(decoded: Seq<Result<char, DecodeUtf16Error>>) -> Seq<Option<char>> {
    Seq::new(
        decoded.len(),
        |i: int|
            match decoded[i] {
                Ok(c) => Some(c),
                Err(_) => None,
            },
    )
}

impl<const N: usize> View for ArrayString<N> {
    type V = Seq<char>;

    /// The characters of the text.
    closed spec fn view(&self) -> Seq<char> {
        decode_utf8(self.vec@)
    }
}

impl<const N: usize> ArrayString<N> {
    /// The bytes of the text.
    pub closed spec fn spec_bytes(&self) -> Seq<u8> {
        self.vec@
    }

    /// The invariant: the byte vector is well formed and holds valid UTF-8.
    pub closed spec fn inv(&self) -> bool {
        self.vec.inv() && valid_utf8(self.vec@)
    }

    /// A well-formed string holds valid UTF-8 of at most `N` bytes, and its
    /// view is what those bytes decode to.
    pub proof fn lemma_inv(&self)
        requires
            self.inv(),
        ensures
            self.spec_bytes().len() <= N,
            valid_utf8(self.spec_bytes()),
            self@ == decode_utf8(self.spec_bytes()),
            encode_utf8(self@) == self.spec_bytes(),
    {
        self.vec.lemma_len_within_capacity();
        decode_utf8_encode_utf8(self.vec@);
    }

    /// Round trip: a string whose bytes are `bytes` has the characters that
    /// `bytes` decode to, and encoding them gives `bytes` again.
    pub proof fn lemma_round_trip(&self, bytes: Seq<u8>)
        requires
            self.inv(),
            self.spec_bytes() == bytes,
        ensures
            valid_utf8(bytes),
            self@ == decode_utf8(bytes),
            encode_utf8(self@) == bytes,
    {
        self.lemma_inv();
    }

    /// The empty string.
    pub fn new() -> (string: ArrayString<N>)
        ensures
            string.inv(),
            string.spec_bytes() == Seq::<u8>::empty(),
            string@ == Seq::<char>::empty(),
    {
        let string = ArrayString { vec: CopyArrayVec::new() };
        assert(string@ =~= Seq::<char>::empty());
        string
    }

    /// The string with the bytes of `vec`, or the standard library's report
    /// when they are not valid UTF-8.
    pub fn from_utf8(vec: CopyArrayVec<u8, N>) -> (res: Result<ArrayString<N>, Utf8Error>)
        requires
            vec.inv(),
        ensures
            res is Ok <==> valid_utf8(vec@),
            res matches Ok(string) ==> string.inv() && string.spec_bytes() == vec@ && string@
                == decode_utf8(vec@),
            res matches Err(e) ==> longest_valid_prefix(vec@, error_valid_up_to(e)),
    {
        let bytes: Vec<u8> = vec.to_vec();
        match core::str::from_utf8(bytes.as_slice()) {
            Ok(_) => Ok(ArrayString { vec }),
            Err(e) => Err(e),
        }
    }

    /// The string with the bytes `v`: bytes that are not valid UTF-8 are
    /// reported first, and valid text that does not fit after that.
    pub fn try_from_bytes(v: &[u8]) -> (res: Result<ArrayString<N>, FromUtf8Error>)
        ensures
            valid_utf8(v@) && v@.len() <= N ==> res is Ok && res->Ok_0.inv()
                && res->Ok_0.spec_bytes() == v@,
            valid_utf8(v@) && v@.len() > N ==> res matches Err(FromUtf8Error::OutOfMemory(_)),
            !valid_utf8(v@) ==> (res matches Err(FromUtf8Error::Utf8(e)) && longest_valid_prefix(
                v@,
                error_valid_up_to(e),
            )),
    {
        match core::str::from_utf8(v) {
            Ok(_) => match CopyArrayVec::try_from_slice(v) {
                Ok(vec) => Ok(ArrayString { vec }),
                Err(e) => Err(FromUtf8Error::OutOfMemory(e)),
            },
            Err(e) => Err(FromUtf8Error::Utf8(e)),
        }
    }

    /// The string with the bytes of `bytes`, which the caller knows to be
    /// valid UTF-8.
    pub fn from_utf8_unchecked(bytes: CopyArrayVec<u8, N>) -> (string: ArrayString<N>)
        requires
            bytes.inv(),
            valid_utf8(bytes@),
        ensures
            string.inv(),
            string.spec_bytes() == bytes@,
    {
        ArrayString { vec: bytes }
    }

    /// The fixed capacity in bytes.
    pub fn capacity(&self) -> (n: usize)
        ensures
            n == N,
    {
        self.vec.capacity()
    }

    /// The length in bytes.
    pub fn len(&self) -> (n: usize)
        requires
            self.inv(),
        ensures
            n == self.spec_bytes().len(),
            n <= N,
    {
        self.vec.len()
    }

    /// Whether the text is empty.
    pub fn is_empty(&self) -> (b: bool)
        requires
            self.inv(),
        ensures
            b == (self.spec_bytes().len() == 0),
    {
        self.vec.is_empty()
    }

    /// Gives up the string for its byte vector.
    pub fn into_bytes(self) -> (vec: CopyArrayVec<u8, N>)
        requires
            self.inv(),
        ensures
            vec.inv(),
            vec@ == self.spec_bytes(),
            valid_utf8(vec@),
    {
        self.vec
    }

    /// The bytes of the text.
    pub fn as_bytes(&self) -> (bytes: Vec<u8>)
        requires
            self.inv(),
        ensures
            bytes@ == self.spec_bytes(),
    {
        self.vec.to_vec()
    }

    /// The text as a heap string.
    pub fn to_string(&self) -> (text: String)
        requires
            self.inv(),
        ensures
            text@ == self@,
    {
        match String::from_utf8(self.vec.to_vec()) {
            Ok(text) => text,
            Err(_) => String::new(),
        }
    }

    /// Whether the two strings hold the same text, whatever their
    /// capacities.
    pub fn eq<const M: usize>(&self, other: &ArrayString<M>) -> (same: bool)
        requires
            self.inv(),
            other.inv(),
        ensures
            same == (self.spec_bytes() == other.spec_bytes()),
    {
        let mine: Vec<u8> = self.vec.to_vec();
        let theirs: Vec<u8> = other.vec.to_vec();
        bytes_equal(mine.as_slice(), theirs.as_slice())
    }

    /// Whether the string holds the text `other`.
    pub fn eq_str(&self, other: &str) -> (same: bool)
        requires
            self.inv(),
        ensures
            same == (self.spec_bytes() == other.spec_bytes()),
    {
        let mine: Vec<u8> = self.vec.to_vec();
        bytes_equal(mine.as_slice(), other.as_bytes())
    }

    /// Whether `index` is the start of a character or the end of the text.
    pub fn is_char_boundary(&self, index: usize) -> (b: bool)
        requires
            self.inv(),
        ensures
            b == is_char_boundary(self.spec_bytes(), index as int),
    {
        let len: usize = self.vec.len();
        proof {
            is_char_boundary_start_end_of_seq(self.vec@);
        }
        if index == 0 || index == len {
            true
        } else if index > len {
            proof {
                if is_char_boundary(self.vec@, index as int) {
                    lemma_boundary_in_range(self.vec@, index as int);
                }
            }
            false
        } else {
            proof {
                is_char_boundary_iff_not_is_continuation_byte(self.vec@, index as int);
            }
            match self.vec.get(index) {
                Some(byte) => !(0x80 <= byte && byte <= 0xBF),
                None => false,
            }
        }
    }

    /// Appends `c`, or reports that its encoding does not fit and leaves
    /// the text as it was.
    pub fn push(&mut self, c: char) -> (res: Result<(), OutOfMemoryError>)
        requires
            old(self).inv(),
        ensures
            final(self).inv(),
            old(self).spec_bytes().len() + encode_scalar(c as u32).len() <= N ==> res is Ok
                && final(self).spec_bytes() == old(self).spec_bytes() + encode_scalar(c as u32)
                && final(self)@ == old(self)@.push(c),
            old(self).spec_bytes().len() + encode_scalar(c as u32).len() > N ==> res is Err
                && final(self).spec_bytes() == old(self).spec_bytes(),
    {
        let bytes: Vec<u8> = encode_char(c);
        proof {
            valid_utf8_concat(self.vec@, bytes@);
            decode_utf8_encode_utf8(self.vec@);
            lemma_encode_push(self@, c);
            encode_utf8_decode_utf8(self@.push(c));
        }
        self.vec.extend_from_slice(bytes.as_slice())
    }

    /// Appends `string`, or reports that it does not fit and leaves the
    /// text as it was.
    pub fn push_str(&mut self, string: &str) -> (res: Result<(), OutOfMemoryError>)
        requires
            old(self).inv(),
        ensures
            final(self).inv(),
            old(self).spec_bytes().len() + string.spec_bytes().len() <= N ==> res is Ok
                && final(self).spec_bytes() == old(self).spec_bytes() + string.spec_bytes()
                && final(self)@ == old(self)@ + string@,
            old(self).spec_bytes().len() + string.spec_bytes().len() > N ==> res is Err
                && final(self).spec_bytes() == old(self).spec_bytes(),
    {
        proof {
            encode_utf8_valid_utf8(string@);
            valid_utf8_concat(self.vec@, string.spec_bytes());
            decode_utf8_encode_utf8(self.vec@);
            lemma_encode_concat(self@, string@);
            encode_utf8_decode_utf8(self@ + string@);
        }
        self.vec.extend_from_slice(string.as_bytes())
    }

    /// Inserts `c` at the character boundary `index`, or reports that its
    /// encoding does not fit and leaves the text as it was.
    pub fn insert(&mut self, index: usize, c: char) -> (res: Result<(), OutOfMemoryError>)
        requires
            old(self).inv(),
            is_char_boundary(old(self).spec_bytes(), index as int),
        ensures
            final(self).inv(),
            old(self).spec_bytes().len() + encode_scalar(c as u32).len() <= N ==> res is Ok
                && final(self).spec_bytes() == spliced(
                old(self).spec_bytes(),
                index as int,
                encode_scalar(c as u32),
            ) && final(self)@ == old(self)@.insert(
                char_index(old(self).spec_bytes(), index as int),
                c,
            ),
            old(self).spec_bytes().len() + encode_scalar(c as u32).len() > N ==> res is Err
                && final(self).spec_bytes() == old(self).spec_bytes(),
    {
        let bytes: Vec<u8> = encode_char(c);
        let len: usize = self.vec.len();
        if N - len < bytes.len() {
            return Err(OutOfMemoryError(()));
        }
        proof {
            let text = self.vec@;
            let k = char_index(text, index as int);
            lemma_split_chars(text, index as int);
            lemma_spliced_valid(text, index as int, bytes@);
            lemma_decode_one(c);
            lemma_decode_concat(text.take(index as int), bytes@);
            lemma_decode_concat(text.take(index as int) + bytes@, text.skip(index as int));
            assert(self@.take(k) + seq![c] + self@.skip(k) =~= self@.insert(k, c));
        }
        insert_bytes(&mut self.vec, index, bytes.as_slice());
        Ok(())
    }

    /// Inserts `string` at the character boundary `index`, or reports that
    /// it does not fit and leaves the text as it was.
    pub fn insert_str(&mut self, index: usize, string: &str) -> (res: Result<(), OutOfMemoryError>)
        requires
            old(self).inv(),
            is_char_boundary(old(self).spec_bytes(), index as int),
        ensures
            final(self).inv(),
            old(self).spec_bytes().len() + string.spec_bytes().len() <= N ==> res is Ok
                && final(self).spec_bytes()
                == spliced(old(self).spec_bytes(), index as int, string.spec_bytes())
                && final(self)@ == old(self)@.take(
                char_index(old(self).spec_bytes(), index as int),
            ) + string@ + old(self)@.skip(char_index(old(self).spec_bytes(), index as int)),
            old(self).spec_bytes().len() + string.spec_bytes().len() > N ==> res is Err
                && final(self).spec_bytes() == old(self).spec_bytes(),
    {
        let bytes: &[u8] = string.as_bytes();
        let len: usize = self.vec.len();
        if N - len < bytes.len() {
            return Err(OutOfMemoryError(()));
        }
        proof {
            let text = self.vec@;
            encode_utf8_valid_utf8(string@);
            encode_utf8_decode_utf8(string@);
            lemma_split_chars(text, index as int);
            lemma_spliced_valid(text, index as int, bytes@);
            lemma_decode_concat(text.take(index as int), bytes@);
            lemma_decode_concat(text.take(index as int) + bytes@, text.skip(index as int));
        }
        insert_bytes(&mut self.vec, index, bytes);
        Ok(())
    }

    /// Cuts the text down to its first `new_len` bytes; does nothing when
    /// `new_len` is above the length.
    pub fn truncate(&mut self, new_len: usize)
        requires
            old(self).inv(),
            new_len <= old(self).spec_bytes().len() ==> is_char_boundary(
                old(self).spec_bytes(),
                new_len as int,
            ),
        ensures
            final(self).inv(),
            new_len <= old(self).spec_bytes().len()
                ==> final(self).spec_bytes() == old(self).spec_bytes().take(new_len as int),
            new_len > old(self).spec_bytes().len()
                ==> final(self).spec_bytes() == old(self).spec_bytes(),
            new_len <= old(self).spec_bytes().len() ==> final(self)@ == old(self)@.take(
                char_index(old(self).spec_bytes(), new_len as int),
            ),
    {
        if new_len <= self.vec.len() {
            proof {
                lemma_split_chars(self.vec@, new_len as int);
                valid_utf8_split(self.vec@, new_len as int);
                assert(self.vec@.take(new_len as int) == self.vec@.subrange(0, new_len as int));
                assert(self.vec@.take(self.vec@.len() as int) =~= self.vec@);
            }
            self.vec.truncate(new_len);
        }
    }

    /// Empties the text.
    pub fn clear(&mut self)
        requires
            old(self).inv(),
        ensures
            final(self).inv(),
            final(self).spec_bytes() == Seq::<u8>::empty(),
    {
        self.vec.clear()
    }

    /// Moves the text from the character boundary `at` on into a new string
    /// of capacity `M` and keeps what stands before `at`.
    pub fn split_off<const M: usize>(&mut self, at: usize) -> (tail: ArrayString<M>)
        requires
            old(self).inv(),
            is_char_boundary(old(self).spec_bytes(), at as int),
            old(self).spec_bytes().len() - at <= M,
        ensures
            final(self).inv(),
            tail.inv(),
            final(self).spec_bytes() == old(self).spec_bytes().take(at as int),
            tail.spec_bytes() == old(self).spec_bytes().skip(at as int),
            final(self)@ == old(self)@.take(char_index(old(self).spec_bytes(), at as int)),
            tail@ == old(self)@.skip(char_index(old(self).spec_bytes(), at as int)),
    {
        proof {
            lemma_split_chars(self.vec@, at as int);
            lemma_boundary_in_range(self.vec@, at as int);
            valid_utf8_split(self.vec@, at as int);
            assert(self.vec@.take(at as int) == self.vec@.subrange(0, at as int));
            assert(self.vec@.skip(at as int) == self.vec@.subrange(
                at as int,
                self.vec@.len() as int,
            ));
        }
        let other: CopyArrayVec<u8, M> = self.vec.split_off(at);
        ArrayString { vec: other }
    }

    /// The text followed by `other`, or the report that the two do not fit
    /// together.
    pub fn add(self, other: &str) -> (res: Result<ArrayString<N>, OutOfMemoryError>)
        requires
            self.inv(),
        ensures
            self.spec_bytes().len() + other.spec_bytes().len() <= N ==> res is Ok
                && res->Ok_0.inv() && res->Ok_0.spec_bytes() == self.spec_bytes()
                + other.spec_bytes(),
            self.spec_bytes().len() + other.spec_bytes().len() > N ==> res is Err,
    {
        let mut this = self;
        match this.push_str(other) {
            Ok(()) => Ok(this),
            Err(e) => Err(e),
        }
    }

    /// The string with the text of `value`, or the report that it does not
    /// fit.
    pub fn try_from_str(value: &str) -> (res: Result<ArrayString<N>, OutOfMemoryError>)
        ensures
            value.spec_bytes().len() <= N ==> res is Ok && res->Ok_0.inv()
                && res->Ok_0.spec_bytes() == value.spec_bytes() && res->Ok_0@ == value@,
            value.spec_bytes().len() > N ==> res is Err,
    {
        let mut string: ArrayString<N> = ArrayString::new();
        assert(string@ =~= Seq::<char>::empty());
        match string.push_str(value) {
            Ok(()) => {
                assert(string.spec_bytes() =~= value.spec_bytes());
                assert(string@ =~= value@);
                Ok(string)
            },
            Err(e) => Err(e),
        }
    }

    /// The string of the one character `c`, or the report that it does not
    /// fit.
    pub fn try_from_char(c: char) -> (res: Result<ArrayString<N>, OutOfMemoryError>)
        ensures
            encode_scalar(c as u32).len() <= N ==> res is Ok && res->Ok_0.inv()
                && res->Ok_0.spec_bytes() == encode_scalar(c as u32) && res->Ok_0@ == seq![c],
            encode_scalar(c as u32).len() > N ==> res is Err,
    {
        let mut string: ArrayString<N> = ArrayString::new();
        assert(string@ =~= Seq::<char>::empty());
        match string.push(c) {
            Ok(()) => {
                assert(string.spec_bytes() =~= encode_scalar(c as u32));
                assert(string@ =~= seq![c]);
                Ok(string)
            },
            Err(e) => Err(e),
        }
    }

    /// A new string with the same text.
    pub fn clone(&self) -> (copy: ArrayString<N>)
        requires
            self.inv(),
        ensures
            copy.inv(),
            copy.spec_bytes() == self.spec_bytes(),
    {
        ArrayString { vec: self.vec.clone() }
    }

    /// Replaces the text by that of `source`.
    pub fn clone_from(&mut self, source: &ArrayString<N>)
        requires
            source.inv(),
        ensures
            final(self).inv(),
            final(self).spec_bytes() == source.spec_bytes(),
    {
        self.vec = source.vec.clone();
    }

    /// Removes the last character and returns it, or `None` when the text
    /// is empty.
    pub fn pop(&mut self) -> (res: Option<char>)
        requires
            old(self).inv(),
        ensures
            final(self).inv(),
            old(self).spec_bytes().len() == 0 ==> res is None
                && final(self).spec_bytes() == old(self).spec_bytes(),
            old(self).spec_bytes().len() > 0 ==> res == Some(old(self)@.last())
                && final(self)@ == old(self)@.drop_last()
                && final(self).spec_bytes() == old(self).spec_bytes().take(
                last_char_start(old(self).spec_bytes()),
            ),
    {
        let len: usize = self.vec.len();
        if len == 0 {
            return None;
        }
        let ghost bytes = self.vec@;
        let mut start: usize = len - 1;
        assert(bytes.take(len as int) =~= bytes);
        loop
            invariant_except_break
                self.inv(),
                *self == *old(self),
                bytes == self.vec@,
                start < len == bytes.len(),
                last_char_start(bytes) == last_char_start(bytes.take(start + 1)),
                forall|j: int| start < j < len ==> is_continuation_byte(#[trigger] bytes[j]),
            ensures
                self.inv(),
                *self == *old(self),
                bytes == self.vec@,
                start < len == bytes.len(),
                last_char_start(bytes) == start,
                !is_continuation_byte(bytes[start as int]),
                forall|j: int| start < j < len ==> is_continuation_byte(#[trigger] bytes[j]),
            decreases start,
        {
            let byte: u8 = self.vec.get(start).unwrap();
            assert(byte == bytes.take(start + 1).last());
            if !(0x80 <= byte && byte <= 0xBF) {
                break;
            }
            proof {
                if start == 0 {
                    is_char_boundary_start_end_of_seq(bytes);
                    is_char_boundary_iff_not_is_continuation_byte(bytes, 0);
                }
                assert(bytes.take(start + 1).drop_last() =~= bytes.take(start as int));
            }
            start = start - 1;
        }
        proof {
            is_char_boundary_iff_not_is_continuation_byte(bytes, start as int);
            valid_utf8_split(bytes, start as int);
            decode_utf8_split(bytes, start as int);
            assert(bytes.take(start as int) == bytes.subrange(0, start as int));
            assert(bytes.skip(start as int) == bytes.subrange(start as int, bytes.len() as int));
            let rest = bytes.skip(start as int);
            lemma_first_char(rest);
            let width = length_of_first_scalar(rest);
            if width < rest.len() {
                let after = rest.skip(width);
                assert(after.len() > 0);
                assert(after[0] == bytes[start + width]);
                assert(valid_first_scalar(after));
            }
            assert(rest.skip(width) =~= Seq::<u8>::empty());
            assert(decode_utf8(rest) =~= seq![decode_first_scalar(rest) as char]);
            assert(decode_utf8(bytes).drop_last() =~= decode_utf8(bytes.take(start as int)));
        }
        let (c, _width) = decode_at(&self.vec, start);
        self.vec.truncate(start);
        Some(c)
    }

    /// Removes the character that starts at the character boundary `index`
    /// and returns it.
    pub fn remove(&mut self, index: usize) -> (c: char)
        requires
            old(self).inv(),
            index < old(self).spec_bytes().len(),
            is_char_boundary(old(self).spec_bytes(), index as int),
        ensures
            final(self).inv(),
            c == decode_first_scalar(old(self).spec_bytes().skip(index as int)) as char,
            final(self).spec_bytes()
                == old(self).spec_bytes().take(index as int) + old(self).spec_bytes().skip(
                index + length_of_first_scalar(old(self).spec_bytes().skip(index as int)),
            ),
            0 <= char_index(old(self).spec_bytes(), index as int) < old(self)@.len(),
            c == old(self)@[char_index(old(self).spec_bytes(), index as int)],
            final(self)@ == old(self)@.remove(char_index(old(self).spec_bytes(), index as int)),
    {
        let ghost bytes = self.vec@;
        proof {
            self.vec.lemma_len_within_capacity();
            lemma_split_chars(bytes, index as int);
            lemma_first_char(bytes.skip(index as int));
        }
        let (c, width) = decode_at(&self.vec, index);
        proof {
            let k = char_index(bytes, index as int);
            let rest = bytes.skip(index as int);
            assert(rest.skip(width as int) =~= bytes.skip(index + width));
            lemma_decode_concat(bytes.take(index as int), bytes.skip(index + width));
            assert(decode_utf8(rest)[0] == c);
            assert(decode_utf8(rest).skip(1) =~= decode_utf8(bytes.skip(index + width)));
            assert(self@.skip(k).skip(1) =~= self@.skip(k + 1));
            assert(self@.take(k) + self@.skip(k + 1) =~= self@.remove(k));
        }
        let mut back: CopyArrayVec<u8, N> = self.vec.split_off(index + width);
        self.vec.truncate(index);
        assert(self.vec@ =~= bytes.take(index as int));
        let _ = self.vec.append(&mut back);
        c
    }

    /// Keeps the characters for which `f` answers `true`, in their order.
    /// `f` is asked once per character, front to back.
    pub fn retain<F>(&mut self, f: F)
        where F: FnMut(char) -> bool
        requires
            old(self).inv(),
            forall|k: int| 0 <= k < old(self)@.len() ==> f.requires((#[trigger] old(self)@[k],)),
        ensures
            final(self).inv(),
            exists|keep: Seq<bool>|
                keep.len() == old(self)@.len() && (forall|k: int|
                    0 <= k < keep.len() ==> f.ensures((old(self)@[k],), #[trigger] keep[k]))
                    && final(self)@ == retained(old(self)@, keep) && final(self).spec_bytes()
                    == encode_utf8(retained(old(self)@, keep)),
    {
        let len: usize = self.vec.len();
        let ghost bytes = self.vec@;
        let ghost chars = decode_utf8(bytes);
        let mut f = f;
        let ghost f0 = f;
        let ghost mut seen: Seq<char> = Seq::empty();
        let ghost mut keep: Seq<bool> = Seq::empty();
        let mut out: CopyArrayVec<u8, N> = CopyArrayVec::new();
        let mut index: usize = 0;
        assert(bytes.skip(0) =~= bytes);
        assert(chars == old(self)@);
        assert forall|k: int| 0 <= k < chars.len() implies f.requires((#[trigger] chars[k],)) by {
            assert(f.requires((old(self)@[k],)));
        }
        while index < len
            invariant
                self.inv(),
                *self == *old(self),
                bytes == self.vec@,
                chars == decode_utf8(bytes),
                index <= len == bytes.len(),
                len <= N,
                f == f0,
                forall|k: int| 0 <= k < chars.len() ==> f.requires((#[trigger] chars[k],)),
                valid_utf8(bytes.skip(index as int)),
                chars == seen + decode_utf8(bytes.skip(index as int)),
                keep.len() == seen.len(),
                forall|k: int| 0 <= k < seen.len() ==> f0.ensures((seen[k],), #[trigger] keep[k]),
                out.inv(),
                out@ == encode_utf8(retained(seen, keep)),
                out@.len() <= index,
            decreases len - index,
        {
            let ghost rest = bytes.skip(index as int);
            proof {
                lemma_first_char(rest);
            }
            let (c, width) = decode_at(&self.vec, index);
            proof {
                assert(rest.skip(width as int) =~= bytes.skip(index + width));
                assert(chars =~= seen.push(c) + decode_utf8(bytes.skip(index + width)));
                assert(chars[seen.len() as int] == c);
            }
            let kept = f(c);
            proof {
                let next_seen = seen.push(c);
                let next_keep = keep.push(kept);
                assert(next_seen.drop_last() =~= seen);
                assert(next_keep.drop_last() =~= keep);
                lemma_encode_push(retained(seen, keep), c);
                assert(encode_scalar(c as u32).len() == width) by {
                    assert(rest.take(width as int).len() == width);
                }
                seen = next_seen;
                keep = next_keep;
            }
            if kept {
                let encoded: Vec<u8> = encode_char(c);
                let _ = out.extend_from_slice(encoded.as_slice());
            }
            index = index + width;
        }
        proof {
            assert(bytes.skip(len as int) =~= Seq::<u8>::empty());
            assert(chars =~= seen);
            encode_utf8_valid_utf8(retained(seen, keep));
            encode_utf8_decode_utf8(retained(seen, keep));
        }
        self.vec = out;
        proof {
            assert(self@ == retained(old(self)@, keep));
            assert(self.spec_bytes() == encode_utf8(retained(old(self)@, keep)));
            assert forall|k: int| 0 <= k < keep.len() implies f0.ensures(
                (old(self)@[k],),
                #[trigger] keep[k],
            ) by {
                assert(old(self)@[k] == seen[k]);
            }
        }
    }

    /// Appends bytes that are valid UTF-8, or reports that they do not fit
    /// and leaves the text as it was.
    fn push_bytes(&mut self, bytes: &[u8]) -> (res: Result<(), OutOfMemoryError>)
        requires
            old(self).inv(),
            valid_utf8(bytes@),
        ensures
            final(self).inv(),
            old(self).spec_bytes().len() + bytes@.len() <= N ==> res is Ok
                && final(self).spec_bytes() == old(self).spec_bytes() + bytes@,
            old(self).spec_bytes().len() + bytes@.len() > N ==> res is Err
                && final(self).spec_bytes() == old(self).spec_bytes(),
    {
        proof {
            valid_utf8_concat(self.vec@, bytes@);
        }
        self.vec.extend_from_slice(bytes)
    }

    /// The text that stands for `chunks` (see [`lossy_text`]), or the report
    /// that it does not fit.
    pub fn from_lossy_chunks(chunks: &Vec<(Vec<u8>, Vec<u8>)>) -> (res: Result<
        ArrayString<N>,
        OutOfMemoryError,
    >)
        requires
            forall|i: int| 0 <= i < chunks@.len() ==> valid_utf8(#[trigger] chunks@[i].0@),
        ensures
            lossy_text(chunk_views(chunks@)).len() <= N ==> res is Ok && res->Ok_0.inv()
                && res->Ok_0.spec_bytes() == lossy_text(chunk_views(chunks@)),
            lossy_text(chunk_views(chunks@)).len() > N ==> res is Err,
    {
        let ghost views = chunk_views(chunks@);
        let mut string: ArrayString<N> = ArrayString::new();
        let mut i: usize = 0;
        while i < chunks.len()
            invariant
                i <= chunks@.len(),
                views == chunk_views(chunks@),
                forall|j: int| 0 <= j < chunks@.len() ==> valid_utf8(#[trigger] chunks@[j].0@),
                string.inv(),
                string.spec_bytes() == lossy_text(views.take(i as int)),
            decreases chunks@.len() - i,
        {
            proof {
                lemma_lossy_text_grows(views, i + 1);
                assert(views.take(i + 1).drop_last() =~= views.take(i as int));
                assert(views.take(i + 1).last() == views[i as int]);
                assert(chunks@[i as int].0@ == views[i as int].0);
                string.lemma_inv();
            }
            let chunk = &chunks[i];
            match string.push_bytes(chunk.0.as_slice()) {
                Ok(()) => {},
                Err(e) => {
                    return Err(e);
                },
            }
            if chunk.1.len() > 0 {
                match string.push('\u{FFFD}') {
                    Ok(()) => {},
                    Err(e) => {
                        return Err(e);
                    },
                }
            }
            assert(string.spec_bytes() =~= lossy_text(views.take(i + 1)));
            i = i + 1;
        }
        assert(views.take(i as int) =~= views);
        proof {
            string.lemma_inv();
        }
        Ok(string)
    }

    /// The text of `v` with one replacement character for each run of
    /// invalid bytes, as `<[u8]>::utf8_chunks` cuts them; or the report that
    /// this text does not fit.
    pub fn from_utf8_lossy(v: &[u8]) -> (res: Result<ArrayString<N>, OutOfMemoryError>)
        ensures
            lossy_text(utf8_chunks_of(v@)).len() <= N ==> res is Ok && res->Ok_0.inv()
                && res->Ok_0.spec_bytes() == lossy_text(utf8_chunks_of(v@)),
            lossy_text(utf8_chunks_of(v@)).len() > N ==> res is Err,
    {
        let chunks = utf8_chunks(v);
        ArrayString::from_lossy_chunks(&chunks)
    }

    /// Builds the text of decoded UTF-16 items: each character is appended;
    /// an error ends it, or, with `lossy`, counts as the replacement
    /// character. See [`utf16_outcome`].
    pub fn from_decoded_utf16(decoded: Vec<Result<char, DecodeUtf16Error>>, lossy: bool) -> (res:
        Result<ArrayString<N>, FromUtf16Error>)
        ensures
            match utf16_outcome(decoded_items(decoded@), Seq::empty(), N as int, lossy) {
                Utf16Outcome::Text(text) => res is Ok && res->Ok_0.inv() && res->Ok_0.spec_bytes()
                    == text,
                Utf16Outcome::Unpaired => res matches Err(FromUtf16Error::DecodeUtf16(_)),
                Utf16Outcome::Full => res matches Err(FromUtf16Error::OutOfMemory(_)),
            },
    {
        let mut pending = decoded;
        let ghost items = decoded_items(decoded@);
        let mut string: ArrayString<N> = ArrayString::new();
        let mut i: usize = 0;
        assert(items.skip(0) =~= items);
        while i < pending.len()
            invariant
                i <= pending@.len(),
                pending@ == decoded@,
                items == decoded_items(decoded@),
                string.inv(),
                utf16_outcome(items, Seq::empty(), N as int, lossy) == utf16_outcome(
                    items.skip(i as int),
                    string.spec_bytes(),
                    N as int,
                    lossy,
                ),
            decreases pending@.len() - i,
        {
            proof {
                assert(items.skip(i as int)[0] == items[i as int]);
                assert(items.skip(i as int).skip(1) =~= items.skip(i + 1));
                string.lemma_inv();
            }
            let c: char = match &pending[i] {
                Ok(c) => *c,
                Err(_) => {
                    if lossy {
                        '\u{FFFD}'
                    } else {
                        let item = pending.swap_remove(i);
                        match item {
                            Ok(_) => {
                                return Err(FromUtf16Error::OutOfMemory(OutOfMemoryError(())));
                            },
                            Err(e) => {
                                return Err(FromUtf16Error::DecodeUtf16(e));
                            },
                        }
                    }
                },
            };
            match string.push(c) {
                Ok(()) => {},
                Err(e) => {
                    return Err(FromUtf16Error::OutOfMemory(e));
                },
            }
            i = i + 1;
        }
        Ok(string)
    }

    /// The text that the UTF-16 code units `v` encode, or the first thing
    /// that went wrong: an unpaired surrogate, or a character that did not
    /// fit.
    pub fn from_utf16(v: &[u16]) -> (res: Result<ArrayString<N>, FromUtf16Error>)
        ensures
            match utf16_outcome(utf16_decoded(v@), Seq::empty(), N as int, false) {
                Utf16Outcome::Text(text) => res is Ok && res->Ok_0.inv() && res->Ok_0.spec_bytes()
                    == text,
                Utf16Outcome::Unpaired => res matches Err(FromUtf16Error::DecodeUtf16(_)),
                Utf16Outcome::Full => res matches Err(FromUtf16Error::OutOfMemory(_)),
            },
    {
        let decoded = decode_utf16_units(v);
        assert(decoded_items(decoded@) =~= utf16_decoded(v@));
        ArrayString::from_decoded_utf16(decoded, false)
    }

    /// The text that the UTF-16 code units `v` encode, with the replacement
    /// character for each unpaired surrogate; or the report that a
    /// character did not fit.
    pub fn from_utf16_lossy(v: &[u16]) -> (res: Result<ArrayString<N>, OutOfMemoryError>)
        ensures
            match utf16_outcome(utf16_decoded(v@), Seq::empty(), N as int, true) {
                Utf16Outcome::Text(text) => res is Ok && res->Ok_0.inv() && res->Ok_0.spec_bytes()
                    == text,
                _ => res is Err,
            },
    {
        let decoded = decode_utf16_units(v);
        assert(decoded_items(decoded@) =~= utf16_decoded(v@));
        proof {
            lemma_lossy_never_unpaired(utf16_decoded(v@), Seq::empty(), N as int);
        }
        match ArrayString::from_decoded_utf16(decoded, true) {
            Ok(string) => Ok(string),
            Err(FromUtf16Error::OutOfMemory(e)) => Err(e),
            Err(FromUtf16Error::DecodeUtf16(_)) => Err(OutOfMemoryError(())),
        }
    }
}

impl<const N: usize> Default for ArrayString<N> {
    /// The empty string.
    fn default() -> (string: ArrayString<N>)
        ensures
            string.inv(),
            string.spec_bytes() == Seq::<u8>::empty(),
    {
        ArrayString::new()
    }
}

/// With `lossy`, building never ends on an unpaired surrogate.
pub proof fn lemma_lossy_never_unpaired(items: Seq<Option<char>>, text: Seq<u8>, cap: int)
    ensures
        !(utf16_outcome(items, text, cap, true) is Unpaired),
    decreases items.len(),
{
    if items.len() > 0 {
        let c = if items[0] is None {
            '\u{FFFD}'
        } else {
            items[0]->0
        };
        lemma_lossy_never_unpaired(items.skip(1), text + encode_scalar(c as u32), cap);
    }
}

} // verus!
