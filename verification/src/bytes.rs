//! Byte encodings: a record of numbers and text framed as big-endian bytes,
//! and pixel words read as the bytes they are stored in, in either byte order
//! or in the machine's own.

use vstd::prelude::*;
use vstd::utf8::{decode_utf8, encode_utf8, valid_utf8};
use vstd::endian::{endianness, Endian};

verus! {

/// The eight bytes of `x`, most significant first.
pub open spec fn be_u64(x: u64) -> Seq<u8> {
    seq![
        (x >> 56u64) as u8,
        (x >> 48u64) as u8,
        (x >> 40u64) as u8,
        (x >> 32u64) as u8,
        (x >> 24u64) as u8,
        (x >> 16u64) as u8,
        (x >> 8u64) as u8,
        x as u8,
    ]
}

/// The four bytes of `x`, most significant first.
pub open spec fn be_u32(x: u32) -> Seq<u8> {
    seq![(x >> 24u32) as u8, (x >> 16u32) as u8, (x >> 8u32) as u8, x as u8]
}

/// The number whose eight bytes, most significant first, start at `off`.
pub open spec fn read_be_u64(b: Seq<u8>, off: int) -> u64 {
    (b[off] as u64) << 56u64 | (b[off + 1] as u64) << 48u64 | (b[off + 2] as u64) << 40u64 | (
    b[off + 3] as u64) << 32u64 | (b[off + 4] as u64) << 24u64 | (b[off + 5] as u64) << 16u64 | (
    b[off + 6] as u64) << 8u64 | (b[off + 7] as u64)
}

/// The number whose four bytes, most significant first, start at `off`.
pub open spec fn read_be_u32(b: Seq<u8>, off: int) -> u32 {
    (b[off] as u32) << 24u32 | (b[off + 1] as u32) << 16u32 | (b[off + 2] as u32) << 8u32 | (b[off
        + 3] as u32)
}

proof fn lemma_read_be_u64(b: Seq<u8>, off: int, x: u64)
    requires
        0 <= off,
        off + 8 <= b.len(),
        b.subrange(off, off + 8) == be_u64(x),
    ensures
        read_be_u64(b, off) == x,
{
    let s = b.subrange(off, off + 8);
    assert(b[off] == s[0] && b[off + 1] == s[1] && b[off + 2] == s[2] && b[off + 3] == s[3] && b[off
        + 4] == s[4] && b[off + 5] == s[5] && b[off + 6] == s[6] && b[off + 7] == s[7]);
    let b0 = (x >> 56u64) as u8;
    let b1 = (x >> 48u64) as u8;
    let b2 = (x >> 40u64) as u8;
    let b3 = (x >> 32u64) as u8;
    let b4 = (x >> 24u64) as u8;
    let b5 = (x >> 16u64) as u8;
    let b6 = (x >> 8u64) as u8;
    let b7 = x as u8;
    assert((b0 as u64) << 56u64 | (b1 as u64) << 48u64 | (b2 as u64) << 40u64 | (b3 as u64)
        << 32u64 | (b4 as u64) << 24u64 | (b5 as u64) << 16u64 | (b6 as u64) << 8u64 | (b7 as u64)
        == x) by (bit_vector)
        requires
            b0 == (x >> 56u64) as u8,
            b1 == (x >> 48u64) as u8,
            b2 == (x >> 40u64) as u8,
            b3 == (x >> 32u64) as u8,
            b4 == (x >> 24u64) as u8,
            b5 == (x >> 16u64) as u8,
            b6 == (x >> 8u64) as u8,
            b7 == x as u8,
    ;
}

proof fn lemma_read_be_u32(b: Seq<u8>, off: int, x: u32)
    requires
        0 <= off,
        off + 4 <= b.len(),
        b.subrange(off, off + 4) == be_u32(x),
    ensures
        read_be_u32(b, off) == x,
{
    let s = b.subrange(off, off + 4);
    assert(b[off] == s[0] && b[off + 1] == s[1] && b[off + 2] == s[2] && b[off + 3] == s[3]);
    let b0 = (x >> 24u32) as u8;
    let b1 = (x >> 16u32) as u8;
    let b2 = (x >> 8u32) as u8;
    let b3 = x as u8;
    assert((b0 as u32) << 24u32 | (b1 as u32) << 16u32 | (b2 as u32) << 8u32 | (b3 as u32) == x)
        by (bit_vector)
        requires
            b0 == (x >> 24u32) as u8,
            b1 == (x >> 16u32) as u8,
            b2 == (x >> 8u32) as u8,
            b3 == x as u8,
    ;
}

fn push_be_u64(v: &mut Vec<u8>, x: u64)
    ensures
        final(v)@ == old(v)@ + be_u64(x),
{
    v.push((x >> 56u64) as u8);
    v.push((x >> 48u64) as u8);
    v.push((x >> 40u64) as u8);
    v.push((x >> 32u64) as u8);
    v.push((x >> 24u64) as u8);
    v.push((x >> 16u64) as u8);
    v.push((x >> 8u64) as u8);
    v.push(x as u8);
    assert(v@ =~= old(v)@ + be_u64(x));
}

fn push_be_u32(v: &mut Vec<u8>, x: u32)
    ensures
        final(v)@ == old(v)@ + be_u32(x),
{
    v.push((x >> 24u32) as u8);
    v.push((x >> 16u32) as u8);
    v.push((x >> 8u32) as u8);
    v.push(x as u8);
    assert(v@ =~= old(v)@ + be_u32(x));
}

fn read_u64_at(b: &Vec<u8>, off: usize) -> (x: u64)
    requires
        off + 8 <= b.len(),
    ensures
        x == read_be_u64(b@, off as int),
{
    (b[off] as u64) << 56u64 | (b[off + 1] as u64) << 48u64 | (b[off + 2] as u64) << 40u64 | (b[off
        + 3] as u64) << 32u64 | (b[off + 4] as u64) << 24u64 | (b[off + 5] as u64) << 16u64 | (b[off
        + 6] as u64) << 8u64 | (b[off + 7] as u64)
}

fn read_u32_at(b: &Vec<u8>, off: usize) -> (x: u32)
    requires
        off + 4 <= b.len(),
    ensures
        x == read_be_u32(b@, off as int),
{
    (b[off] as u32) << 24u32 | (b[off + 1] as u32) << 16u32 | (b[off + 2] as u32) << 8u32 | (b[off
        + 3] as u32)
}

/// How many bytes a `usize` takes on this machine.
pub open spec fn usize_width() -> int {
    if usize::BITS == 64 {
        8
    } else {
        4
    }
}

/// The bytes of `x` as this machine's `usize`, most significant first.
pub open spec fn be_usize(x: usize) -> Seq<u8> {
    if usize::BITS == 64 {
        be_u64(x as u64)
    } else {
        be_u32(x as u32)
    }
}

/// This machine's `usize` whose bytes, most significant first, start at `off`.
pub open spec fn read_be_usize(b: Seq<u8>, off: int) -> int {
    if usize::BITS == 64 {
        read_be_u64(b, off) as int
    } else {
        read_be_u32(b, off) as int
    }
}

fn usize_width_exec() -> (w: usize)
    ensures
        w == usize_width(),
{
    if usize::BITS == 64 {
        8
    } else {
        4
    }
}

fn push_be_usize(v: &mut Vec<u8>, x: usize)
    ensures
        final(v)@ == old(v)@ + be_usize(x),
{
    if usize::BITS == 64 {
        push_be_u64(v, x as u64);
    } else {
        push_be_u32(v, x as u32);
    }
}

fn read_usize_at(b: &Vec<u8>, off: usize) -> (x: usize)
    requires
        off + usize_width() <= b.len(),
    ensures
        x == read_be_usize(b@, off as int),
{
    if usize::BITS == 64 {
        read_u64_at(b, off) as usize
    } else {
        read_u32_at(b, off) as usize
    }
}

/// Calls std's `String::from_utf8` and keeps the string when there is one. Its
/// contract claims, as std documents it, that the call succeeds on exactly the
/// byte sequences that are valid UTF-8, and that the string's UTF-8 encoding is
/// then the given bytes.
#[verifier::external_body]
fn string_from_utf8(bytes: Vec<u8>) -> (r: Option<String>)
    ensures
        r is Some <==> valid_utf8(bytes@),
        r matches Some(s) ==> encode_utf8(s@) == bytes@,
{
    String::from_utf8(bytes).ok()
}

/// A record of numbers and a text. `val1` and `val2` hold the bit patterns of a
/// 64-bit and a 32-bit floating-point number.
pub struct DataStuff {
    pub val1: u64,
    pub val2: u32,
    pub val3: i64,
    pub val4: u8,
    pub text: String,
    pub val5: u32,
}

/// The fields of a record, the text as its characters.
pub type DataView = (u64, u32, i64, u8, Seq<char>, u32);

impl View for DataStuff {
    type V = DataView;

    open spec fn view(&self) -> DataView {
        (self.val1, self.val2, self.val3, self.val4, self.text@, self.val5)
    }
}

/// Where the text starts in the bytes of a record.
pub open spec fn text_start() -> int {
    21 + usize_width()
}

/// The bytes of a record: each number big endian, then the UTF-8 length of the
/// text as this machine's `usize`, big endian, the text's UTF-8 bytes, and the
/// last number.
pub open spec fn encoding(d: DataView) -> Seq<u8> {
    be_u64(d.0) + be_u32(d.1) + be_u64(d.2 as u64) + seq![d.3] + be_usize(
        encode_utf8(d.4).len() as usize,
    ) + encode_utf8(d.4) + be_u32(d.5)
}

/// The length of the text as the bytes announce it.
pub open spec fn announced_text_len(b: Seq<u8>) -> int {
    read_be_usize(b, 21)
}

/// The bytes hold a whole record: the fixed fields, the announced text, which is
/// valid UTF-8, and the last number. Bytes after it are ignored.
pub open spec fn decodable(b: Seq<u8>) -> bool {
    &&& b.len() >= text_start()
    &&& text_start() + announced_text_len(b) + 4 <= b.len()
    &&& valid_utf8(b.subrange(text_start(), text_start() + announced_text_len(b)))
}

/// The record that the bytes hold.
pub open spec fn decoding(b: Seq<u8>) -> DataView {
    let tl = announced_text_len(b);
    (
        read_be_u64(b, 0),
        read_be_u32(b, 8),
        read_be_u64(b, 12) as i64,
        b[20],
        decode_utf8(b.subrange(text_start(), text_start() + tl)),
        read_be_u32(b, text_start() + tl),
    )
}

impl DataStuff {
    /// The bytes of the record: each number big endian, the text as its UTF-8
    /// length, a big-endian `usize`, followed by its UTF-8 bytes.
    pub fn to_bytes(&self) -> (data_bytes: Vec<u8>)
        ensures
            data_bytes@ == encoding(self@),
    {
        let mut data_bytes: Vec<u8> = Vec::new();
        push_be_u64(&mut data_bytes, self.val1);
        push_be_u32(&mut data_bytes, self.val2);
        push_be_u64(&mut data_bytes, self.val3 as u64);
        data_bytes.push(self.val4);
        let text_bytes = self.text.as_str().as_bytes();
        let text_len = text_bytes.len();
        push_be_usize(&mut data_bytes, text_len);
        let ghost head = data_bytes@;
        let mut i: usize = 0;
        while i < text_len
            invariant
                text_len == text_bytes@.len(),
                i <= text_len,
                data_bytes@ == head + text_bytes@.take(i as int),
            decreases text_len - i,
        {
            data_bytes.push(text_bytes[i]);
            assert(text_bytes@.take(i + 1) =~= text_bytes@.take(i as int).push(text_bytes@[i as int]));
            i = i + 1;
        }
        assert(text_bytes@.take(text_len as int) =~= text_bytes@);
        push_be_u32(&mut data_bytes, self.val5);
        assert(data_bytes@ =~= encoding(self@));
        data_bytes
    }

    /// The record held by the bytes, or `None` when they hold none: too few
    /// bytes for the fields and the announced text, or a text that is not
    /// UTF-8. Bytes after the record are ignored.
    pub fn from_bytes_checked(data_bytes: Vec<u8>) -> (r: Option<DataStuff>)
        ensures
            r is Some <==> decodable(data_bytes@),
            r matches Some(data) ==> data@ == decoding(data_bytes@),
    {
        let b = &data_bytes;
        let w = usize_width_exec();
        let n = b.len();
        if n < 25 + w {
            return None;
        }
        let text_len = read_usize_at(b, 21);
        if text_len > n - (25 + w) {
            return None;
        }
        let start = 21 + w;
        let end = start + text_len;
        let mut text_vec: Vec<u8> = Vec::new();
        let mut i: usize = start;
        while i < end
            invariant
                start == text_start(),
                end == start + announced_text_len(b@),
                end + 4 <= b.len(),
                start <= i <= end,
                text_vec@ == b@.subrange(start as int, i as int),
            decreases end - i,
        {
            text_vec.push(b[i]);
            assert(b@.subrange(start as int, i + 1) =~= b@.subrange(start as int, i as int).push(b@[i as int]));
            i = i + 1;
        }
        let text = match string_from_utf8(text_vec) {
            Some(text) => text,
            None => {
                return None;
            },
        };
        proof {
            vstd::utf8::decode_utf8_encode_utf8(b@.subrange(start as int, end as int));
            vstd::utf8::encode_utf8_decode_utf8(text@);
        }
        let val1 = read_u64_at(b, 0);
        let val2 = read_u32_at(b, 8);
        let val3 = read_u64_at(b, 12) as i64;
        let val4 = b[20];
        let val5 = read_u32_at(b, end);
        Some(DataStuff { val1, val2, val3, val4, text, val5 })
    }

    /// The record held by the bytes; bytes after it are ignored.
    pub fn from_bytes(data_bytes: Vec<u8>) -> (data: DataStuff)
        requires
            decodable(data_bytes@),
        ensures
            data@ == decoding(data_bytes@),
    {
        Self::from_bytes_checked(data_bytes).unwrap()
    }
}

/// Decoding the bytes of a record gives back the record.
pub proof fn law_decoding_inverts_encoding(d: DataView)
    requires
        encode_utf8(d.4).len() <= usize::MAX,
    ensures
        decodable(encoding(d)),
        decoding(encoding(d)) == d,
{
    let b = encoding(d);
    let t = encode_utf8(d.4);
    let tl = t.len() as int;
    let ts = text_start();
    assert(b.subrange(0, 8) =~= be_u64(d.0));
    assert(b.subrange(8, 12) =~= be_u32(d.1));
    assert(b.subrange(12, 20) =~= be_u64(d.2 as u64));
    assert(b.subrange(21, ts) =~= be_usize(tl as usize));
    lemma_read_be_u64(b, 0, d.0);
    lemma_read_be_u32(b, 8, d.1);
    lemma_read_be_u64(b, 12, d.2 as u64);
    if usize::BITS == 64 {
        lemma_read_be_u64(b, 21, tl as usize as u64);
    } else {
        lemma_read_be_u32(b, 21, tl as usize as u32);
    }
    assert(announced_text_len(b) == tl);
    assert(b.subrange(ts, ts + tl) =~= t);
    assert(b.subrange(ts + tl, ts + tl + 4) =~= be_u32(d.5));
    lemma_read_be_u32(b, ts + tl, d.5);
    vstd::utf8::encode_utf8_valid_utf8(d.4);
    vstd::utf8::encode_utf8_decode_utf8(d.4);
    let x = d.2;
    assert((x as u64) as i64 == x) by (bit_vector);
    assert(b[20] == d.3);
}


/// The word stored in four bytes: the first byte least significant when
/// `little`, most significant otherwise.
pub open spec fn word_in(b0: u8, b1: u8, b2: u8, b3: u8, little: bool) -> u32 {
    if little {
        (b0 as u32) | (b1 as u32) << 8u32 | (b2 as u32) << 16u32 | (b3 as u32) << 24u32
    } else {
        (b3 as u32) | (b2 as u32) << 8u32 | (b1 as u32) << 16u32 | (b0 as u32) << 24u32
    }
}

/// The four bytes that store `w`: least significant first when `little`, most
/// significant first otherwise.
pub open spec fn bytes_in(w: u32, little: bool) -> Seq<u8> {
    if little {
        seq![w as u8, (w >> 8u32) as u8, (w >> 16u32) as u8, (w >> 24u32) as u8]
    } else {
        seq![(w >> 24u32) as u8, (w >> 16u32) as u8, (w >> 8u32) as u8, w as u8]
    }
}

/// The words stored in the whole four-byte groups of `b`, in the given byte
/// order; trailing bytes that do not fill a word are dropped.
pub open spec fn words_of(b: Seq<u8>, little: bool) -> Seq<u32> {
    Seq::new(
        b.len() / 4,
        |i: int| word_in(b[4 * i], b[4 * i + 1], b[4 * i + 2], b[4 * i + 3], little),
    )
}

/// The bytes that store the words, each in the given byte order.
pub open spec fn bytes_of(w: Seq<u32>, little: bool) -> Seq<u8> {
    Seq::new(4 * w.len(), |i: int| bytes_in(w[i / 4], little)[i % 4])
}

/// The machine stores words least significant byte first. vstd's
/// `endianness()` stands for the byte order of the machine the code runs on,
/// one order for the whole run; which one is not said.
pub open spec fn native_little() -> bool {
    endianness() == Endian::Little
}

/// Calls std's `u32::to_ne_bytes`. Its contract claims what std documents: the
/// bytes of `w` in the machine's own byte order, the order that vstd's
/// `endianness()` stands for. Which order that is depends on the machine and is
/// left unsaid.
#[verifier::external_body]
fn native_bytes(w: u32) -> (b: [u8; 4])
    ensures
        b@ == bytes_in(w, native_little()),
{
    w.to_ne_bytes()
}

/// Whether the machine stores words least significant byte first.
fn native_is_little() -> (little: bool)
    ensures
        little == native_little(),
{
    let one: u32 = 1;
    let probe = native_bytes(one);
    assert((one as u8) == 1u8 && ((one >> 24u32) as u8) == 0u8) by (bit_vector)
        requires
            one == 1,
    ;
    assert(bytes_in(one, true)[0] == 1 && bytes_in(one, false)[0] == 0);
    probe[0] == 1
}

/// The words stored in a byte buffer, four bytes each, in the given byte order;
/// trailing bytes that do not fill a word are dropped.
pub fn words_from_bytes(vec8: &Vec<u8>, little: bool) -> (vec32: Vec<u32>)
    ensures
        vec32@ == words_of(vec8@, little),
{
    let length = vec8.len() / 4;
    let mut vec32: Vec<u32> = Vec::new();
    let mut i: usize = 0;
    while i < length
        invariant
            length == vec8.len() / 4,
            i <= length,
            vec32@ == words_of(vec8@, little).take(i as int),
        decreases length - i,
    {
        let b0 = vec8[4 * i] as u32;
        let b1 = vec8[4 * i + 1] as u32;
        let b2 = vec8[4 * i + 2] as u32;
        let b3 = vec8[4 * i + 3] as u32;
        let w = if little {
            b0 | b1 << 8u32 | b2 << 16u32 | b3 << 24u32
        } else {
            b3 | b2 << 8u32 | b1 << 16u32 | b0 << 24u32
        };
        vec32.push(w);
        assert(vec32@ =~= words_of(vec8@, little).take(i + 1));
        i = i + 1;
    }
    assert(words_of(vec8@, little).take(length as int) =~= words_of(vec8@, little));
    vec32
}

/// The bytes that store the words, four per word, in the given byte order.
pub fn bytes_from_words(vec32: &Vec<u32>, little: bool) -> (vec8: Vec<u8>)
    requires
        4 * vec32.len() <= usize::MAX,
    ensures
        vec8@ == bytes_of(vec32@, little),
{
    let mut vec8: Vec<u8> = Vec::new();
    let mut i: usize = 0;
    while i < vec32.len()
        invariant
            4 * vec32.len() <= usize::MAX,
            i <= vec32.len(),
            vec8@ == bytes_of(vec32@.take(i as int), little),
        decreases vec32.len() - i,
    {
        let w = vec32[i];
        if little {
            vec8.push(w as u8);
            vec8.push((w >> 8u32) as u8);
            vec8.push((w >> 16u32) as u8);
            vec8.push((w >> 24u32) as u8);
        } else {
            vec8.push((w >> 24u32) as u8);
            vec8.push((w >> 16u32) as u8);
            vec8.push((w >> 8u32) as u8);
            vec8.push(w as u8);
        }
        assert(vec8@ =~= bytes_of(vec32@.take(i + 1), little)) by {
            assert forall|j: int| 0 <= j < 4 * (i + 1) implies #[trigger] vec8@[j] == bytes_of(
                vec32@.take(i + 1),
                little,
            )[j] by {
                if j < 4 * i {
                    assert(bytes_of(vec32@.take(i + 1), little)[j] == bytes_of(
                        vec32@.take(i as int),
                        little,
                    )[j]);
                }
            }
        }
        i = i + 1;
    }
    assert(vec32@.take(vec32.len() as int) =~= vec32@);
    vec8
}

/// The pixel words that a byte buffer holds when its memory is read as words:
/// four bytes each, in the machine's own byte order; trailing bytes that do not
/// fill a word are dropped.
pub fn vec8to32(vec8: &Vec<u8>) -> (vec32: Vec<u32>)
    ensures
        vec32@ == words_of(vec8@, native_little()),
{
    let little = native_is_little();
    words_from_bytes(vec8, little)
}

/// The bytes in which the pixel words are stored in memory: four per word, in
/// the machine's own byte order.
pub fn vec32to8(vec32: &Vec<u32>) -> (vec8: Vec<u8>)
    requires
        4 * vec32.len() <= usize::MAX,
    ensures
        vec8@ == bytes_of(vec32@, native_little()),
{
    let little = native_is_little();
    bytes_from_words(vec32, little)
}

/// Storing words as bytes and reading the bytes back as words, in one byte
/// order, gives the words.
pub proof fn law_words_of_bytes_of(w: Seq<u32>, little: bool)
    ensures
        words_of(bytes_of(w, little), little) == w,
{
    let b = bytes_of(w, little);
    assert forall|i: int| 0 <= i < w.len() implies #[trigger] words_of(b, little)[i] == w[i] by {
        let x = w[i];
        assert(b[4 * i] == bytes_in(x, little)[0]);
        assert(b[4 * i + 1] == bytes_in(x, little)[1]);
        assert(b[4 * i + 2] == bytes_in(x, little)[2]);
        assert(b[4 * i + 3] == bytes_in(x, little)[3]);
        assert((x as u8 as u32) | ((x >> 8u32) as u8 as u32) << 8u32 | ((x >> 16u32) as u8 as u32)
            << 16u32 | ((x >> 24u32) as u8 as u32) << 24u32 == x) by (bit_vector);
    }
    assert(words_of(b, little) =~= w);
}

/// Reading bytes as words and storing the words again, in one byte order, gives
/// back the bytes that fill whole words.
pub proof fn law_bytes_of_words_of(b: Seq<u8>, little: bool)
    ensures
        bytes_of(words_of(b, little), little) == b.take((4 * (b.len() / 4)) as int),
{
    let w = words_of(b, little);
    assert forall|j: int| 0 <= j < 4 * (b.len() / 4) implies #[trigger] bytes_of(w, little)[j] == b[j] by {
        let i = j / 4;
        let k = j % 4;
        assert(j == 4 * i + k);
        let b0 = b[4 * i];
        let b1 = b[4 * i + 1];
        let b2 = b[4 * i + 2];
        let b3 = b[4 * i + 3];
        let x = w[i];
        if little {
            assert(x as u8 == b0 && (x >> 8u32) as u8 == b1 && (x >> 16u32) as u8 == b2 && (x
                >> 24u32) as u8 == b3) by (bit_vector)
                requires
                    x == (b0 as u32) | (b1 as u32) << 8u32 | (b2 as u32) << 16u32 | (b3 as u32)
                        << 24u32,
            ;
        } else {
            assert(x as u8 == b3 && (x >> 8u32) as u8 == b2 && (x >> 16u32) as u8 == b1 && (x
                >> 24u32) as u8 == b0) by (bit_vector)
                requires
                    x == (b3 as u32) | (b2 as u32) << 8u32 | (b1 as u32) << 16u32 | (b0 as u32)
                        << 24u32,
            ;
        }
    }
    assert(bytes_of(w, little) =~= b.take((4 * (b.len() / 4)) as int));
}

proof fn lemma_word_slot(i: int, k: int)
    requires
        0 <= k < 4,
    ensures
        (4 * i + k) / 4 == i,
        (4 * i + k) % 4 == k,
{
    assert((4 * i + k) / 4 == i && (4 * i + k) % 4 == k) by (nonlinear_arith)
        requires
            0 <= k < 4,
    ;
}

proof fn lemma_bytes_of_slot(w: Seq<u32>, little: bool, i: int)
    requires
        0 <= i < w.len(),
    ensures
        bytes_of(w, little).subrange(4 * i, 4 * i + 4) == bytes_in(w[i], little),
{
    let b = bytes_of(w, little);
    assert forall|k: int| 0 <= k < 4 implies #[trigger] b.subrange(4 * i, 4 * i + 4)[k] == bytes_in(w[i], little)[k] by {
        lemma_word_slot(i, k);
        assert(b[4 * i + k] == bytes_in(w[(4 * i + k) / 4], little)[(4 * i + k) % 4]);
    }
    assert(b.subrange(4 * i, 4 * i + 4) =~= bytes_in(w[i], little));
}

/// Pixel words stored in memory and read back from it are the same words, and
/// each word's four bytes in memory are the bytes that `u32::to_ne_bytes` gives
/// for it, whatever the number of words.
pub proof fn law_memory_round_trip(w: Seq<u32>)
    ensures
        words_of(bytes_of(w, native_little()), native_little()) == w,
        bytes_of(w, native_little()).len() == 4 * w.len(),
        forall|i: int|
            0 <= i < w.len() ==> #[trigger] bytes_of(w, native_little()).subrange(4 * i, 4 * i + 4)
                == bytes_in(w[i], native_little()),
{
    let little = native_little();
    law_words_of_bytes_of(w, little);
    assert forall|i: int| 0 <= i < w.len() implies #[trigger] bytes_of(w, little).subrange(4 * i, 4 * i + 4)
        == bytes_in(w[i], little) by {
        lemma_bytes_of_slot(w, little, i);
    }
}

/// The bytes of the pixel words in memory, read again as words, give one word
/// per four bytes, each the word whose native bytes those four are.
pub proof fn law_memory_words(b: Seq<u8>)
    ensures
        words_of(b, native_little()).len() == b.len() / 4,
        forall|i: int|
            0 <= i < b.len() / 4 ==> #[trigger] bytes_in(words_of(b, native_little())[i], native_little())
                == b.subrange(4 * i, 4 * i + 4),
{
    let little = native_little();
    let w = words_of(b, little);
    law_bytes_of_words_of(b, little);
    assert forall|i: int| 0 <= i < b.len() / 4 implies #[trigger] bytes_in(w[i], little) == b.subrange(
        4 * i,
        4 * i + 4,
    ) by {
        lemma_bytes_of_slot(w, little, i);
        let n = b.len() / 4;
        assert(4 * i + 4 <= 4 * n) by (nonlinear_arith)
            requires
                i < n,
        ;
        assert(bytes_of(w, little).subrange(4 * i, 4 * i + 4) =~= b.subrange(4 * i, 4 * i + 4));
    }
}

/// A test frame of `len` pixels: pixel `i` holds `i` shifted up by one byte,
/// bits beyond the word dropped.
pub fn ramp_pattern(len: usize) -> (vec32: Vec<u32>)
    requires
        len <= u32::MAX,
    ensures
        vec32.len() == len,
        forall|i: int| 0 <= i < len ==> #[trigger] vec32@[i] == (i * 256) % 0x1_0000_0000,
{
    let mut vec32: Vec<u32> = Vec::new();
    let mut count: u32 = 0;
    while vec32.len() < len
        invariant
            len <= u32::MAX,
            vec32.len() <= len,
            count == vec32.len(),
            forall|i: int| 0 <= i < vec32.len() ==> #[trigger] vec32@[i] == (i * 256) % 0x1_0000_0000,
        decreases len - vec32.len(),
    {
        let pix = count << 8u32;
        assert(pix == (count * 256) % 0x1_0000_0000) by (bit_vector)
            requires
                pix == count << 8u32,
        ;
        vec32.push(pix);
        count = count + 1;
    }
    vec32
}

} // verus!
