//! Stream utilities: gzip detection on input, gzip selection by output-name
//! suffix, gzip coding through flate2, and splitting byte buffers into
//! delimiter-stripped text lines.

use std::io::{Read, Write};
use vstd::prelude::*;
use vstd::utf8::{
    char_is_scalar, char_u32_cast, encode_scalar, encode_utf8, encode_utf8_decode_utf8,
    encode_utf8_valid_utf8, decode_utf8, has_width_2_encoding, has_width_3_encoding, is_scalar,
    valid_utf8,
};

verus! {

/// `b` begins with the three fixed bytes that open a gzip member:
/// `0x1f`, `0x8b`, then the deflate method byte `0x08`.
pub open spec fn has_gz_magic(b: Seq<u8>) -> bool {
    b.len() >= 3 && b[0] == 0x1fu8 && b[1] == 0x8bu8 && b[2] == 0x08u8
}

/// `s` ends with `suffix`.
pub open spec fn ends_with(s: Seq<char>, suffix: Seq<char>) -> bool {
    s.len() >= suffix.len() && s.subrange(s.len() - suffix.len(), s.len() as int)
        == suffix
}

/// The name suffix that marks gzip content on input.
pub open spec fn gz_suffix() -> Seq<char> {
    seq!['.', 'g', 'z']
}

/// The longer name suffix that also selects gzip compression on output.
pub open spec fn gzip_suffix() -> Seq<char> {
    seq!['.', 'g', 'z', 'i', 'p']
}

/// An input with this name is treated as gzip-compressed even when its
/// content does not start with the magic bytes.
pub open spec fn gz_read_name(name: Seq<char>) -> bool {
    ends_with(name, gz_suffix())
}

/// An output with this name is gzip-compressed; every other name gets raw
/// bytes.
pub open spec fn gz_write_name(name: Seq<char>) -> bool {
    ends_with(name, gz_suffix()) || ends_with(name, gzip_suffix())
}

/// Character-by-character suffix test.
fn str_ends_with(s: &str, suffix: &str) -> (r: bool)
    ensures
        r == ends_with(s@, suffix@),
{
    let n: usize = s.unicode_len();
    let m: usize = suffix.unicode_len();
    if m > n {
        return false;
    }
    let mut i: usize = 0;
    while i < m
        invariant
            i <= m <= n,
            n == s@.len(),
            m == suffix@.len(),
            forall|j: int| 0 <= j < i ==> s@[n - m + j] == suffix@[j],
        decreases m - i,
    {
        if s.get_char(n - m + i) != suffix.get_char(i) {
            proof {
                assert(s@.subrange(n - m, n as int)[i as int] != suffix@[i as int]);
            }
            return false;
        }
        i += 1;
    }
    proof {
        assert(s@.subrange(n - m, n as int) =~= suffix@);
    }
    true
}

/// Compression detection for input, as the reader applies it: the content
/// starts with the gzip magic bytes, or the name ends in `.gz`. The magic
/// test is false for content shorter than three bytes, so a short input is
/// read as plain unless its name says otherwise.
pub fn is_gzipped(data: &Vec<u8>, file_name: &str) -> (r: bool)
    ensures
        r == (has_gz_magic(data@) || gz_read_name(file_name@)),
{
    let magic = data.len() >= 3 && data[0] == 0x1fu8 && data[1] == 0x8bu8
        && data[2] == 0x08u8;
    proof {
        reveal_strlit(".gz");
        assert(".gz"@ =~= gz_suffix());
    }
    magic || str_ends_with(file_name, ".gz")
}

/// Compression selection for output: chosen by name suffix alone, since the
/// intent of not-yet-written bytes cannot be sniffed.
pub fn wants_gz_output(file_name: &str) -> (r: bool)
    ensures
        r == gz_write_name(file_name@),
{
    proof {
        reveal_strlit(".gz");
        reveal_strlit(".gzip");
        assert(".gz"@ =~= gz_suffix());
        assert(".gzip"@ =~= gzip_suffix());
    }
    str_ends_with(file_name, ".gz") || str_ends_with(file_name, ".gzip")
}

/// What gzip compression produces for a byte buffer: one complete member
/// at the default level.
pub uninterp spec fn gzip_of(data: Seq<u8>) -> Seq<u8>;

/// What gzip decompression makes of a byte buffer: the concatenated
/// contents of its members, or nothing when the buffer is not a sequence
/// of complete gzip members.
pub uninterp spec fn gunzip_of(data: Seq<u8>) -> Option<Seq<u8>>;

/// Relies on `flate2::write::GzEncoder` at `Compression::default()`: it
/// writes one complete gzip member, which by the gzip format starts with
/// the magic bytes `1f 8b` and the deflate method byte `08`; compression
/// is lossless, so `flate2::read::MultiGzDecoder` decodes the member back
/// to exactly the input, and, being a multi-member decoder, decodes it the
/// same way when it stands after other complete members. Writing into a
/// `Vec` cannot fail, so the unwrapped results are always `Ok`.
#[verifier::external_body]
pub fn gzip_compress(data: &Vec<u8>) -> (r: Vec<u8>)
    ensures
        r@ == gzip_of(data@),
        has_gz_magic(r@),
        gunzip_of(r@) == Some(data@),
        forall|pre: Seq<u8>, d: Seq<u8>|
            gunzip_of(pre) == Some(d) ==> gunzip_of(pre + r@) == Some(d + data@),
{
    let mut enc = flate2::write::GzEncoder::new(Vec::new(), flate2::Compression::default());
    enc.write_all(data.as_slice()).unwrap();
    enc.finish().unwrap()
}

/// Relies on `flate2::read::MultiGzDecoder`: it decodes a buffer made of
/// complete gzip members to their concatenated contents (an empty buffer
/// to an empty one) and fails on anything else. The result depends on the
/// bytes alone.
#[verifier::external_body]
pub fn gzip_decompress(data: &Vec<u8>) -> (r: Option<Vec<u8>>)
    ensures
        r matches Some(v) ==> gunzip_of(data@) == Some(v@),
        r is None ==> gunzip_of(data@) is None,
{
    let mut out = Vec::new();
    let mut dec = flate2::read::MultiGzDecoder::new(data.as_slice());
    match dec.read_to_end(&mut out) {
        Ok(_) => Some(out),
        Err(_) => None,
    }
}

/// Index of the first newline byte in `b`, or `b.len()` when there is none.
pub open spec fn first_nl(b: Seq<u8>) -> int
    decreases b.len(),
{
    if b.len() == 0 {
        0
    } else if b[0] == 0x0au8 {
        0
    } else {
        1 + first_nl(b.drop_first())
    }
}

/// `first_nl` is exactly the index before which no newline stands.
proof fn lemma_first_nl(b: Seq<u8>, k: int)
    requires
        0 <= k <= b.len(),
        forall|j: int| 0 <= j < k ==> b[j] != 0x0au8,
        k < b.len() ==> b[k] == 0x0au8,
    ensures
        first_nl(b) == k,
    decreases b.len(),
{
    if b.len() == 0 {
    } else if b[0] == 0x0au8 {
        assert(k == 0);
    } else {
        let t = b.drop_first();
        assert(t =~= b.subrange(1, b.len() as int));
        assert(forall|j: int| 0 <= j < k - 1 ==> t[j] == b[j + 1]);
        lemma_first_nl(t, k - 1);
    }
}

proof fn lemma_first_nl_bounds(b: Seq<u8>)
    ensures
        0 <= first_nl(b) <= b.len(),
        forall|j: int| 0 <= j < first_nl(b) ==> b[j] != 0x0au8,
        first_nl(b) < b.len() ==> b[first_nl(b)] == 0x0au8,
    decreases b.len(),
{
    if b.len() == 0 {
    } else if b[0] == 0x0au8 {
    } else {
        let t = b.drop_first();
        assert(t =~= b.subrange(1, b.len() as int));
        lemma_first_nl_bounds(t);
        assert(forall|j: int| 1 <= j < first_nl(b) ==> b[j] == t[j - 1]);
    }
}

/// One trailing carriage return is removed together with the newline that
/// followed it.
pub open spec fn strip_cr(l: Seq<u8>) -> Seq<u8> {
    if l.len() > 0 && l[l.len() - 1] == 0x0du8 {
        l.drop_last()
    } else {
        l
    }
}

/// The lines of a byte buffer: each newline ends a line and is dropped, a
/// carriage return directly before a dropped newline is dropped with it,
/// and bytes after the last newline form one final, verbatim line. An
/// empty buffer has no lines.
pub open spec fn split_lines(b: Seq<u8>) -> Seq<Seq<u8>>
    decreases b.len(),
{
    if b.len() == 0 {
        Seq::empty()
    } else {
        let k = first_nl(b);
        if 0 <= k < b.len() {
            seq![strip_cr(b.take(k))] + split_lines(b.skip(k + 1))
        } else {
            seq![b]
        }
    }
}

/// Unfolding `split_lines` at a first newline found at index `k`.
proof fn lemma_split_lines_step(b: Seq<u8>, k: int)
    requires
        0 <= k < b.len(),
        b[k] == 0x0au8,
        forall|j: int| 0 <= j < k ==> b[j] != 0x0au8,
    ensures
        split_lines(b) == seq![strip_cr(b.take(k))] + split_lines(b.skip(k + 1)),
{
    lemma_first_nl(b, k);
}

/// A non-empty buffer without a newline is one verbatim line.
proof fn lemma_split_lines_fragment(b: Seq<u8>)
    requires
        b.len() > 0,
        forall|j: int| 0 <= j < b.len() ==> b[j] != 0x0au8,
    ensures
        split_lines(b) == seq![b],
{
    lemma_first_nl(b, b.len() as int);
}

/// UTF-8 decoding of a line sequence, skipping every line whose bytes are
/// not valid UTF-8.
pub open spec fn decode_ok_lines(ls: Seq<Seq<u8>>) -> Seq<Seq<char>>
    decreases ls.len(),
{
    if ls.len() == 0 {
        Seq::empty()
    } else if valid_utf8(ls[0]) {
        seq![decode_utf8(ls[0])] + decode_ok_lines(ls.drop_first())
    } else {
        decode_ok_lines(ls.drop_first())
    }
}

/// The text lines a byte buffer yields: split at newlines, then decoded,
/// with undecodable lines silently skipped.
pub open spec fn decoded_lines(b: Seq<u8>) -> Seq<Seq<char>> {
    decode_ok_lines(split_lines(b))
}

proof fn lemma_decode_ok_step(ls: Seq<Seq<u8>>)
    requires
        ls.len() > 0,
    ensures
        decode_ok_lines(ls) == (if valid_utf8(ls[0]) {
            seq![decode_utf8(ls[0])]
        } else {
            Seq::<Seq<char>>::empty()
        }) + decode_ok_lines(ls.drop_first()),
{
    if valid_utf8(ls[0]) {
    } else {
        assert(decode_ok_lines(ls) =~= Seq::<Seq<char>>::empty() + decode_ok_lines(
            ls.drop_first(),
        ));
    }
}

/// Relies on `String::from_utf8`: it returns a string exactly when the
/// bytes are valid UTF-8, and then decodes them as the UTF-8 format
/// prescribes, which is what vstd's `decode_utf8` states.
#[verifier::external_body]
fn decode_line_bytes(bytes: Vec<u8>) -> (r: Option<String>)
    ensures
        r is Some <==> valid_utf8(bytes@),
        r matches Some(s) ==> s@ == decode_utf8(bytes@),
{
    match String::from_utf8(bytes) {
        Ok(s) => Some(s),
        Err(_) => None,
    }
}

/// Split a byte buffer into its delimiter-stripped text lines, skipping
/// lines that fail to decode.
pub fn decode_lines(data: &Vec<u8>) -> (r: Vec<String>)
    ensures
        r@.map_values(|s: String| s@) == decoded_lines(data@),
{
    let mut lines: Vec<String> = Vec::new();
    let mut cur: Vec<u8> = Vec::new();
    let ghost mut start: int = 0;
    let mut i: usize = 0;
    proof {
        assert(data@.skip(0) =~= data@);
        assert(lines@.map_values(|s: String| s@) =~= Seq::<Seq<char>>::empty());
    }
    while i < data.len()
        invariant
            0 <= start <= i <= data@.len(),
            cur@ == data@.subrange(start, i as int),
            forall|j: int| 0 <= j < cur@.len() ==> cur@[j] != 0x0au8,
            decoded_lines(data@) == lines@.map_values(|s: String| s@) + decode_ok_lines(
                split_lines(data@.skip(start)),
            ),
        decreases data@.len() - i,
    {
        let b = data[i];
        if b == 0x0au8 {
            let ghost rest = data@.skip(start);
            let ghost idx = i - start;
            let ghost cur0 = cur@;
            proof {
                assert(forall|j: int| 0 <= j < rest.len() ==> rest[j] == data@[start + j]);
                assert(rest.take(idx) =~= cur0);
                lemma_split_lines_step(rest, idx);
                assert(rest.skip(idx + 1) =~= data@.skip(i + 1));
                lemma_decode_ok_step(split_lines(rest));
                assert(split_lines(rest)[0] == strip_cr(cur0));
                assert(split_lines(rest).drop_first() =~= split_lines(data@.skip(i + 1)));
            }
            if cur.len() > 0 && cur[cur.len() - 1] == 0x0du8 {
                cur.pop();
                proof {
                    assert(cur@ =~= strip_cr(cur0));
                }
            }
            proof {
                assert(cur@ == strip_cr(cur0));
            }
            let ghost before = lines@.map_values(|s: String| s@);
            match decode_line_bytes(cur) {
                Some(s) => {
                    lines.push(s);
                    proof {
                        assert(lines@.map_values(|s: String| s@) =~= before.push(s@));
                        assert(before.push(s@) =~= before + seq![decode_utf8(strip_cr(cur0))]);
                    }
                },
                None => {
                    proof {
                        assert(decode_ok_lines(split_lines(rest)) == decode_ok_lines(
                            split_lines(data@.skip(i + 1)),
                        ));
                    }
                },
            }
            cur = Vec::new();
            proof {
                start = i + 1;
            }
        } else {
            cur.push(b);
            proof {
                assert(cur@ =~= data@.subrange(start, i + 1));
            }
        }
        i += 1;
    }
    let ghost rest = data@.skip(start);
    proof {
        assert(cur@ =~= rest);
    }
    if cur.len() > 0 {
        proof {
            lemma_split_lines_fragment(rest);
            lemma_decode_ok_step(split_lines(rest));
            assert(split_lines(rest).drop_first() =~= Seq::<Seq<u8>>::empty());
        }
        let ghost before = lines@.map_values(|s: String| s@);
        match decode_line_bytes(cur) {
            Some(s) => {
                lines.push(s);
                proof {
                    assert(lines@.map_values(|s: String| s@) =~= before.push(s@));
                    assert(before.push(s@) =~= before + seq![decode_utf8(rest)]);
                    assert(lines@.map_values(|s: String| s@) =~= decoded_lines(data@));
                }
            },
            None => {
                proof {
                    assert(lines@.map_values(|s: String| s@) =~= decoded_lines(data@));
                }
            },
        }
    } else {
        proof {
            assert(lines@.map_values(|s: String| s@) =~= decoded_lines(data@));
        }
    }
    lines
}

/// A character sequence that can stand as one line of output: it holds no
/// newline, and does not end in a carriage return that the reader would
/// strip away again.
pub open spec fn line_safe(s: Seq<char>) -> bool {
    (forall|i: int| 0 <= i < s.len() ==> s[i] != '\n') && (s.len() > 0 ==> s[s.len() - 1]
        != '\r')
}

/// The byte buffer that a line sequence is written as: each line UTF-8
/// encoded and ended by one newline byte.
pub open spec fn join_lines(ls: Seq<Seq<char>>) -> Seq<u8>
    decreases ls.len(),
{
    if ls.len() == 0 {
        Seq::empty()
    } else {
        encode_utf8(ls[0]) + seq![0x0au8] + join_lines(ls.drop_first())
    }
}

proof fn lemma_or_ge(x: u8)
    by (bit_vector)
    ensures
        (0x80u8 | x) >= 0x80,
        (0xC0u8 | x) >= 0x80,
        (0xE0u8 | x) >= 0x80,
        (0xF0u8 | x) >= 0x80,
{
}

proof fn lemma_low_mask(v: u32)
    by (bit_vector)
    requires
        v < 0x80,
    ensures
        (v & 0x7F) as u8 == v as u8,
{
}

proof fn lemma_low_cast(a: u32)
    by (bit_vector)
    requires
        a < 0x80,
    ensures
        (a as u8) < 0x80,
        (a as u8) as u32 == a,
{
}

proof fn lemma_encode_scalar_props(v: u32)
    requires
        is_scalar(v),
    ensures
        encode_scalar(v).len() > 0,
        v < 0x80 ==> encode_scalar(v) == seq![v as u8],
        v >= 0x80 ==> forall|j: int|
            0 <= j < encode_scalar(v).len() ==> encode_scalar(v)[j] >= 0x80,
{
    if v < 0x80 {
        lemma_low_mask(v);
        assert(encode_scalar(v) =~= seq![v as u8]);
    } else if has_width_2_encoding(v) {
        lemma_or_ge(((v >> 6) & 0x1F) as u8);
        lemma_or_ge((v & 0x3F) as u8);
    } else if has_width_3_encoding(v) {
        lemma_or_ge(((v >> 12) & 0x0F) as u8);
        lemma_or_ge(((v >> 6) & 0x3F) as u8);
        lemma_or_ge((v & 0x3F) as u8);
    } else {
        lemma_or_ge(((v >> 18) & 0x7) as u8);
        lemma_or_ge(((v >> 12) & 0x3F) as u8);
        lemma_or_ge(((v >> 6) & 0x3F) as u8);
        lemma_or_ge((v & 0x3F) as u8);
    }
}

/// No byte of the encoding of `s` is the (ascii) byte of `ch` unless `ch`
/// itself occurs in `s`.
proof fn lemma_encode_no_char_byte(s: Seq<char>, ch: char)
    requires
        (ch as u32) < 0x80,
        forall|i: int| 0 <= i < s.len() ==> s[i] != ch,
    ensures
        forall|j: int|
            0 <= j < encode_utf8(s).len() ==> encode_utf8(s)[j] != (ch as u32) as u8,
    decreases s.len(),
{
    if s.len() == 0 {
    } else {
        let c = s[0];
        char_is_scalar(c);
        let v = c as u32;
        let e0 = encode_scalar(v);
        lemma_encode_scalar_props(v);
        lemma_low_cast(ch as u32);
        if v < 0x80 {
            lemma_low_cast(v);
            if (v as u8) == ((ch as u32) as u8) {
                char_u32_cast(c, v);
                char_u32_cast(ch, ch as u32);
                assert(false);
            }
        }
        let t = s.drop_first();
        assert(forall|i: int| 0 <= i < t.len() ==> t[i] == s[i + 1]);
        lemma_encode_no_char_byte(t, ch);
        assert forall|j: int| 0 <= j < encode_utf8(s).len() implies encode_utf8(s)[j] != (
        ch as u32) as u8 by {
            if j < e0.len() {
                assert(encode_utf8(s)[j] == e0[j]);
            } else {
                assert(encode_utf8(s)[j] == encode_utf8(t)[j - e0.len()]);
            }
        }
    }
}

/// The last byte of a non-empty encoding mirrors the last character: its
/// own byte when ascii, a byte at or above `0x80` otherwise.
proof fn lemma_encode_last(s: Seq<char>)
    requires
        s.len() > 0,
    ensures
        encode_utf8(s).len() > 0,
        (s[s.len() - 1] as u32) < 0x80 ==> encode_utf8(s)[encode_utf8(s).len() - 1] == (s[s.len()
            - 1] as u32) as u8,
        (s[s.len() - 1] as u32) >= 0x80 ==> encode_utf8(s)[encode_utf8(s).len() - 1] >= 0x80,
    decreases s.len(),
{
    let c = s[0];
    char_is_scalar(c);
    let v = c as u32;
    lemma_encode_scalar_props(v);
    let e0 = encode_scalar(v);
    if s.len() == 1 {
        assert(encode_utf8(s.drop_first()) =~= Seq::<u8>::empty());
        assert(encode_utf8(s) =~= e0);
        if v < 0x80 {
            assert(encode_utf8(s)[encode_utf8(s).len() - 1] == v as u8);
        }
    } else {
        let t = s.drop_first();
        lemma_encode_last(t);
        assert(t[t.len() - 1] == s[s.len() - 1]);
        assert(encode_utf8(s)[encode_utf8(s).len() - 1] == encode_utf8(t)[encode_utf8(t).len()
            - 1]);
    }
}

/// The encoding of a line-safe character sequence holds no newline byte,
/// and the reader's carriage-return stripping leaves it unchanged.
proof fn lemma_encoded_line_clean(s: Seq<char>)
    requires
        line_safe(s),
    ensures
        forall|j: int| 0 <= j < encode_utf8(s).len() ==> encode_utf8(s)[j] != 0x0au8,
        strip_cr(encode_utf8(s)) == encode_utf8(s),
{
    lemma_encode_no_char_byte(s, '\n');
    if s.len() == 0 {
    } else {
        lemma_encode_last(s);
        let last = s[s.len() - 1];
        if (last as u32) < 0x80 {
            lemma_low_cast(last as u32);
            if encode_utf8(s)[encode_utf8(s).len() - 1] == 0x0du8 {
                char_u32_cast(last, last as u32);
                char_u32_cast('\r', '\r' as u32);
                assert(false);
            }
        }
    }
}

/// Writing lines and reading them back yields the same lines, as long as
/// each is line-safe.
pub proof fn lemma_decoded_join(ls: Seq<Seq<char>>)
    requires
        forall|i: int| 0 <= i < ls.len() ==> line_safe(ls[i]),
    ensures
        decoded_lines(join_lines(ls)) == ls,
    decreases ls.len(),
{
    if ls.len() == 0 {
    } else {
        let e = encode_utf8(ls[0]);
        let b = join_lines(ls);
        let k = e.len() as int;
        lemma_encoded_line_clean(ls[0]);
        assert(b[k] == 0x0au8);
        assert(forall|j: int| 0 <= j < k ==> b[j] == e[j]);
        lemma_split_lines_step(b, k);
        assert(b.take(k) =~= e);
        assert(b.skip(k + 1) =~= join_lines(ls.drop_first()));
        encode_utf8_valid_utf8(ls[0]);
        encode_utf8_decode_utf8(ls[0]);
        lemma_decode_ok_step(split_lines(b));
        assert(split_lines(b).drop_first() =~= split_lines(join_lines(ls.drop_first())));
        assert(forall|i: int|
            0 <= i < ls.drop_first().len() ==> ls.drop_first()[i] == ls[i + 1]);
        lemma_decoded_join(ls.drop_first());
        assert(decoded_lines(b) =~= ls);
    }
}

/// Lines appended after a newline-terminated buffer decode independently:
/// the lines of the whole are the lines of each part, in order.
proof fn lemma_split_lines_append(b1: Seq<u8>, b2: Seq<u8>)
    requires
        b1.len() == 0 || b1[b1.len() - 1] == 0x0au8,
    ensures
        split_lines(b1 + b2) == split_lines(b1) + split_lines(b2),
    decreases b1.len(),
{
    if b1.len() == 0 {
        assert(b1 + b2 =~= b2);
        assert(split_lines(b1) + split_lines(b2) =~= split_lines(b2));
    } else {
        lemma_first_nl_bounds(b1);
        let k = first_nl(b1);
        assert(k < b1.len());
        assert((b1 + b2)[k] == 0x0au8);
        assert(forall|j: int| 0 <= j < k ==> (b1 + b2)[j] == b1[j]);
        lemma_split_lines_step(b1 + b2, k);
        lemma_split_lines_step(b1, k);
        assert((b1 + b2).take(k) =~= b1.take(k));
        assert((b1 + b2).skip(k + 1) =~= b1.skip(k + 1) + b2);
        let t = b1.skip(k + 1);
        assert(t.len() == 0 || t[t.len() - 1] == 0x0au8);
        lemma_split_lines_append(t, b2);
        assert(split_lines(b1 + b2) =~= split_lines(b1) + split_lines(b2));
    }
}

proof fn lemma_decode_ok_append(l1: Seq<Seq<u8>>, l2: Seq<Seq<u8>>)
    ensures
        decode_ok_lines(l1 + l2) == decode_ok_lines(l1) + decode_ok_lines(l2),
    decreases l1.len(),
{
    if l1.len() == 0 {
        assert(l1 + l2 =~= l2);
        assert(decode_ok_lines(l1) + decode_ok_lines(l2) =~= decode_ok_lines(l2));
    } else {
        assert((l1 + l2).drop_first() =~= l1.drop_first() + l2);
        lemma_decode_ok_append(l1.drop_first(), l2);
        lemma_decode_ok_step(l1 + l2);
        lemma_decode_ok_step(l1);
        assert(decode_ok_lines(l1 + l2) =~= decode_ok_lines(l1) + decode_ok_lines(l2));
    }
}

/// The reader sees an appended file as both write operations' lines in the
/// order written, as long as the first part ended at a line boundary.
pub proof fn lemma_decoded_lines_append(b1: Seq<u8>, b2: Seq<u8>)
    requires
        b1.len() == 0 || b1[b1.len() - 1] == 0x0au8,
    ensures
        decoded_lines(b1 + b2) == decoded_lines(b1) + decoded_lines(b2),
{
    lemma_split_lines_append(b1, b2);
    lemma_decode_ok_append(split_lines(b1), split_lines(b2));
}

/// Write a line sequence as a byte buffer: each line UTF-8 encoded and
/// ended with one newline byte.
pub fn lines_to_bytes(lines: &Vec<String>) -> (r: Vec<u8>)
    ensures
        r@ == join_lines(lines@.map_values(|s: String| s@)),
        r@.len() == 0 || r@[r@.len() - 1] == 0x0au8,
{
    let mut r: Vec<u8> = Vec::new();
    let mut i: usize = 0;
    proof {
        assert(lines@.map_values(|s: String| s@).take(0) =~= Seq::<Seq<char>>::empty());
    }
    while i < lines.len()
        invariant
            i <= lines@.len(),
            r@ == join_lines(lines@.map_values(|s: String| s@).take(i as int)),
            r@.len() == 0 || r@[r@.len() - 1] == 0x0au8,
        decreases lines@.len() - i,
    {
        let ghost views = lines@.map_values(|s: String| s@);
        let mut bv = lines[i].as_str().as_bytes_vec();
        r.append(&mut bv);
        r.push(0x0au8);
        proof {
            lemma_join_lines_snoc(views.take(i as int), views[i as int]);
            assert(views.take(i + 1) =~= views.take(i as int).push(views[i as int]));
            assert(r@ =~= join_lines(views.take(i + 1)));
        }
        i += 1;
    }
    proof {
        let views = lines@.map_values(|s: String| s@);
        assert(views.take(views.len() as int) =~= views);
    }
    r
}

proof fn lemma_join_lines_snoc(ls: Seq<Seq<char>>, l: Seq<char>)
    ensures
        join_lines(ls.push(l)) == join_lines(ls) + encode_utf8(l) + seq![0x0au8],
    decreases ls.len(),
{
    if ls.len() == 0 {
        assert(ls.push(l)[0] == l);
        assert(ls.push(l).drop_first() =~= Seq::<Seq<char>>::empty());
        assert(join_lines(Seq::<Seq<char>>::empty()) =~= Seq::<u8>::empty());
        assert(join_lines(ls.push(l)) == encode_utf8(l) + seq![0x0au8] + join_lines(
            Seq::<Seq<char>>::empty(),
        ));
        assert(join_lines(ls.push(l)) =~= join_lines(ls) + encode_utf8(l) + seq![0x0au8]);
    } else {
        assert(ls.push(l).drop_first() =~= ls.drop_first().push(l));
        assert(ls.push(l)[0] == ls[0]);
        lemma_join_lines_snoc(ls.drop_first(), l);
        let e0 = encode_utf8(ls[0]);
        assert(join_lines(ls.push(l)) == e0 + seq![0x0au8] + join_lines(ls.drop_first().push(l)));
        assert(e0 + seq![0x0au8] + (join_lines(ls.drop_first()) + encode_utf8(l) + seq![0x0au8])
            =~= (e0 + seq![0x0au8] + join_lines(ls.drop_first())) + encode_utf8(l) + seq![0x0au8]);
    }
}

} // verus!
