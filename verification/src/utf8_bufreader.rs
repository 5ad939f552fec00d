//! Byte-safe UTF-8 reading: turns raw byte buffers into text without ever
//! splitting a multi-byte character.
//!
//! The stream protocol reads a fixed-size window of bytes, decodes the
//! longest valid UTF-8 prefix of the window, and resumes the next read at
//! the first undecoded byte, so no byte is lost or read twice. A window
//! whose very first bytes are undecodable stops the stream (safe mode) or,
//! on explicit request, is decoded lossily with replacement characters.
//! The file reading itself happens outside this crate; everything here
//! works on plain byte buffers.

use crate::text::char_from_u32;
use crate::text::push_char;
use vstd::prelude::*;
use vstd::utf8::*;

verus! {

/// Examines the bytes of `buf` from `i` up to `end` for one UTF-8 scalar:
/// returns its codepoint and byte length, or nothing when the window does
/// not begin with a well-formed scalar encoding.
fn scan_scalar(buf: &[u8], i: usize, end: usize) -> (r: Option<(u32, usize)>)
    requires
        i <= end <= buf@.len(),
    ensures
        ({
            let suffix = buf@.subrange(i as int, end as int);
            match r {
                Option::Some(pair) => {
                    &&& valid_first_scalar(suffix)
                    &&& pair.0 == decode_first_scalar(suffix)
                    &&& pair.1 == length_of_first_scalar(suffix)
                    &&& is_scalar(pair.0)
                    &&& 1 <= pair.1 <= 4
                    &&& i + pair.1 <= end
                },
                Option::None => !valid_first_scalar(suffix),
            }
        }),
{
    let ghost suffix = buf@.subrange(i as int, end as int);
    if i == end {
        return None;
    }
    let b0 = buf[i];
    proof {
        assert(suffix[0] == b0);
    }
    if b0 <= 0x7f {
        let cp = (b0 & 0x7f) as u32;
        proof {
            assert(cp <= 0x7f) by (bit_vector)
                requires
                    cp == (b0 & 0x7f) as u32,
            ;
            assert(cp == codepoint_width_1(b0));
        }
        Some((cp, 1))
    } else if 0xc0 <= b0 && b0 <= 0xdf {
        if end - i < 2 {
            return None;
        }
        let b1 = buf[i + 1];
        proof {
            assert(suffix[1] == b1);
        }
        if !(0x80 <= b1 && b1 <= 0xbf) {
            return None;
        }
        let cp = (((b0 & 0x1f) as u32) << 6) | ((b1 & 0x3f) as u32);
        proof {
            assert(cp == codepoint_width_2(b0, b1));
            assert(cp <= 0x7ff) by (bit_vector)
                requires
                    cp == (((b0 & 0x1f) as u32) << 6) | ((b1 & 0x3f) as u32),
            ;
        }
        if cp < 0x80 {
            return None;
        }
        Some((cp, 2))
    } else if 0xe0 <= b0 && b0 <= 0xef {
        if end - i < 3 {
            return None;
        }
        let b1 = buf[i + 1];
        let b2 = buf[i + 2];
        proof {
            assert(suffix[1] == b1);
            assert(suffix[2] == b2);
        }
        if !(0x80 <= b1 && b1 <= 0xbf) || !(0x80 <= b2 && b2 <= 0xbf) {
            return None;
        }
        let cp = (((b0 & 0x0f) as u32) << 12) | (((b1 & 0x3f) as u32) << 6) | ((b2
            & 0x3f) as u32);
        proof {
            assert(cp == codepoint_width_3(b0, b1, b2));
            assert(cp <= 0xffff) by (bit_vector)
                requires
                    cp == (((b0 & 0x0f) as u32) << 12) | (((b1 & 0x3f) as u32) << 6) | ((b2
                        & 0x3f) as u32),
            ;
        }
        if cp < 0x800 {
            return None;
        }
        if 0xd800 <= cp && cp <= 0xdfff {
            return None;
        }
        Some((cp, 3))
    } else if 0xf0 <= b0 && b0 <= 0xf7 {
        if end - i < 4 {
            return None;
        }
        let b1 = buf[i + 1];
        let b2 = buf[i + 2];
        let b3 = buf[i + 3];
        proof {
            assert(suffix[1] == b1);
            assert(suffix[2] == b2);
            assert(suffix[3] == b3);
        }
        if !(0x80 <= b1 && b1 <= 0xbf) || !(0x80 <= b2 && b2 <= 0xbf) || !(0x80 <= b3 && b3
            <= 0xbf) {
            return None;
        }
        let cp = (((b0 & 0x07) as u32) << 18) | (((b1 & 0x3f) as u32) << 12) | (((b2
            & 0x3f) as u32) << 6) | ((b3 & 0x3f) as u32);
        proof {
            assert(cp == codepoint_width_4(b0, b1, b2, b3));
        }
        if cp < 0x10000 || cp > 0x10ffff {
            return None;
        }
        Some((cp, 4))
    } else {
        None
    }
}

/// A well-formed scalar at the head of a sequence stays well-formed, with
/// the same value and length, when the sequence is cut to any length that
/// still holds the whole scalar.
proof fn lemma_first_scalar_prefix(x: Seq<u8>, m: int)
    requires
        valid_first_scalar(x),
        length_of_first_scalar(x) <= m <= x.len(),
    ensures
        valid_first_scalar(x.subrange(0, m)),
        decode_first_scalar(x.subrange(0, m)) == decode_first_scalar(x),
        length_of_first_scalar(x.subrange(0, m)) == length_of_first_scalar(x),
{
    let y = x.subrange(0, m);
    assert(y[0] == x[0]);
    if is_leading_byte_width_1(x[0]) {
    } else if is_leading_byte_width_2(x[0]) {
        assert(y[1] == x[1]);
    } else if is_leading_byte_width_3(x[0]) {
        assert(y[1] == x[1]);
        assert(y[2] == x[2]);
    } else {
        assert(y[1] == x[1]);
        assert(y[2] == x[2]);
        assert(y[3] == x[3]);
    }
}

/// Scans the window `[start, end)` of `buf` from the front and returns the
/// position just after its longest decodable prefix: everything before the
/// result is valid UTF-8, and either the window is exhausted or what
/// follows does not begin with a well-formed scalar.
fn utf8_window_prefix(buf: &[u8], start: usize, end: usize) -> (p: usize)
    requires
        start <= end <= buf@.len(),
    ensures
        start <= p <= end,
        valid_utf8(buf@.subrange(start as int, p as int)),
        p == end || !valid_first_scalar(buf@.subrange(p as int, end as int)),
{
    let mut p = start;
    proof {
        assert(buf@.subrange(start as int, start as int) =~= Seq::<u8>::empty());
    }
    while p < end
        invariant
            start <= p <= end <= buf@.len(),
            valid_utf8(buf@.subrange(start as int, p as int)),
        decreases end - p,
    {
        match scan_scalar(buf, p, end) {
            Some(pair) => {
                let w = pair.1;
                proof {
                    let a = buf@.subrange(start as int, p as int);
                    let suffix = buf@.subrange(p as int, end as int);
                    let seg = buf@.subrange(p as int, p + w as int);
                    lemma_first_scalar_prefix(suffix, w as int);
                    assert(suffix.subrange(0, w as int) =~= seg);
                    assert(pop_first_scalar(seg) =~= Seq::<u8>::empty());
                    assert(valid_utf8(pop_first_scalar(seg)));
                    assert(valid_utf8(seg));
                    valid_utf8_concat(a, seg);
                    assert(a + seg =~= buf@.subrange(start as int, p + w as int));
                }
                p = p + w;
            },
            None => {
                return p;
            },
        }
    }
    p
}

/// Decodes the valid UTF-8 bytes of `buf` in `[start, end)` into a string.
fn decode_range_to_string(buf: &[u8], start: usize, end: usize) -> (s: String)
    requires
        start <= end <= buf@.len(),
        valid_utf8(buf@.subrange(start as int, end as int)),
    ensures
        s@ == decode_utf8(buf@.subrange(start as int, end as int)),
{
    let ghost whole = buf@.subrange(start as int, end as int);
    let mut s = String::new();
    let mut i = start;
    proof {
        assert(buf@.subrange(start as int, end as int) =~= whole);
        assert(s@ + decode_utf8(whole) =~= decode_utf8(whole));
    }
    while i < end
        invariant
            start <= i <= end <= buf@.len(),
            whole == buf@.subrange(start as int, end as int),
            valid_utf8(buf@.subrange(i as int, end as int)),
            s@ + decode_utf8(buf@.subrange(i as int, end as int)) == decode_utf8(whole),
        decreases end - i,
    {
        let ghost suffix = buf@.subrange(i as int, end as int);
        match scan_scalar(buf, i, end) {
            Some(pair) => {
                let c = char_from_u32(pair.0);
                push_char(&mut s, c);
                proof {
                    char_u32_cast(c, pair.0);
                    let rest = buf@.subrange(i + pair.1 as int, end as int);
                    assert(pop_first_scalar(suffix) =~= rest);
                    assert(decode_utf8(suffix) == seq![decode_first_scalar(suffix) as char]
                        + decode_utf8(rest));
                    assert(decode_first_scalar(suffix) as char == c);
                    assert(s@ + decode_utf8(rest) =~= decode_utf8(whole));
                }
                i = i + pair.1;
            },
            None => {
                proof {
                    assert(suffix.len() > 0);
                    assert(valid_first_scalar(suffix));
                    assert(false);
                }
                i = end;
            },
        }
    }
    proof {
        assert(buf@.subrange(i as int, end as int) =~= Seq::<u8>::empty());
        assert(s@ =~= decode_utf8(whole));
    }
    s
}

/// The lossy decoding of a byte sequence: each well-formed scalar becomes
/// its character, and each undecodable byte becomes one replacement
/// character.
pub open spec fn decode_utf8_lossy(bytes: Seq<u8>) -> Seq<char>
    decreases bytes.len(),
{
    if bytes.len() == 0 {
        Seq::empty()
    } else if valid_first_scalar(bytes) {
        seq![decode_first_scalar(bytes) as char] + decode_utf8_lossy(pop_first_scalar(bytes))
    } else {
        seq!['\u{fffd}'] + decode_utf8_lossy(bytes.drop_first())
    }
}

/// Decodes all bytes of `buf` in `[start, end)` lossily: undecodable bytes
/// become replacement characters.
fn decode_range_lossy(buf: &[u8], start: usize, end: usize) -> (s: String)
    requires
        start <= end <= buf@.len(),
    ensures
        s@ == decode_utf8_lossy(buf@.subrange(start as int, end as int)),
{
    let ghost whole = buf@.subrange(start as int, end as int);
    let mut s = String::new();
    let mut i = start;
    proof {
        assert(s@ + decode_utf8_lossy(whole) =~= decode_utf8_lossy(whole));
    }
    while i < end
        invariant
            start <= i <= end <= buf@.len(),
            whole == buf@.subrange(start as int, end as int),
            s@ + decode_utf8_lossy(buf@.subrange(i as int, end as int)) == decode_utf8_lossy(
                whole,
            ),
        decreases end - i,
    {
        let ghost suffix = buf@.subrange(i as int, end as int);
        match scan_scalar(buf, i, end) {
            Some(pair) => {
                let c = char_from_u32(pair.0);
                push_char(&mut s, c);
                proof {
                    char_u32_cast(c, pair.0);
                    let rest = buf@.subrange(i + pair.1 as int, end as int);
                    assert(pop_first_scalar(suffix) =~= rest);
                    assert(decode_utf8_lossy(suffix) == seq![decode_first_scalar(suffix) as char]
                        + decode_utf8_lossy(rest));
                    assert(s@ + decode_utf8_lossy(rest) =~= decode_utf8_lossy(whole));
                }
                i = i + pair.1;
            },
            None => {
                push_char(&mut s, '\u{fffd}');
                proof {
                    let rest = buf@.subrange(i + 1int, end as int);
                    assert(suffix.drop_first() =~= rest);
                    assert(decode_utf8_lossy(suffix) == seq!['\u{fffd}'] + decode_utf8_lossy(
                        rest,
                    ));
                    assert(s@ + decode_utf8_lossy(rest) =~= decode_utf8_lossy(whole));
                }
                i = i + 1;
            },
        }
    }
    proof {
        assert(buf@.subrange(i as int, end as int) =~= Seq::<u8>::empty());
        assert(s@ =~= decode_utf8_lossy(whole));
    }
    s
}

/// True when the buffer is non-empty and does not even begin with one
/// well-formed scalar encoding, so that no prefix of it can be decoded.
pub open spec fn undecodable_start(bytes: Seq<u8>) -> bool {
    bytes.len() > 0 && !valid_first_scalar(bytes)
}

/// One step of the byte-safe stream reader: decodes the longest valid
/// UTF-8 prefix of the buffer and reports how many bytes it used, so the
/// caller can rewind its byte source to the first unused byte.
///
/// When the buffer starts with undecodable bytes, nothing can be yielded:
/// in safe mode the result is the empty string with position 0 (the caller
/// stops the stream); with `read_unsafe` the whole buffer is decoded
/// lossily, replacement characters standing in for undecodable bytes, and
/// the position covers the whole buffer.
pub fn parse_utf8_buffer(file_buffer: &Vec<u8>, read_unsafe: bool) -> (r: (String, usize))
    ensures
        r.1 <= file_buffer@.len(),
        read_unsafe && undecodable_start(file_buffer@) ==> {
            &&& r.1 == file_buffer@.len()
            &&& r.0@ == decode_utf8_lossy(file_buffer@)
        },
        !(read_unsafe && undecodable_start(file_buffer@)) ==> {
            &&& valid_utf8(file_buffer@.subrange(0, r.1 as int))
            &&& r.1 == file_buffer@.len() || !valid_first_scalar(
                file_buffer@.subrange(r.1 as int, file_buffer@.len() as int),
            )
            &&& r.0@ == decode_utf8(file_buffer@.subrange(0, r.1 as int))
            &&& encode_utf8(r.0@) == file_buffer@.subrange(0, r.1 as int)
        },
{
    let buf = file_buffer.as_slice();
    let n = buf.len();
    let p = utf8_window_prefix(buf, 0, n);
    if p == 0 && read_unsafe && n > 0 {
        proof {
            assert(undecodable_start(file_buffer@)) by {
                assert(buf@.subrange(0, n as int) =~= file_buffer@);
            }
        }
        let s = decode_range_lossy(buf, 0, n);
        proof {
            assert(buf@.subrange(0, n as int) =~= file_buffer@);
        }
        (s, n)
    } else {
        let s = decode_range_to_string(buf, 0, p);
        proof {
            let prefix = file_buffer@.subrange(0, p as int);
            assert(buf@.subrange(0, p as int) =~= prefix);
            decode_utf8_encode_utf8(prefix);
            if p != n {
                assert(buf@.subrange(p as int, n as int) =~= file_buffer@.subrange(
                    p as int,
                    file_buffer@.len() as int,
                ));
            }
            if read_unsafe && undecodable_start(file_buffer@) {
                assert(!valid_first_scalar(file_buffer@));
                assert(buf@.subrange(0, n as int) =~= file_buffer@);
                assert(p == 0 && n > 0);
                assert(false);
            }
        }
        (s, p)
    }
}

/// A valid UTF-8 prefix of a valid UTF-8 sequence always ends on a
/// character boundary: UTF-8 is self-synchronizing, so the two decodings
/// agree up to the prefix's end.
proof fn lemma_valid_prefix_is_boundary(s: Seq<u8>, k: int)
    requires
        valid_utf8(s),
        0 <= k <= s.len(),
        valid_utf8(s.subrange(0, k)),
    ensures
        is_char_boundary(s, k),
    decreases k,
{
    if k == 0 {
    } else {
        let prefix = s.subrange(0, k);
        assert(valid_first_scalar(prefix));
        assert(valid_first_scalar(s));
        assert(prefix[0] == s[0]);
        let w = length_of_first_scalar(s);
        assert(length_of_first_scalar(prefix) == w);
        assert(w <= k);
        let st = pop_first_scalar(s);
        let pt = pop_first_scalar(prefix);
        assert(pt =~= st.subrange(0, k - w));
        assert(valid_utf8(st));
        assert(valid_utf8(pt));
        lemma_valid_prefix_is_boundary(st, k - w);
    }
}

/// Where the front scan of a window stops, at most 3 bytes of the window
/// remain — the start of the next character that the window cut off — and
/// a window that reaches the end of a valid sequence is consumed whole.
proof fn lemma_window_scan_max(s: Seq<u8>, b: int, k: int)
    requires
        valid_utf8(s),
        0 <= k <= b <= s.len(),
        valid_utf8(s.subrange(0, k)),
        k == b || !valid_first_scalar(s.subrange(k, b)),
    ensures
        b - k <= 3,
        b == s.len() ==> k == b,
{
    if k == b {
    } else {
        lemma_valid_prefix_is_boundary(s, k);
        valid_utf8_split(s, k);
        let suf = s.subrange(k, s.len() as int);
        assert(valid_utf8(suf));
        assert(suf.len() > 0);
        assert(valid_first_scalar(suf));
        let w = length_of_first_scalar(suf);
        assert(1 <= w <= 4);
        assert(w <= suf.len());
        if k + w <= b {
            lemma_first_scalar_prefix(suf, b - k);
            assert(suf.subrange(0, b - k) =~= s.subrange(k, b));
            assert(false);
        }
        if b == s.len() {
            assert(s.subrange(k, b) =~= suf);
            assert(false);
        }
    }
}

/// The concatenated UTF-8 bytes of a sequence of strings.
pub open spec fn concat_bytes(ss: Seq<String>) -> Seq<u8>
    decreases ss.len(),
{
    if ss.len() == 0 {
        Seq::empty()
    } else {
        concat_bytes(ss.drop_last()) + encode_utf8(ss.last()@)
    }
}

/// Encoding distributes over concatenation of character sequences.
proof fn lemma_encode_utf8_concat(s1: Seq<char>, s2: Seq<char>)
    ensures
        encode_utf8(s1 + s2) == encode_utf8(s1) + encode_utf8(s2),
    decreases s1.len(),
{
    if s1.len() == 0 {
        assert(s1 + s2 =~= s2);
        assert(encode_utf8(s1) =~= Seq::<u8>::empty());
        assert(encode_utf8(s1 + s2) =~= encode_utf8(s1) + encode_utf8(s2));
    } else {
        lemma_encode_utf8_concat(s1.drop_first(), s2);
        assert((s1 + s2)[0] == s1[0]);
        assert((s1 + s2).drop_first() =~= s1.drop_first() + s2);
        assert(encode_utf8(s1 + s2) =~= encode_utf8(s1) + encode_utf8(s2));
    }
}

/// The concatenated bytes of a chunk list are the encoding of the
/// concatenated characters.
proof fn lemma_concat_bytes_encodes(ss: Seq<String>)
    ensures
        concat_bytes(ss) == encode_utf8(crate::text::concat_all(crate::occurrence::key_seq(ss))),
    decreases ss.len(),
{
    let views = crate::occurrence::key_seq(ss);
    if ss.len() == 0 {
        assert(views =~= Seq::<Seq<char>>::empty());
        assert(encode_utf8(crate::text::concat_all(views)) =~= Seq::<u8>::empty());
    } else {
        lemma_concat_bytes_encodes(ss.drop_last());
        assert(crate::occurrence::key_seq(ss.drop_last()) =~= views.drop_last());
        assert(views.last() == ss.last()@);
        lemma_encode_utf8_concat(crate::text::concat_all(views.drop_last()), views.last());
    }
}

/// Streams an in-memory byte buffer through the byte-safe reader protocol:
/// repeatedly takes a window of at most `buffer_size` bytes, yields the
/// decoding of its longest valid prefix, and resumes at the first
/// undecoded byte. The stream fails (None) only when a window starts with
/// undecodable bytes.
///
/// Whenever the stream completes, the chunks' bytes concatenate to exactly
/// the input — no byte lost, none duplicated — and every chunk is a whole
/// number of characters of at most `buffer_size` bytes. For input that is
/// valid UTF-8 throughout and a buffer size of at least 4 bytes, the
/// stream always completes.
pub fn read_chunks(data: &Vec<u8>, buffer_size: usize) -> (r: Option<Vec<String>>)
    requires
        buffer_size >= 1,
    ensures
        r is Some ==> concat_bytes(r->0@) == data@,
        r is Some ==> forall|i: int|
            0 <= i < r->0@.len() ==> encode_utf8(#[trigger] r->0@[i]@).len() <= buffer_size,
        valid_utf8(data@) && buffer_size >= 4 ==> r is Some,
        r is Some && valid_utf8(data@) ==> crate::text::concat_all(
            crate::occurrence::key_seq(r->0@),
        ) == decode_utf8(data@),
{
    let buf = data.as_slice();
    let n = buf.len();
    let mut chunks: Vec<String> = Vec::new();
    let mut pos: usize = 0;
    proof {
        assert(concat_bytes(chunks@) =~= data@.subrange(0, 0));
        assert(data@.subrange(0, 0) =~= Seq::<u8>::empty());
    }
    while pos < n
        invariant
            pos <= n,
            n == data@.len(),
            buf@ == data@,
            buffer_size >= 1,
            concat_bytes(chunks@) == data@.subrange(0, pos as int),
            forall|i: int|
                0 <= i < chunks@.len() ==> encode_utf8(#[trigger] chunks@[i]@).len()
                    <= buffer_size,
            valid_utf8(data@) ==> valid_utf8(data@.subrange(0, pos as int)),
        decreases n - pos,
    {
        let end = if n - pos < buffer_size {
            n
        } else {
            pos + buffer_size
        };
        let p = utf8_window_prefix(buf, pos, end);
        if p == pos {
            proof {
                if valid_utf8(data@) && buffer_size >= 4 {
                    lemma_window_scan_max(data@, end as int, p as int);
                    assert(false);
                }
            }
            return None;
        }
        let chunk = decode_range_to_string(buf, pos, p);
        proof {
            let seg = data@.subrange(pos as int, p as int);
            decode_utf8_encode_utf8(seg);
            assert(chunk@ == decode_utf8(seg));
            assert(encode_utf8(chunk@) == seg);
            assert(concat_bytes(chunks@.push(chunk)) == concat_bytes(chunks@) + encode_utf8(
                chunk@,
            )) by {
                assert(chunks@.push(chunk).drop_last() =~= chunks@);
            }
            assert(data@.subrange(0, pos as int) + seg =~= data@.subrange(0, p as int));
            if valid_utf8(data@) {
                valid_utf8_concat(data@.subrange(0, pos as int), seg);
            }
        }
        chunks.push(chunk);
        pos = p;
    }
    proof {
        assert(data@.subrange(0, n as int) =~= data@);
        if valid_utf8(data@) {
            lemma_concat_bytes_encodes(chunks@);
            let joined = crate::text::concat_all(crate::occurrence::key_seq(chunks@));
            assert(encode_utf8(joined) == data@);
            encode_utf8_decode_utf8(joined);
            assert(decode_utf8(data@) == joined);
        }
    }
    Some(chunks)
}

} // verus!
