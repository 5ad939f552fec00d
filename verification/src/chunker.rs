//! Line chunker: splits text into tokenizer-safe pieces.
//!
//! Tokenizers impose a hard maximum input length in bytes. The chunker
//! accumulates whole characters greedily until the next character would
//! exceed the byte budget, then starts a new chunk, so no chunk ever
//! exceeds the budget and none ends with a partial multi-byte character.

use crate::occurrence::key_seq;
use crate::text::concat_all;
use crate::text::push_char;
use crate::text::str_to_chars;
use vstd::prelude::*;
use vstd::utf8::char_is_scalar;
use vstd::utf8::encode_scalar;
use vstd::utf8::encode_utf8;

verus! {

/// The byte length of one character's UTF-8 encoding.
fn char_utf8_len(c: char) -> (n: usize)
    ensures
        n == encode_scalar(c as u32).len(),
        1 <= n <= 4,
{
    let u = c as u32;
    proof {
        char_is_scalar(c);
    }
    if u <= 0x7f {
        1
    } else if u <= 0x7ff {
        2
    } else if u <= 0xffff {
        3
    } else {
        4
    }
}

/// Appending a character to a sequence appends that character's encoding
/// to the sequence's encoding.
proof fn lemma_encode_utf8_push(s: Seq<char>, c: char)
    ensures
        encode_utf8(s.push(c)) == encode_utf8(s) + encode_scalar(c as u32),
    decreases s.len(),
{
    if s.len() == 0 {
        assert(s.push(c)[0] == c);
        assert(s.push(c).drop_first() =~= Seq::<char>::empty());
        assert(encode_utf8(s.push(c)) == encode_scalar(c as u32) + encode_utf8(
            s.push(c).drop_first(),
        ));
        assert(encode_utf8(Seq::<char>::empty()) =~= Seq::<u8>::empty());
        assert(encode_utf8(s) =~= Seq::<u8>::empty());
        assert(encode_utf8(s.push(c)) =~= encode_utf8(s) + encode_scalar(c as u32));
    } else {
        lemma_encode_utf8_push(s.drop_first(), c);
        assert(s.push(c)[0] == s[0]);
        assert(s.push(c).drop_first() =~= s.drop_first().push(c));
        assert(encode_utf8(s.push(c)) =~= encode_utf8(s) + encode_scalar(c as u32));
    }
}

/// A non-empty character sequence has a non-empty encoding.
proof fn lemma_encode_utf8_nonempty(s: Seq<char>)
    ensures
        s.len() > 0 ==> encode_utf8(s).len() > 0,
{
    if s.len() > 0 {
        assert(encode_utf8(s) == encode_scalar(s[0] as u32) + encode_utf8(s.drop_first()));
    }
}

/// Splits a string into chunks of at most `chunk_size` bytes: characters
/// are accumulated greedily until the next one would exceed the budget,
/// then a new chunk begins. The chunks concatenate to exactly the input,
/// every chunk is non-empty, and none ends with a partial multi-byte
/// character (each chunk is a whole number of characters).
pub fn chunk_utf8_string(input_string: String, chunk_size: usize) -> (r: Vec<String>)
    requires
        chunk_size >= 4,
    ensures
        concat_all(key_seq(r@)) == input_string@,
        forall|i: int| 0 <= i < r@.len() ==> encode_utf8(#[trigger] r@[i]@).len() <= chunk_size,
        forall|i: int| 0 <= i < r@.len() ==> (#[trigger] r@[i]@).len() > 0,
{
    let ghost whole = input_string@;
    let chars = str_to_chars(input_string.as_str());
    let n = chars.len();
    let mut done: Vec<String> = Vec::new();
    let mut cur = String::new();
    let mut cur_len: usize = 0;
    proof {
        assert(concat_all(key_seq(done@)) =~= Seq::<char>::empty());
        assert(encode_utf8(cur@) =~= Seq::<u8>::empty());
        assert(whole.subrange(0, 0) =~= Seq::<char>::empty());
    }
    for i in 0..n
        invariant
            n == chars@.len(),
            chars@ == whole,
            chunk_size >= 4,
            cur_len == encode_utf8(cur@).len(),
            cur_len <= chunk_size,
            concat_all(key_seq(done@)) + cur@ == whole.subrange(0, i as int),
            forall|j: int|
                0 <= j < done@.len() ==> encode_utf8(#[trigger] done@[j]@).len() <= chunk_size,
            forall|j: int| 0 <= j < done@.len() ==> (#[trigger] done@[j]@).len() > 0,
    {
        let c = chars[i];
        let clen = char_utf8_len(c);
        proof {
            lemma_encode_utf8_push(cur@, c);
            assert(whole.subrange(0, i + 1) =~= whole.subrange(0, i as int).push(c));
        }
        if clen <= chunk_size - cur_len {
            push_char(&mut cur, c);
            cur_len = cur_len + clen;
            proof {
                assert(concat_all(key_seq(done@)) + cur@ =~= whole.subrange(0, i + 1));
            }
        } else {
            proof {
                lemma_encode_utf8_nonempty(cur@);
                assert(cur@.len() > 0);
            }
            let ghost prev_done = done@;
            let ghost prev_cur = cur@;
            done.push(cur);
            cur = String::new();
            push_char(&mut cur, c);
            cur_len = clen;
            proof {
                assert(key_seq(done@).drop_last() =~= key_seq(prev_done));
                assert(key_seq(done@).last() == prev_cur);
                assert(concat_all(key_seq(done@)) == concat_all(key_seq(prev_done)) + prev_cur);
                assert(cur@ =~= Seq::<char>::empty().push(c));
                lemma_encode_utf8_push(Seq::<char>::empty(), c);
                assert(encode_utf8(Seq::<char>::empty()) =~= Seq::<u8>::empty());
                assert(encode_utf8(cur@) =~= encode_scalar(c as u32));
                assert(concat_all(key_seq(done@)) + cur@ =~= whole.subrange(0, i + 1));
            }
        }
    }
    proof {
        assert(whole.subrange(0, n as int) =~= whole);
    }
    if cur.as_str().unicode_len() > 0 {
        let ghost prev_done = done@;
        let ghost prev_cur = cur@;
        done.push(cur);
        proof {
            assert(key_seq(done@).drop_last() =~= key_seq(prev_done));
            assert(key_seq(done@).last() == prev_cur);
            assert(concat_all(key_seq(done@)) == concat_all(key_seq(prev_done)) + prev_cur);
        }
    } else {
        proof {
            assert(cur@ =~= Seq::<char>::empty());
            assert(concat_all(key_seq(done@)) =~= whole);
        }
    }
    done
}

/// Joins lines with a newline separator between consecutive lines.
pub open spec fn join_lines(ss: Seq<Seq<char>>) -> Seq<char>
    decreases ss.len(),
{
    if ss.len() == 0 {
        Seq::empty()
    } else if ss.len() == 1 {
        ss.last()
    } else {
        join_lines(ss.drop_last()) + seq!['\n'] + ss.last()
    }
}

/// Splits text on newline characters, exactly as the newline-joined
/// inverse: the segments contain no newline and joining them with
/// newlines restores the input. Empty segments are kept, so the segment
/// count is always one more than the newline count.
pub fn split_lines(text: &str) -> (r: Vec<String>)
    ensures
        r@.len() >= 1,
        join_lines(key_seq(r@)) == text@,
        forall|i: int| 0 <= i < r@.len() ==> !(#[trigger] r@[i]@).contains('\n'),
{
    let ghost whole = text@;
    let chars = str_to_chars(text);
    let n = chars.len();
    let mut segs: Vec<String> = Vec::new();
    let mut cur = String::new();
    proof {
        assert(whole.subrange(0, 0) =~= Seq::<char>::empty());
    }
    for i in 0..n
        invariant
            n == chars@.len(),
            chars@ == whole,
            join_lines(key_seq(segs@).push(cur@)) == whole.subrange(0, i as int),
            !cur@.contains('\n'),
            forall|j: int| 0 <= j < segs@.len() ==> !(#[trigger] segs@[j]@).contains('\n'),
    {
        let c = chars[i];
        proof {
            assert(whole.subrange(0, i + 1) =~= whole.subrange(0, i as int).push(c));
        }
        if c == '\n' {
            let ghost prev_segs = segs@;
            let ghost prev_cur = cur@;
            segs.push(cur);
            cur = String::new();
            proof {
                let old_list = key_seq(prev_segs).push(prev_cur);
                let new_list = key_seq(segs@).push(cur@);
                assert(key_seq(segs@) =~= old_list);
                assert(cur@ =~= Seq::<char>::empty());
                assert(new_list.drop_last() =~= old_list);
                assert(join_lines(new_list) == join_lines(old_list) + seq!['\n'] + cur@);
                assert(join_lines(new_list) =~= whole.subrange(0, i + 1));
            }
        } else {
            let ghost prev_cur = cur@;
            push_char(&mut cur, c);
            proof {
                let old_list = key_seq(segs@).push(prev_cur);
                let new_list = key_seq(segs@).push(cur@);
                lemma_join_lines_push_char(key_seq(segs@), prev_cur, c);
                assert(join_lines(new_list) =~= whole.subrange(0, i + 1));
                assert forall|j: int| 0 <= j < cur@.len() implies cur@[j] != '\n' by {
                    if j < prev_cur.len() {
                        assert(!prev_cur.contains(cur@[j]) || prev_cur[j] == cur@[j]);
                        assert(prev_cur[j] == cur@[j]);
                        if cur@[j] == '\n' {
                            assert(prev_cur.contains('\n'));
                        }
                    }
                }
                if cur@.contains('\n') {
                    let j = choose|j: int| 0 <= j < cur@.len() && cur@[j] == '\n';
                }
            }
        }
    }
    proof {
        assert(whole.subrange(0, n as int) =~= whole);
    }
    let ghost prev_segs = segs@;
    let ghost prev_cur = cur@;
    segs.push(cur);
    proof {
        assert(key_seq(segs@) =~= key_seq(prev_segs).push(prev_cur));
    }
    segs
}

/// Appending a character to the open segment appends it to the join.
proof fn lemma_join_lines_push_char(done: Seq<Seq<char>>, cur: Seq<char>, c: char)
    ensures
        join_lines(done.push(cur.push(c))) == join_lines(done.push(cur)).push(c),
{
    let with_old = done.push(cur);
    let with_new = done.push(cur.push(c));
    assert(with_new.drop_last() =~= done);
    assert(with_old.drop_last() =~= done);
    if done.len() == 0 {
        assert(join_lines(with_new) == cur.push(c));
        assert(join_lines(with_old) == cur);
        assert(cur.push(c) =~= cur.push(c));
    } else {
        assert(join_lines(with_new) == join_lines(done) + seq!['\n'] + cur.push(c));
        assert(join_lines(with_old) == join_lines(done) + seq!['\n'] + cur);
        assert(join_lines(done) + seq!['\n'] + cur.push(c) =~= (join_lines(done) + seq!['\n']
            + cur).push(c));
    }
}

} // verus!
