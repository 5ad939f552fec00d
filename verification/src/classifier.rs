//! Unicode range classifier: decides whether a codepoint is a kanji, or
//! belongs to the Japanese scripts, by a fixed table of inclusive ranges.

use vstd::prelude::*;

verus! {

/// A codepoint is a kanji when it falls in one of the CJK ideograph blocks
/// (unified ideographs, the extensions A through H, and the compatibility
/// ideographs).
pub open spec fn is_kanji(codepoint: u32) -> bool {
    ||| 0x4E00 <= codepoint <= 0x9FFF
    ||| 0x3400 <= codepoint <= 0x4DBF
    ||| 0x20000 <= codepoint <= 0x2A6DF
    ||| 0x2A700 <= codepoint <= 0x2B73F
    ||| 0x2B740 <= codepoint <= 0x2B81F
    ||| 0x2B820 <= codepoint <= 0x2CEAF
    ||| 0x2CEB0 <= codepoint <= 0x2EBEF
    ||| 0x30000 <= codepoint <= 0x3134F
    ||| 0x31350 <= codepoint <= 0x323AF
    ||| 0xF900 <= codepoint <= 0xFAFF
}

/// A codepoint is Japanese when it is a kanji or belongs to the kana blocks:
/// hiragana and katakana (punctuation excluded), half-width katakana, the
/// Small Kana Extension, Kana Extended-A and the Kana Supplement.
pub open spec fn is_japanese(codepoint: u32) -> bool {
    ||| is_kanji(codepoint)
    ||| 0x3040 <= codepoint <= 0x3096
    ||| codepoint == 0x309F
    ||| 0x30A1 <= codepoint <= 0x30FA
    ||| 0xFF66 <= codepoint <= 0xFF9D
    ||| 0x1B130 <= codepoint <= 0x1B16F
    ||| 0x1B100 <= codepoint <= 0x1B122
    ||| 0x1B000 <= codepoint <= 0x1B0FF
}

/// True when the word contains at least one Japanese character.
pub open spec fn word_has_japanese(w: Seq<char>) -> bool {
    exists|i: int| 0 <= i < w.len() && is_japanese(#[trigger] w[i] as u32)
}

/// The subsequence of Japanese characters.
pub open spec fn japanese_filter(s: Seq<char>) -> Seq<char> {
    s.filter(|c: char| is_japanese(c as u32))
}

/// The subsequence of kanji characters.
pub open spec fn kanji_filter(s: Seq<char>) -> Seq<char> {
    s.filter(|c: char| is_kanji(c as u32))
}

/// The subsequence of words that contain at least one Japanese character.
pub open spec fn japanese_word_filter(s: Seq<String>) -> Seq<String> {
    s.filter(|w: String| word_has_japanese(w@))
}

/// The subsequence of word views that contain at least one Japanese
/// character.
pub open spec fn japanese_view_filter(s: Seq<Seq<char>>) -> Seq<Seq<char>> {
    s.filter(|w: Seq<char>| word_has_japanese(w))
}

/// Decides membership in the kanji codepoint ranges.
pub fn check_if_kanji(codepoint: u32) -> (r: bool)
    ensures
        r == is_kanji(codepoint),
{
    codepoint >= 0x4E00 && codepoint <= 0x9FFF || codepoint >= 0x3400 && codepoint <= 0x4DBF
        || codepoint >= 0x20000 && codepoint <= 0x2A6DF || codepoint >= 0x2A700 && codepoint
        <= 0x2B73F || codepoint >= 0x2B740 && codepoint <= 0x2B81F || codepoint >= 0x2B820
        && codepoint <= 0x2CEAF || codepoint >= 0x2CEB0 && codepoint <= 0x2EBEF || codepoint
        >= 0x30000 && codepoint <= 0x3134F || codepoint >= 0x31350 && codepoint <= 0x323AF
        || codepoint >= 0xF900 && codepoint <= 0xFAFF
}

/// Decides membership in the Japanese script codepoint ranges, a superset of
/// the kanji ranges.
pub fn check_if_japanese(codepoint: u32) -> (r: bool)
    ensures
        r == is_japanese(codepoint),
{
    check_if_kanji(codepoint) || codepoint >= 0x3040 && codepoint <= 0x3096 || codepoint == 0x309F
        || codepoint >= 0x30A1 && codepoint <= 0x30FA || codepoint >= 0xFF66 && codepoint <= 0xFF9D
        || codepoint >= 0x1B130 && codepoint <= 0x1B16F || codepoint >= 0x1B100 && codepoint
        <= 0x1B122 || codepoint >= 0x1B000 && codepoint <= 0x1B0FF
}

/// Keeps exactly the characters that belong to the Japanese scripts, in order.
pub fn filter_non_japanese(chars: &Vec<char>) -> (r: Vec<char>)
    ensures
        r@ == japanese_filter(chars@),
{
    let mut r: Vec<char> = Vec::new();
    proof {
        reveal(Seq::filter);
        assert(chars@.subrange(0, 0) =~= Seq::<char>::empty());
    }
    for i in 0..chars.len()
        invariant
            r@ == chars@.subrange(0, i as int).filter(|c: char| is_japanese(c as u32)),
    {
        let c = chars[i];
        if check_if_japanese(c as u32) {
            r.push(c);
        }
        proof {
            reveal(Seq::filter);
            assert(chars@.subrange(0, i + 1).drop_last() =~= chars@.subrange(0, i as int));
            assert(chars@.subrange(0, i + 1).last() == chars@[i as int]);
        }
    }
    proof {
        assert(chars@.subrange(0, chars@.len() as int) =~= chars@);
    }
    r
}

/// Keeps exactly the kanji characters, in order.
pub fn filter_non_kanji(chars: &Vec<char>) -> (r: Vec<char>)
    ensures
        r@ == kanji_filter(chars@),
{
    let mut r: Vec<char> = Vec::new();
    proof {
        reveal(Seq::filter);
        assert(chars@.subrange(0, 0) =~= Seq::<char>::empty());
    }
    for i in 0..chars.len()
        invariant
            r@ == chars@.subrange(0, i as int).filter(|c: char| is_kanji(c as u32)),
    {
        let c = chars[i];
        if check_if_kanji(c as u32) {
            r.push(c);
        }
        proof {
            reveal(Seq::filter);
            assert(chars@.subrange(0, i + 1).drop_last() =~= chars@.subrange(0, i as int));
            assert(chars@.subrange(0, i + 1).last() == chars@[i as int]);
        }
    }
    proof {
        assert(chars@.subrange(0, chars@.len() as int) =~= chars@);
    }
    r
}

/// True when the string contains at least one Japanese character.
pub fn contains_japanese(word: &String) -> (r: bool)
    ensures
        r == word_has_japanese(word@),
{
    let n = word.as_str().unicode_len();
    for i in 0..n
        invariant
            n == word@.len(),
            forall|j: int| 0 <= j < i ==> !is_japanese(#[trigger] word@[j] as u32),
    {
        let c = word.as_str().get_char(i);
        if check_if_japanese(c as u32) {
            return true;
        }
    }
    false
}

/// Keeps exactly the words that contain at least one Japanese character,
/// in order.
pub fn filter_blacklisted(words: &Vec<String>) -> (r: Vec<String>)
    ensures
        r@ == japanese_word_filter(words@),
{
    let mut r: Vec<String> = Vec::new();
    proof {
        reveal(Seq::filter);
        assert(words@.subrange(0, 0) =~= Seq::<String>::empty());
    }
    for i in 0..words.len()
        invariant
            r@ == words@.subrange(0, i as int).filter(|w: String| word_has_japanese(w@)),
    {
        let w = &words[i];
        if contains_japanese(w) {
            r.push(w.clone());
        }
        proof {
            reveal(Seq::filter);
            assert(words@.subrange(0, i + 1).drop_last() =~= words@.subrange(0, i as int));
            assert(words@.subrange(0, i + 1).last() == words@[i as int]);
        }
    }
    proof {
        assert(words@.subrange(0, words@.len() as int) =~= words@);
    }
    r
}

} // verus!
