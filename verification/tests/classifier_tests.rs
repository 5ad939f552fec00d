use japanese_text_analyzer::classifier::check_if_japanese;
use japanese_text_analyzer::classifier::check_if_kanji;
use japanese_text_analyzer::classifier::filter_blacklisted;
use japanese_text_analyzer::classifier::filter_non_japanese;
use japanese_text_analyzer::classifier::filter_non_kanji;
use japanese_text_analyzer::report::get_fancy_percentage;

#[test]
fn kanji_ranges_flip_exactly_at_their_boundaries() {
    let ranges: [(u32, u32); 10] = [
        (0x4E00, 0x9FFF),
        (0x3400, 0x4DBF),
        (0x20000, 0x2A6DF),
        (0x2A700, 0x2B73F),
        (0x2B740, 0x2B81F),
        (0x2B820, 0x2CEAF),
        (0x2CEB0, 0x2EBEF),
        (0x30000, 0x3134F),
        (0x31350, 0x323AF),
        (0xF900, 0xFAFF),
    ];
    for (lo, hi) in ranges {
        assert!(check_if_kanji(lo), "{lo:#x} should be kanji");
        assert!(check_if_kanji(hi), "{hi:#x} should be kanji");
        if !ranges.iter().any(|r| r.0 <= lo - 1 && lo - 1 <= r.1) {
            assert!(!check_if_kanji(lo - 1), "{:#x} should not be kanji", lo - 1);
        }
        if !ranges.iter().any(|r| r.0 <= hi + 1 && hi + 1 <= r.1) {
            assert!(!check_if_kanji(hi + 1), "{:#x} should not be kanji", hi + 1);
        }
    }
    assert!(check_if_kanji(0x4DBF));
    assert!(!check_if_kanji(0x4DC0));
}

#[test]
fn japanese_ranges_flip_exactly_at_their_boundaries() {
    // Hiragana
    assert!(!check_if_japanese(0x303F));
    assert!(check_if_japanese(0x3040));
    assert!(check_if_japanese(0x3096));
    assert!(!check_if_japanese(0x3097));
    assert!(!check_if_japanese(0x309E));
    assert!(check_if_japanese(0x309F));
    assert!(!check_if_japanese(0x30A0));
    // Katakana
    assert!(check_if_japanese(0x30A1));
    assert!(check_if_japanese(0x30FA));
    assert!(!check_if_japanese(0x30FB));
    // Half-width katakana
    assert!(!check_if_japanese(0xFF65));
    assert!(check_if_japanese(0xFF66));
    assert!(check_if_japanese(0xFF9D));
    assert!(!check_if_japanese(0xFF9E));
    // Small Kana Extension
    assert!(check_if_japanese(0x1B130));
    assert!(check_if_japanese(0x1B16F));
    assert!(!check_if_japanese(0x1B170));
    // Kana Extended-A
    assert!(check_if_japanese(0x1B100));
    assert!(check_if_japanese(0x1B122));
    assert!(!check_if_japanese(0x1B123));
    // Kana Supplement sits directly below Kana Extended-A
    assert!(check_if_japanese(0x1B000));
    assert!(check_if_japanese(0x1B0FF));
    assert!(!check_if_japanese(0x1AFFF));
    // Kanji are Japanese
    assert!(check_if_japanese(0x4E00));
}

#[test]
fn filters_keep_only_matching_characters() {
    let chars: Vec<char> = "a医bんcカd3".chars().collect();
    let japanese = filter_non_japanese(&chars);
    assert_eq!(japanese, vec!['医', 'ん', 'カ']);
    let kanji = filter_non_kanji(&chars);
    assert_eq!(kanji, vec!['医']);
}

#[test]
fn blacklist_drops_words_without_japanese() {
    let input: Vec<String> =
        ["医薬品", "abc", "テレビ塔", "123", "さっぽろ"].iter().map(|s| s.to_string()).collect();
    let kept = filter_blacklisted(&input);
    assert_eq!(
        kept,
        vec!["医薬品".to_string(), "テレビ塔".to_string(), "さっぽろ".to_string()]
    );
}

#[test]
fn percentage_renders_two_decimals() {
    assert_eq!(get_fancy_percentage(100, 25), "25.00%");
    assert_eq!(get_fancy_percentage(4, 1), "25.00%");
    assert_eq!(get_fancy_percentage(3, 1), "33.33%");
    assert_eq!(get_fancy_percentage(3, 2), "66.67%");
    assert_eq!(get_fancy_percentage(8, 1), "12.50%");
    assert_eq!(get_fancy_percentage(200, 1), "0.50%");
    assert_eq!(get_fancy_percentage(2, 3), "150.00%");
}

#[test]
fn percentage_of_zero_base_is_not_nan() {
    let rendered = get_fancy_percentage(0, 0);
    assert_eq!(rendered, "0.00%");
    assert_ne!(rendered, "NaN%");
    assert_eq!(get_fancy_percentage(0, 7), "0.00%");
}
