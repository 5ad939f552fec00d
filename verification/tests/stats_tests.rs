use japanese_text_analyzer::stats::bounded_min;
use japanese_text_analyzer::stats::get_stats;
use japanese_text_analyzer::stats::AnalysisStats;
use japanese_text_analyzer::stats::LengthStatistic;

fn lines(items: &[&str]) -> Vec<String> {
    items.iter().map(|s| s.to_string()).collect()
}

#[test]
fn length_statistics_merge_as_weighted_averages() {
    // One batch averaging 10 over 2 lines, one averaging 20 over 3 lines:
    // the merge averages 16 over 5 lines.
    let a = LengthStatistic { count: 2, total_length: 20, shortest: 8, longest: 12 };
    let b = LengthStatistic { count: 3, total_length: 60, shortest: 15, longest: 25 };
    let merged = a.combine(b);
    assert_eq!(merged.count, 5);
    assert_eq!(merged.total_length, 80);
    assert_eq!(merged.total_length as f64 / merged.count as f64, 16.0);
    assert_eq!(merged.shortest, 8);
    assert_eq!(merged.longest, 25);
}

#[test]
fn bounded_min_guards_degenerate_samples() {
    assert_eq!(bounded_min(0, 5, 1), 5);
    assert_eq!(bounded_min(5, 0, 1), 5);
    assert_eq!(bounded_min(0, 0, 1), 0);
    assert_eq!(bounded_min(3, 5, 1), 3);
    assert_eq!(bounded_min(u64::MAX, 7, 1), 7);
}

#[test]
fn empty_batches_do_not_pollute_the_shortest_length() {
    let real = LengthStatistic { count: 4, total_length: 40, shortest: 6, longest: 14 };
    let empty = LengthStatistic { count: 0, total_length: 0, shortest: 0, longest: 0 };
    let merged = real.combine(empty);
    assert_eq!(merged.shortest, 6);
    assert_eq!(merged.longest, 14);
    assert_eq!(merged.count, 4);
}

#[test]
fn batch_statistics_count_characters_words_and_lengths() {
    let batch_lines = lines(&["医薬品安全管理責任者", "さっぽろテレビ塔"]);
    let surfaces = lines(&["医薬品", "安全", "管理", "責任者", "さっぽろ", "テレビ塔", "abc"]);
    let stats = get_stats(batch_lines, surfaces, 2, 1);
    // "abc" holds no Japanese character and is filtered out.
    assert_eq!(stats.word_count, 6);
    assert_eq!(stats.word_list_raw.len(), 6);
    assert_eq!(stats.unique_words.len(), 6);
    // 10 kanji + 4 hiragana + 4 katakana (テレビ塔 = 3 katakana + 1 kanji).
    assert_eq!(stats.char_count, 18);
    assert_eq!(stats.kanji_count, 11);
    assert_eq!(stats.unique_kanji.len(), 11);
    assert_eq!(stats.kanji_occurrence_list.count_of(&'安'), 1);
    assert_eq!(stats.word_occurrence_list.count_of(&"安全".to_string()), 1);
    assert_eq!(stats.volume_count, 1);
    assert_eq!(stats.page_count, 2);
    assert_eq!(stats.box_length.count, 2);
    assert_eq!(stats.box_length.total_length, 18);
    assert_eq!(stats.box_length.shortest, 8);
    assert_eq!(stats.box_length.longest, 10);
}

#[test]
fn fixture_transcript_statistics() {
    // A small transcript and the surfaces a dictionary-based tokenizer
    // yields for it; the tokenizer itself is an external collaborator, so
    // its output enters here as plain data.
    let batch_lines = lines(&[
        "医薬品安全管理責任者",
        "消費者安全調査委員会",
        "さっぽろテレビ塔",
        "カンヌ国際映画祭",
    ]);
    let surfaces = lines(&[
        "医薬品", "安全", "管理", "責任者", "消費者", "安全", "調査", "委員会", "さっぽろ",
        "テレビ塔", "カンヌ", "国際", "映画祭",
    ]);
    let stats = get_stats(batch_lines, surfaces, 4, 1);
    assert_eq!(stats.word_count, 13);
    assert_eq!(stats.unique_words.len(), 12);
    assert_eq!(stats.word_occurrence_list.count_of(&"安全".to_string()), 2);
    assert_eq!(stats.word_occurrence_list.count_of(&"映画祭".to_string()), 1);
    assert_eq!(stats.char_count, 36);
    assert_eq!(stats.kanji_count, 26);
    assert_eq!(stats.unique_kanji.len(), 23);
    assert_eq!(stats.box_length.count, 4);
    assert_eq!(stats.box_length.total_length, 36);
    assert_eq!(stats.box_length.shortest, 8);
    assert_eq!(stats.box_length.longest, 10);
}

#[test]
fn repeated_surfaces_accumulate_in_one_batch() {
    let surfaces = lines(&["安全", "安全", "調査"]);
    let stats = get_stats(lines(&["安全安全調査"]), surfaces, 1, 1);
    assert_eq!(stats.word_count, 3);
    assert_eq!(stats.unique_words.len(), 2);
    assert_eq!(stats.word_occurrence_list.count_of(&"安全".to_string()), 2);
    assert_eq!(stats.kanji_occurrence_list.count_of(&'安'), 2);
    assert_eq!(stats.kanji_count, 6);
    assert_eq!(stats.unique_kanji.len(), 4);
}

#[test]
fn combine_adds_counts_and_unites_sets() {
    let a = get_stats(lines(&["安全調査"]), lines(&["安全", "調査"]), 2, 1);
    let b = get_stats(lines(&["安全映画"]), lines(&["安全", "映画"]), 2, 1);
    let merged = a.combine(b);
    assert_eq!(merged.word_count, 4);
    assert_eq!(merged.char_count, 8);
    assert_eq!(merged.kanji_count, 8);
    assert_eq!(merged.unique_words.len(), 3);
    assert_eq!(merged.unique_kanji.len(), 6);
    assert_eq!(merged.word_occurrence_list.count_of(&"安全".to_string()), 2);
    assert_eq!(merged.kanji_occurrence_list.count_of(&'安'), 2);
    assert_eq!(merged.kanji_occurrence_list.count_of(&'映'), 1);
    assert_eq!(merged.box_length.count, 2);
    assert_eq!(merged.word_list_raw.len(), 0);
    assert_eq!(merged.volume_count, 1);
    assert_eq!(merged.page_count, 2);
}

#[test]
fn combine_is_commutative_on_merged_fields() {
    let make_a = || get_stats(lines(&["安全調査"]), lines(&["安全", "調査"]), 2, 1);
    let make_b = || get_stats(lines(&["安全映画"]), lines(&["安全", "映画"]), 2, 1);
    let ab = make_a().combine(make_b());
    let ba = make_b().combine(make_a());
    assert_eq!(ab.char_count, ba.char_count);
    assert_eq!(ab.kanji_count, ba.kanji_count);
    assert_eq!(ab.word_count, ba.word_count);
    assert_eq!(ab.unique_words.len(), ba.unique_words.len());
    assert_eq!(ab.unique_kanji.len(), ba.unique_kanji.len());
    assert_eq!(ab.box_length, ba.box_length);
    for key in ["安全", "調査", "映画"] {
        assert_eq!(
            ab.word_occurrence_list.count_of(&key.to_string()),
            ba.word_occurrence_list.count_of(&key.to_string())
        );
    }
}

#[test]
fn combine_is_associative_on_merged_fields() {
    let make = |word: &str, n: usize, d: usize| {
        get_stats(lines(&[word]), lines(&[word]), n, d)
    };
    let abc = make("安全", 3, 1).combine(make("調査", 3, 1)).combine(make("安全", 3, 1));
    let a_bc = make("安全", 3, 1).combine(make("調査", 3, 1).combine(make("安全", 3, 1)));
    assert_eq!(abc.word_count, a_bc.word_count);
    assert_eq!(abc.kanji_count, a_bc.kanji_count);
    assert_eq!(abc.unique_words.len(), a_bc.unique_words.len());
    assert_eq!(
        abc.word_occurrence_list.count_of(&"安全".to_string()),
        a_bc.word_occurrence_list.count_of(&"安全".to_string())
    );
    assert_eq!(abc.box_length, a_bc.box_length);
}

#[test]
fn the_default_is_a_neutral_starting_point() {
    let start = AnalysisStats::default();
    assert_eq!(start.char_count, 0);
    assert_eq!(start.word_count, 0);
    assert_eq!(start.box_length.shortest, u64::MAX);
    let batch = get_stats(lines(&["安全調査"]), lines(&["安全", "調査"]), 1, 1);
    let merged = start.combine(batch);
    assert_eq!(merged.word_count, 2);
    assert_eq!(merged.char_count, 4);
    assert_eq!(merged.box_length.shortest, 4);
    assert_eq!(merged.box_length.longest, 4);
    assert_eq!(merged.volume_count, 1);
}

#[test]
fn empty_batches_contribute_nothing() {
    let empty = get_stats(Vec::new(), Vec::new(), 2, 1);
    assert_eq!(empty.char_count, 0);
    assert_eq!(empty.word_count, 0);
    assert_eq!(empty.box_length.count, 0);
    assert_eq!(empty.box_length.shortest, 0);
    let real = get_stats(lines(&["安全"]), lines(&["安全"]), 2, 1);
    let merged = real.combine(empty);
    assert_eq!(merged.char_count, 2);
    assert_eq!(merged.box_length.shortest, 2);
}
