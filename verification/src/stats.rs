//! Statistics aggregator: per-batch analysis statistics and their
//! order-independent merge.
//!
//! Statistics are computed once per file or bounded chunk of lines (a
//! "partial") and folded pairwise into a running total. The merge is
//! associative and commutative on every count, set and map field, so
//! partials may be combined in any order (including as a parallel
//! reduction). The replicated file and directory totals are the one
//! exception: they are computed globally before any batch runs, replicated
//! into every partial, and the merge simply keeps them.

use crate::classifier::filter_blacklisted;
use crate::classifier::filter_non_japanese;
use crate::classifier::filter_non_kanji;
use crate::classifier::japanese_filter;
use crate::classifier::japanese_view_filter;
use crate::classifier::japanese_word_filter;
use crate::classifier::kanji_filter;
use crate::classifier::word_has_japanese;
use crate::occurrence::OccurrenceMap;
use crate::occurrence::SymbolSet;
use crate::occurrence::generate_occurrence_list;
use crate::occurrence::key_seq;
use crate::occurrence::merge;
use crate::occurrence::merged_occ;
use crate::occurrence::lemma_merged_occ_commutative;
use crate::occurrence::lemma_merged_occ_associative;
use crate::occurrence::occ;
use crate::text::concat_all;
use crate::text::str_to_chars;
use vstd::prelude::*;

verus! {

/// Sum of the lengths of the given lines, in characters.
pub open spec fn sum_lens(ss: Seq<Seq<char>>) -> int
    decreases ss.len(),
{
    if ss.len() == 0 {
        0
    } else {
        sum_lens(ss.drop_last()) + ss.last().len()
    }
}

/// Shortest line length, in characters (0 when there are no lines).
pub open spec fn min_len(ss: Seq<Seq<char>>) -> int
    decreases ss.len(),
{
    if ss.len() == 0 {
        0
    } else if ss.len() == 1 {
        ss.last().len() as int
    } else {
        let m = min_len(ss.drop_last());
        if ss.last().len() < m {
            ss.last().len() as int
        } else {
            m
        }
    }
}

/// Longest line length, in characters (0 when there are no lines).
pub open spec fn max_len(ss: Seq<Seq<char>>) -> int
    decreases ss.len(),
{
    if ss.len() == 0 {
        0
    } else {
        let m = max_len(ss.drop_last());
        if ss.last().len() > m {
            ss.last().len() as int
        } else {
            m
        }
    }
}

/// The guarded minimum used for shortest-length statistics: a value below
/// `floor` marks a degenerate (empty) sample and must not pollute the
/// result. When only one side is degenerate the other side wins; when both
/// are degenerate the larger one is kept; otherwise the plain minimum.
pub open spec fn spec_bounded_min(a: int, b: int, floor: int) -> int {
    if a < floor && b < floor {
        if a >= b {
            a
        } else {
            b
        }
    } else if a < floor {
        b
    } else if b < floor {
        a
    } else if a <= b {
        a
    } else {
        b
    }
}

/// The guarded minimum of two lengths; see [`spec_bounded_min`].
pub fn bounded_min(a: u64, b: u64, floor: u64) -> (r: u64)
    ensures
        r == spec_bounded_min(a as int, b as int, floor as int),
{
    if a < floor && b < floor {
        if a >= b {
            a
        } else {
            b
        }
    } else if a < floor {
        b
    } else if b < floor {
        a
    } else if a <= b {
        a
    } else {
        b
    }
}

/// Distribution of line lengths in one batch: the number of lines, their
/// total length in characters, and the shortest and longest line length.
/// The average length is `total_length / count`; keeping the total instead
/// of the average makes the merge exact and reconstructible.
#[derive(Clone, Copy, PartialEq, Eq, Structural, Debug)]
pub struct LengthStatistic {
    pub count: u64,
    pub total_length: u64,
    pub shortest: u64,
    pub longest: u64,
}

impl LengthStatistic {
    /// The weighted merge of two length distributions: counts and totals
    /// add (so the merged average is the weighted average), the longest is
    /// the maximum, and the shortest is the guarded minimum with floor 1,
    /// so an empty batch cannot pollute the shortest-line statistic.
    pub fn combine(self, other: LengthStatistic) -> (r: LengthStatistic)
        requires
            self.count + other.count <= u64::MAX,
            self.total_length + other.total_length <= u64::MAX,
        ensures
            r.count == self.count + other.count,
            r.total_length == self.total_length + other.total_length,
            r.shortest == spec_bounded_min(self.shortest as int, other.shortest as int, 1),
            r.longest == if self.longest >= other.longest {
                self.longest
            } else {
                other.longest
            },
    {
        LengthStatistic {
            count: self.count + other.count,
            total_length: self.total_length + other.total_length,
            shortest: bounded_min(self.shortest, other.shortest, 1),
            longest: if self.longest >= other.longest {
                self.longest
            } else {
                other.longest
            },
        }
    }

    /// Measures the line-length distribution of one batch of lines.
    pub fn from_lines(lines: &Vec<String>) -> (r: LengthStatistic)
        requires
            sum_lens(key_seq(lines@)) <= u64::MAX,
        ensures
            r.count == lines@.len(),
            r.total_length == sum_lens(key_seq(lines@)),
            r.shortest == min_len(key_seq(lines@)),
            r.longest == max_len(key_seq(lines@)),
    {
        let ghost views = key_seq(lines@);
        let n = lines.len();
        let mut total: u64 = 0;
        let mut shortest: u64 = 0;
        let mut longest: u64 = 0;
        proof {
            assert(key_seq(lines@.subrange(0, 0)) =~= Seq::<Seq<char>>::empty());
        }
        for i in 0..n
            invariant
                n == lines@.len(),
                views == key_seq(lines@),
                sum_lens(views) <= u64::MAX,
                total == sum_lens(key_seq(lines@.subrange(0, i as int))),
                shortest == min_len(key_seq(lines@.subrange(0, i as int))),
                longest == max_len(key_seq(lines@.subrange(0, i as int))),
        {
            let len_i = lines[i].as_str().unicode_len();
            proof {
                let prev = key_seq(lines@.subrange(0, i as int));
                let cur = key_seq(lines@.subrange(0, i + 1));
                assert(cur.drop_last() =~= prev);
                assert(cur.last() == lines@[i as int]@);
                lemma_key_seq_prefix_sum(lines@, i as int);
                assert(key_seq(lines@.subrange(0, i + 1)) =~= views.subrange(0, i + 1));
                lemma_sum_lens_prefix_le(views, i + 1);
            }
            total = total + (len_i as u64);
            if i == 0 {
                shortest = len_i as u64;
                longest = len_i as u64;
            } else {
                if (len_i as u64) < shortest {
                    shortest = len_i as u64;
                }
                if (len_i as u64) > longest {
                    longest = len_i as u64;
                }
            }
        }
        proof {
            assert(lines@.subrange(0, n as int) =~= lines@);
        }
        LengthStatistic { count: n as u64, total_length: total, shortest, longest }
    }
}

/// Extending a prefix of lines by one line grows its length sum by that
/// line's length.
proof fn lemma_key_seq_prefix_sum(s: Seq<String>, i: int)
    requires
        0 <= i < s.len(),
    ensures
        sum_lens(key_seq(s.subrange(0, i + 1))) == sum_lens(key_seq(s.subrange(0, i)))
            + s[i]@.len(),
        key_seq(s.subrange(0, i + 1)) == key_seq(s.subrange(0, i)).push(s[i]@),
{
    let prev = key_seq(s.subrange(0, i));
    let cur = key_seq(s.subrange(0, i + 1));
    assert(cur.drop_last() =~= prev);
    assert(cur.last() == s[i]@);
    assert(cur =~= prev.push(s[i]@));
}

/// Partial length sums never exceed the full sum.
proof fn lemma_sum_lens_prefix_le(ss: Seq<Seq<char>>, n: int)
    requires
        0 <= n <= ss.len(),
    ensures
        0 <= sum_lens(ss.subrange(0, n)) <= sum_lens(ss),
    decreases ss.len() - n,
{
    lemma_sum_lens_nonneg(ss.subrange(0, n));
    if n == ss.len() {
        assert(ss.subrange(0, n) =~= ss);
    } else {
        lemma_sum_lens_prefix_le(ss, n + 1);
        assert(ss.subrange(0, n + 1).drop_last() =~= ss.subrange(0, n));
        assert(ss.subrange(0, n + 1).last() == ss[n]);
    }
}

/// Length sums are never negative.
proof fn lemma_sum_lens_nonneg(ss: Seq<Seq<char>>)
    ensures
        sum_lens(ss) >= 0,
    decreases ss.len(),
{
    if ss.len() > 0 {
        lemma_sum_lens_nonneg(ss.drop_last());
    }
}

/// The mathematical content of one batch's statistics: every field of
/// [`AnalysisStats`] that takes part in the order-independent merge.
pub ghost struct StatsModel {
    pub char_count: int,
    pub kanji_count: int,
    pub word_count: int,
    pub unique_kanji: Set<Seq<char>>,
    pub unique_words: Set<Seq<char>>,
    pub kanji_occurrences: Map<Seq<char>, int>,
    pub word_occurrences: Map<Seq<char>, int>,
    pub box_count: int,
    pub box_total: int,
    pub shortest_box: int,
    pub longest_box: int,
}

/// The model of combining two batches: counts add, sets unite, occurrence
/// maps merge by adding counts, the longest length is the maximum and the
/// shortest is the guarded minimum with floor 1.
pub open spec fn spec_combine(a: StatsModel, b: StatsModel) -> StatsModel {
    StatsModel {
        char_count: a.char_count + b.char_count,
        kanji_count: a.kanji_count + b.kanji_count,
        word_count: a.word_count + b.word_count,
        unique_kanji: a.unique_kanji.union(b.unique_kanji),
        unique_words: a.unique_words.union(b.unique_words),
        kanji_occurrences: merged_occ(a.kanji_occurrences, b.kanji_occurrences),
        word_occurrences: merged_occ(a.word_occurrences, b.word_occurrences),
        box_count: a.box_count + b.box_count,
        box_total: a.box_total + b.box_total,
        shortest_box: spec_bounded_min(a.shortest_box, b.shortest_box, 1),
        longest_box: if a.longest_box >= b.longest_box {
            a.longest_box
        } else {
            b.longest_box
        },
    }
}

/// Law: combining batch statistics is commutative on every merged field.
pub proof fn lemma_combine_commutative(a: StatsModel, b: StatsModel)
    ensures
        spec_combine(a, b) == spec_combine(b, a),
{
    assert(a.unique_kanji.union(b.unique_kanji) =~= b.unique_kanji.union(a.unique_kanji));
    assert(a.unique_words.union(b.unique_words) =~= b.unique_words.union(a.unique_words));
    lemma_merged_occ_commutative(a.kanji_occurrences, b.kanji_occurrences);
    lemma_merged_occ_commutative(a.word_occurrences, b.word_occurrences);
}

/// The model of the statistics computed from one batch: `lines` are the
/// batch's text lines and `words` the surfaces the tokenizer produced for
/// them, both as character sequences.
pub open spec fn spec_from_batch(lines: Seq<Seq<char>>, words: Seq<Seq<char>>) -> StatsModel {
    let all = concat_all(words);
    let jp = japanese_filter(all);
    let kj = kanji_filter(all);
    let fw = japanese_view_filter(words);
    StatsModel {
        char_count: jp.len() as int,
        kanji_count: kj.len() as int,
        word_count: fw.len() as int,
        unique_kanji: key_seq(kj).to_set(),
        unique_words: fw.to_set(),
        kanji_occurrences: Map::new(
            |k: Seq<char>| key_seq(kj).contains(k),
            |k: Seq<char>| occ(key_seq(kj), k),
        ),
        word_occurrences: Map::new(|k: Seq<char>| fw.contains(k), |k: Seq<char>| occ(fw, k)),
        box_count: lines.len() as int,
        box_total: sum_lens(lines),
        shortest_box: min_len(lines),
        longest_box: max_len(lines),
    }
}

/// The aggregate statistics of a batch or of a whole run: Japanese
/// character and kanji counts, the distinct kanji and word surfaces, the
/// two occurrence maps, the line-length distribution, and the replicated
/// file and directory totals. `word_list_raw` carries the batch's filtered
/// surfaces for the raw per-token output; merging empties it.
pub struct AnalysisStats {
    pub char_count: u64,
    pub kanji_count: u64,
    pub unique_kanji: SymbolSet<char>,
    pub word_count: u64,
    pub unique_words: SymbolSet<String>,
    pub volume_count: usize,
    pub page_count: usize,
    pub box_length: LengthStatistic,
    pub word_list_raw: Vec<String>,
    pub kanji_occurrence_list: OccurrenceMap<char>,
    pub word_occurrence_list: OccurrenceMap<String>,
}

impl AnalysisStats {
    /// The mathematical content of the merged fields.
    pub open spec fn model(&self) -> StatsModel {
        StatsModel {
            char_count: self.char_count as int,
            kanji_count: self.kanji_count as int,
            word_count: self.word_count as int,
            unique_kanji: self.unique_kanji.to_set(),
            unique_words: self.unique_words.to_set(),
            kanji_occurrences: self.kanji_occurrence_list.to_map(),
            word_occurrences: self.word_occurrence_list.to_map(),
            box_count: self.box_length.count as int,
            box_total: self.box_length.total_length as int,
            shortest_box: self.box_length.shortest as int,
            longest_box: self.box_length.longest as int,
        }
    }

    /// Well-formed: the sets and maps hold their invariants, the word count
    /// equals the sum of the word occurrence counts, the kanji count equals
    /// the sum of the kanji occurrence counts, and each unique-symbol set is
    /// exactly the key set of its occurrence map.
    pub open spec fn wf(&self) -> bool {
        &&& self.unique_kanji.wf()
        &&& self.unique_words.wf()
        &&& self.kanji_occurrence_list.wf()
        &&& self.word_occurrence_list.wf()
        &&& self.word_count == self.word_occurrence_list.total()
        &&& self.kanji_count == self.kanji_occurrence_list.total()
        &&& self.unique_words.to_set() == self.word_occurrence_list.to_map().dom()
        &&& self.unique_kanji.to_set() == self.kanji_occurrence_list.to_map().dom()
    }

    /// Pointwise merge of two batches' statistics: counts add, sets unite,
    /// occurrence maps merge by adding counts, and the length distribution
    /// merges by its weighted rule. The replicated file and directory
    /// totals are kept from `stats2` (they are the same in every partial of
    /// one run), and the raw word list is emptied.
    pub fn combine(self, stats2: AnalysisStats) -> (r: AnalysisStats)
        requires
            self.wf(),
            stats2.wf(),
            self.char_count + stats2.char_count <= u64::MAX,
            self.kanji_count + stats2.kanji_count <= u64::MAX,
            self.word_count + stats2.word_count <= u64::MAX,
            self.box_length.count + stats2.box_length.count <= u64::MAX,
            self.box_length.total_length + stats2.box_length.total_length <= u64::MAX,
        ensures
            r.wf(),
            r.model() == spec_combine(self.model(), stats2.model()),
            r.volume_count == stats2.volume_count,
            r.page_count == stats2.page_count,
            r.word_list_raw@.len() == 0,
    {
        let merged_words = merge(&self.word_occurrence_list, &stats2.word_occurrence_list);
        let merged_kanji = merge(&self.kanji_occurrence_list, &stats2.kanji_occurrence_list);
        let r = AnalysisStats {
            char_count: self.char_count + stats2.char_count,
            kanji_count: self.kanji_count + stats2.kanji_count,
            unique_kanji: self.unique_kanji.union(&stats2.unique_kanji),
            word_count: self.word_count + stats2.word_count,
            unique_words: self.unique_words.union(&stats2.unique_words),
            volume_count: stats2.volume_count,
            page_count: stats2.page_count,
            box_length: self.box_length.combine(stats2.box_length),
            word_list_raw: Vec::new(),
            kanji_occurrence_list: merged_kanji,
            word_occurrence_list: merged_words,
        };
        proof {
            assert(r.unique_words.to_set() =~= r.word_occurrence_list.to_map().dom());
            assert(r.unique_kanji.to_set() =~= r.kanji_occurrence_list.to_map().dom());
            assert(r.model().unique_kanji =~= spec_combine(self.model(), stats2.model()).unique_kanji);
            assert(r.model().unique_words =~= spec_combine(self.model(), stats2.model()).unique_words);
        }
        r
    }
}

impl Default for AnalysisStats {
    /// The neutral starting point of a run: all counts zero, empty sets and
    /// maps, and a degenerate length distribution whose `shortest` is
    /// `u64::MAX` so that the first real batch's shortest line wins.
    fn default() -> (r: AnalysisStats)
        ensures
            r.wf(),
            r.char_count == 0,
            r.kanji_count == 0,
            r.word_count == 0,
            r.volume_count == 0,
            r.page_count == 0,
            r.unique_kanji.to_set() == Set::<Seq<char>>::empty(),
            r.unique_words.to_set() == Set::<Seq<char>>::empty(),
            forall|k: Seq<char>| r.kanji_occurrence_list.count(k) == 0,
            forall|k: Seq<char>| r.word_occurrence_list.count(k) == 0,
            r.box_length == (LengthStatistic {
                count: 0,
                total_length: 0,
                shortest: u64::MAX,
                longest: 0,
            }),
            r.word_list_raw@.len() == 0,
    {
        let r = AnalysisStats {
            char_count: 0,
            kanji_count: 0,
            unique_kanji: SymbolSet::new(),
            word_count: 0,
            unique_words: SymbolSet::new(),
            volume_count: 0,
            page_count: 0,
            box_length: LengthStatistic { count: 0, total_length: 0, shortest: u64::MAX, longest: 0 },
            word_list_raw: Vec::new(),
            kanji_occurrence_list: OccurrenceMap::new(),
            word_occurrence_list: OccurrenceMap::new(),
        };
        proof {
            assert(r.unique_words.to_set() =~= r.word_occurrence_list.to_map().dom());
            assert(r.unique_kanji.to_set() =~= r.kanji_occurrence_list.to_map().dom());
        }
        r
    }
}

/// Filtering words for Japanese content and then taking their views is the
/// same as taking views first and filtering those.
proof fn lemma_key_seq_filter_japanese(s: Seq<String>)
    ensures
        key_seq(japanese_word_filter(s)) == japanese_view_filter(key_seq(s)),
    decreases s.len(),
{
    reveal(Seq::filter);
    if s.len() == 0 {
        assert(key_seq(japanese_word_filter(s)) =~= japanese_view_filter(key_seq(s)));
    } else {
        lemma_key_seq_filter_japanese(s.drop_last());
        assert(key_seq(s).drop_last() =~= key_seq(s.drop_last()));
        assert(key_seq(s).last() == s.last()@);
        if word_has_japanese(s.last()@) {
            assert(japanese_word_filter(s) == japanese_word_filter(s.drop_last()).push(s.last()));
            assert(key_seq(japanese_word_filter(s.drop_last()).push(s.last())) =~= key_seq(
                japanese_word_filter(s.drop_last()),
            ).push(s.last()@));
            assert(japanese_view_filter(key_seq(s)) == japanese_view_filter(
                key_seq(s).drop_last(),
            ).push(key_seq(s).last()));
        } else {
            assert(japanese_word_filter(s) == japanese_word_filter(s.drop_last()));
            assert(japanese_view_filter(key_seq(s)) == japanese_view_filter(key_seq(s).drop_last()));
        }
        assert(key_seq(japanese_word_filter(s)) =~= japanese_view_filter(key_seq(s)));
    }
}

/// Computes one batch's statistics from its text lines and the word
/// surfaces the tokenizer produced for them: Japanese and kanji character
/// counts, occurrence maps and unique-symbol sets over the filtered words
/// and the kanji, and the line-length distribution. The globally computed
/// file and directory totals are replicated into the result unchanged.
pub fn get_stats(
    lines: Vec<String>,
    morpheme_surfaces: Vec<String>,
    json_file_count: usize,
    json_dir_count: usize,
) -> (r: AnalysisStats)
    requires
        sum_lens(key_seq(lines@)) <= u64::MAX,
    ensures
        r.wf(),
        r.model() == spec_from_batch(key_seq(lines@), key_seq(morpheme_surfaces@)),
        r.volume_count == json_dir_count,
        r.page_count == json_file_count,
        r.word_list_raw@ == japanese_word_filter(morpheme_surfaces@),
{
    let ghost words = morpheme_surfaces@;
    let mut all_chars: Vec<char> = Vec::new();
    let n = morpheme_surfaces.len();
    proof {
        assert(key_seq(words.subrange(0, 0)) =~= Seq::<Seq<char>>::empty());
    }
    for i in 0..n
        invariant
            n == words.len(),
            words == morpheme_surfaces@,
            all_chars@ == concat_all(key_seq(words.subrange(0, i as int))),
    {
        let mut cs = str_to_chars(morpheme_surfaces[i].as_str());
        all_chars.append(&mut cs);
        proof {
            let prev = key_seq(words.subrange(0, i as int));
            let cur = key_seq(words.subrange(0, i + 1));
            assert(cur.drop_last() =~= prev);
            assert(cur.last() == words[i as int]@);
        }
    }
    proof {
        assert(words.subrange(0, n as int) =~= words);
    }
    let filtered_morphemes = filter_blacklisted(&morpheme_surfaces);
    let word_occurrence_list = generate_occurrence_list(&filtered_morphemes);
    let unique_words = SymbolSet::from_symbols(&filtered_morphemes);
    let japanese_characters = filter_non_japanese(&all_chars);
    let kanji_characters = filter_non_kanji(&all_chars);
    let kanji_occurrence_list = generate_occurrence_list(&kanji_characters);
    let unique_kanji = SymbolSet::from_symbols(&kanji_characters);
    let box_length = LengthStatistic::from_lines(&lines);
    let char_count = japanese_characters.len() as u64;
    let kanji_count = kanji_characters.len() as u64;
    let word_count = filtered_morphemes.len() as u64;
    let r = AnalysisStats {
        char_count,
        kanji_count,
        unique_kanji,
        word_count,
        unique_words,
        volume_count: json_dir_count,
        page_count: json_file_count,
        box_length,
        word_list_raw: filtered_morphemes,
        kanji_occurrence_list,
        word_occurrence_list,
    };
    proof {
        let target = spec_from_batch(key_seq(lines@), key_seq(words));
        let fw = japanese_view_filter(key_seq(words));
        lemma_key_seq_filter_japanese(words);
        assert(key_seq(r.word_list_raw@) == fw);
        assert(r.word_occurrence_list.to_map() =~= target.word_occurrences);
        assert(r.kanji_occurrence_list.to_map() =~= target.kanji_occurrences);
        assert(r.unique_words.to_set() =~= target.unique_words);
        assert(r.unique_kanji.to_set() =~= target.unique_kanji);
        assert(r.unique_words.to_set() =~= r.word_occurrence_list.to_map().dom());
        assert(r.unique_kanji.to_set() =~= r.kanji_occurrence_list.to_map().dom());
    }
    r
}

/// Law: combining batch statistics is associative on every merged field.
pub proof fn lemma_combine_associative(a: StatsModel, b: StatsModel, c: StatsModel)
    ensures
        spec_combine(spec_combine(a, b), c) == spec_combine(a, spec_combine(b, c)),
{
    assert(a.unique_kanji.union(b.unique_kanji).union(c.unique_kanji) =~= a.unique_kanji.union(
        b.unique_kanji.union(c.unique_kanji),
    ));
    assert(a.unique_words.union(b.unique_words).union(c.unique_words) =~= a.unique_words.union(
        b.unique_words.union(c.unique_words),
    ));
    lemma_merged_occ_associative(a.kanji_occurrences, b.kanji_occurrences, c.kanji_occurrences);
    lemma_merged_occ_associative(a.word_occurrences, b.word_occurrences, c.word_occurrences);
}

} // verus!
