//! Command-line option parsing: picks the analysis type, the file
//! extension to match and the start path out of the raw argument list.

use crate::occurrence::key_seq;
use crate::text::str_to_chars;
use vstd::prelude::*;

verus! {

/// Which transcript layout a run analyzes.
#[derive(Clone, Copy, PartialEq, Eq, Structural, Debug)]
pub enum AnalysisType {
    MokuroJson,
    Mokuro,
    Any,
}

/// The parsed command line: where to start looking for files, which layout
/// to expect, and which file extension to match.
#[derive(Debug)]
pub struct JapaneseTextAnalyzerArgs {
    pub start_path: String,
    pub analysis_type: AnalysisType,
    pub extension: String,
}

/// The parser's running state, by character content.
pub ghost struct ArgsState {
    pub start_path: Seq<char>,
    pub analysis_type: AnalysisType,
    pub extension: Seq<char>,
}

/// The state before any argument is read: nested transcript layout,
/// ".json" extension, empty start path.
pub open spec fn initial_args_state() -> ArgsState {
    ArgsState {
        start_path: Seq::empty(),
        analysis_type: AnalysisType::MokuroJson,
        extension: ".json"@,
    }
}

/// True when the argument begins with two dashes.
pub open spec fn starts_with_dashes(s: Seq<char>) -> bool {
    s.len() >= 2 && s[0] == '-' && s[1] == '-'
}

/// The position of the first '=' in the argument, or its length when it
/// holds none.
pub open spec fn find_eq(s: Seq<char>) -> int
    decreases s.len(),
{
    if s.len() == 0 {
        0
    } else if s[0] == '=' {
        0
    } else {
        1 + find_eq(s.drop_first())
    }
}

/// The part of the argument before its first '='.
pub open spec fn arg_key(s: Seq<char>) -> Seq<char> {
    s.subrange(0, find_eq(s))
}

/// The part of the argument after its first '=' (empty when it holds
/// none).
pub open spec fn arg_value(s: Seq<char>) -> Seq<char> {
    if find_eq(s) == s.len() {
        Seq::empty()
    } else {
        s.subrange(find_eq(s) + 1, s.len() as int)
    }
}

/// How one argument changes the parser state: a "--" option selects the
/// analysis type and extension (an unknown option is ignored), any other
/// argument becomes the start path.
pub open spec fn apply_arg(st: ArgsState, arg: Seq<char>) -> ArgsState {
    if starts_with_dashes(arg) {
        let key = arg_key(arg);
        if key == "--mokurojson"@ {
            ArgsState {
                analysis_type: AnalysisType::MokuroJson,
                extension: ".json"@,
                ..st
            }
        } else if key == "--mokuro"@ {
            ArgsState { analysis_type: AnalysisType::Mokuro, extension: ".mokuro"@, ..st }
        } else if key == "--any"@ {
            ArgsState { analysis_type: AnalysisType::Any, extension: arg_value(arg), ..st }
        } else {
            st
        }
    } else {
        ArgsState { start_path: arg, ..st }
    }
}

/// Folding the parser state over a list of arguments, first to last.
pub open spec fn fold_args(st: ArgsState, args: Seq<Seq<char>>) -> ArgsState
    decreases args.len(),
{
    if args.len() == 0 {
        st
    } else {
        apply_arg(fold_args(st, args.drop_last()), args.last())
    }
}

/// Basic facts about the position of the first '='.
proof fn lemma_find_eq_props(s: Seq<char>)
    ensures
        0 <= find_eq(s) <= s.len(),
        find_eq(s) < s.len() ==> s[find_eq(s)] == '=',
        forall|k: int| 0 <= k < find_eq(s) ==> s[k] != '=',
    decreases s.len(),
{
    if s.len() == 0 {
    } else if s[0] == '=' {
    } else {
        lemma_find_eq_props(s.drop_first());
        assert forall|k: int| 0 <= k < find_eq(s) implies s[k] != '=' by {
            if k > 0 {
                assert(s.drop_first()[k - 1] != '=');
            }
        }
        if find_eq(s) < s.len() {
            assert(s.drop_first()[find_eq(s.drop_first())] == '=');
        }
    }
}

/// Compares two strings character by character.
fn str_eq_str(a: &str, b: &str) -> (r: bool)
    ensures
        r == (a@ == b@),
{
    let n = a.unicode_len();
    let m = b.unicode_len();
    if n != m {
        proof {
            assert(a@.len() != b@.len());
        }
        return false;
    }
    for i in 0..n
        invariant
            n == a@.len(),
            n == b@.len(),
            forall|j: int| 0 <= j < i ==> a@[j] == b@[j],
    {
        if a.get_char(i) != b.get_char(i) {
            return false;
        }
    }
    proof {
        assert(a@ =~= b@);
    }
    true
}

impl JapaneseTextAnalyzerArgs {
    /// The options before any argument is read: nested transcript layout
    /// with the ".json" extension and no start path.
    pub fn default() -> (r: Self)
        ensures
            r.start_path@ == Seq::<char>::empty(),
            r.analysis_type == AnalysisType::MokuroJson,
            r.extension@ == ".json"@,
    {
        JapaneseTextAnalyzerArgs {
            start_path: String::new(),
            analysis_type: AnalysisType::MokuroJson,
            extension: String::from_str(".json"),
        }
    }
}

/// Parses the raw argument list (the first entry is the program name and
/// is skipped) into the analyzer options, folding each argument over the
/// defaults in order.
pub fn get_args(args: Vec<String>) -> (r: JapaneseTextAnalyzerArgs)
    requires
        args@.len() >= 1,
    ensures
        ({
            let m = fold_args(initial_args_state(), key_seq(args@).drop_first());
            &&& r.start_path@ == m.start_path
            &&& r.analysis_type == m.analysis_type
            &&& r.extension@ == m.extension
        }),
{
    let ghost all = key_seq(args@).drop_first();
    let mut japanese_text_analyzer_args = JapaneseTextAnalyzerArgs::default();
    let n = args.len();
    proof {
        assert(all.subrange(0, 0) =~= Seq::<Seq<char>>::empty());
        assert(all.len() == n - 1);
    }
    let mut i: usize = 1;
    while i < n
        invariant
            1 <= i <= n,
            n == args@.len(),
            all == key_seq(args@).drop_first(),
            ({
                let m = fold_args(initial_args_state(), all.subrange(0, i - 1));
                &&& japanese_text_analyzer_args.start_path@ == m.start_path
                &&& japanese_text_analyzer_args.analysis_type == m.analysis_type
                &&& japanese_text_analyzer_args.extension@ == m.extension
            }),
        decreases n - i,
    {
        let arg = &args[i];
        let ghost av = arg@;
        proof {
            assert(all[i - 1] == av);
            assert(all.subrange(0, i as int).drop_last() =~= all.subrange(0, i - 1));
            assert(all.subrange(0, i as int).last() == av);
        }
        let cs = str_to_chars(arg.as_str());
        let has_dashes = cs.len() >= 2 && cs[0] == '-' && cs[1] == '-';
        proof {
            assert(has_dashes == starts_with_dashes(av));
        }
        if has_dashes {
            let len = cs.len();
            let mut eq_pos: usize = 0;
            while eq_pos < len && cs[eq_pos] != '='
                invariant
                    0 <= eq_pos <= len,
                    len == av.len(),
                    cs@ == av,
                    forall|k: int| 0 <= k < eq_pos ==> av[k] != '=',
                decreases len - eq_pos,
            {
                eq_pos = eq_pos + 1;
            }
            proof {
                lemma_find_eq_props(av);
                assert(eq_pos == find_eq(av));
            }
            let key = arg.as_str().substring_char(0, eq_pos);
            proof {
                assert(key@ == arg_key(av));
            }
            if str_eq_str(key, "--mokurojson") {
                japanese_text_analyzer_args.analysis_type = AnalysisType::MokuroJson;
                japanese_text_analyzer_args.extension = String::from_str(".json");
            } else if str_eq_str(key, "--mokuro") {
                japanese_text_analyzer_args.analysis_type = AnalysisType::Mokuro;
                japanese_text_analyzer_args.extension = String::from_str(".mokuro");
            } else if str_eq_str(key, "--any") {
                let value = if eq_pos < len {
                    arg.as_str().substring_char(eq_pos + 1, len)
                } else {
                    ""
                };
                proof {
                    reveal_strlit("");
                    assert(value@ == arg_value(av));
                }
                japanese_text_analyzer_args.analysis_type = AnalysisType::Any;
                japanese_text_analyzer_args.extension = String::from_str(value);
            }
        } else {
            japanese_text_analyzer_args.start_path = arg.clone();
        }
        i = i + 1;
    }
    proof {
        assert(all.subrange(0, n - 1) =~= all);
    }
    japanese_text_analyzer_args
}

} // verus!
