use japanese_text_analyzer::args_parser::get_args;
use japanese_text_analyzer::args_parser::AnalysisType;

fn argv(items: &[&str]) -> Vec<String> {
    items.iter().map(|s| s.to_string()).collect()
}

#[test]
fn the_defaults_select_nested_json_transcripts() {
    let parsed = get_args(argv(&["analyzer"]));
    assert_eq!(parsed.analysis_type, AnalysisType::MokuroJson);
    assert_eq!(parsed.extension, ".json");
    assert_eq!(parsed.start_path, "");
}

#[test]
fn mokuro_mode_selects_the_mokuro_extension() {
    let parsed = get_args(argv(&["analyzer", "--mokuro", "/manga"]));
    assert_eq!(parsed.analysis_type, AnalysisType::Mokuro);
    assert_eq!(parsed.extension, ".mokuro");
    assert_eq!(parsed.start_path, "/manga");
}

#[test]
fn any_mode_takes_its_extension_from_the_option() {
    let parsed = get_args(argv(&["analyzer", "--any=.txt", "/texts"]));
    assert_eq!(parsed.analysis_type, AnalysisType::Any);
    assert_eq!(parsed.extension, ".txt");
    assert_eq!(parsed.start_path, "/texts");
}

#[test]
fn any_mode_without_a_value_matches_everything() {
    let parsed = get_args(argv(&["analyzer", "--any"]));
    assert_eq!(parsed.analysis_type, AnalysisType::Any);
    assert_eq!(parsed.extension, "");
}

#[test]
fn unknown_options_are_ignored() {
    let parsed = get_args(argv(&["analyzer", "--verbose", "path"]));
    assert_eq!(parsed.analysis_type, AnalysisType::MokuroJson);
    assert_eq!(parsed.extension, ".json");
    assert_eq!(parsed.start_path, "path");
}

#[test]
fn the_last_path_argument_wins() {
    let parsed = get_args(argv(&["analyzer", "first", "--mokurojson", "second"]));
    assert_eq!(parsed.start_path, "second");
    assert_eq!(parsed.extension, ".json");
}
