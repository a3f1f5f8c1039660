use soft_unet::configuration::{load_configuration, INNER_LABEL, OUTER_LABEL};
use soft_unet::error::PipelineError;
use soft_unet::preprocess::parse_label;
use soft_unet::text::{decimal_string, parse_usize};

#[test]
fn outer_label_splits_into_name_and_index() {
    let (is_outer, name, idx) = parse_label("outer_1").unwrap();
    assert!(is_outer);
    assert_eq!(name, "outer");
    assert_eq!(idx, 1);
}

#[test]
fn other_label_is_not_outer() {
    let (is_outer, name, idx) = parse_label("bag_12").unwrap();
    assert!(!is_outer);
    assert_eq!(name, "bag");
    assert_eq!(idx, 12);
}

#[test]
fn label_splits_at_first_underscore() {
    assert_eq!(parse_label("inner_a_2"), Err(PipelineError::InvalidLabelIndex));
    let (is_outer, name, idx) = parse_label("outerx_3").unwrap();
    assert!(!is_outer);
    assert_eq!(name, "outerx");
    assert_eq!(idx, 3);
}

#[test]
fn label_without_separator_is_refused() {
    assert_eq!(parse_label("outer"), Err(PipelineError::MissingLabelSeparator));
    assert_eq!(parse_label(""), Err(PipelineError::MissingLabelSeparator));
}

#[test]
fn label_index_follows_integer_parsing() {
    assert_eq!(parse_label("x_"), Err(PipelineError::InvalidLabelIndex));
    assert_eq!(parse_label("x_-1"), Err(PipelineError::InvalidLabelIndex));
    assert_eq!(parse_label("x_ 1"), Err(PipelineError::InvalidLabelIndex));
    assert_eq!(parse_label("x_+"), Err(PipelineError::InvalidLabelIndex));
    assert_eq!(parse_label("x_99999999999999999999999"), Err(PipelineError::InvalidLabelIndex));
    assert_eq!(parse_label("x_+7").unwrap().2, 7);
    assert_eq!(parse_label("x_007").unwrap().2, 7);
    let (is_outer, name, idx) = parse_label("_5").unwrap();
    assert!(!is_outer);
    assert_eq!(name, "");
    assert_eq!(idx, 5);
}

#[test]
fn parse_usize_matches_std() {
    for text in ["0", "18446744073709551615", "18446744073709551616", "+12", "-0", "", "+", "1_000", "42", "00"] {
        assert_eq!(parse_usize(text), text.parse::<usize>().ok(), "{}", text);
    }
}

#[test]
fn decimal_string_writes_digits() {
    assert_eq!(decimal_string(0), "0");
    assert_eq!(decimal_string(7), "7");
    assert_eq!(decimal_string(10), "10");
    assert_eq!(decimal_string(1234567890), "1234567890");
    assert_eq!(decimal_string(usize::MAX), usize::MAX.to_string());
}

#[test]
fn label_written_with_decimal_parses_back() {
    for (name, idx) in [("outer", 0usize), ("bag", 17), ("inner", 123456)] {
        let label = format!("{}_{}", name, decimal_string(idx));
        let (is_outer, parsed_name, parsed_idx) = parse_label(&label).unwrap();
        assert_eq!(is_outer, name == OUTER_LABEL);
        assert_eq!(parsed_name, name);
        assert_eq!(parsed_idx, idx);
    }
}

#[test]
fn configuration_maps_special_labels() {
    let config = load_configuration();
    assert_eq!(config.gradient_alpha, 35);
    assert_eq!(config.label_intensity("bag"), Some(5));
    assert_eq!(config.label_intensity("bug"), Some(5));
    assert_eq!(config.label_intensity("film"), None);
    assert_eq!(config.label_intensity(INNER_LABEL), None);
    assert_eq!(config.label_map.len(), 2);
}
