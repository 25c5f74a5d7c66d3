use parse_argument::lookup::{find_token, pattern_of, report};
use parse_argument::{parse_argument, ParseArgumentError};
use std::cell::Cell;

fn list(tokens: &[&str]) -> Vec<String> {
    tokens.iter().map(|t| t.to_string()).collect()
}

fn as_u8(text: &str) -> Result<u8, std::num::ParseIntError> {
    text.parse::<u8>()
}

fn as_text(text: &str) -> Result<String, std::convert::Infallible> {
    text.parse::<String>()
}

#[test]
fn example_test() {
    let args = list(&["prog"]);
    assert_eq!(parse_argument(&args, "hello", |s: &str| s.parse::<String>()), None);
}

#[test]
fn flag_that_no_token_names_is_absent() {
    let args = list(&["prog", "--num=42", "--name=x", "plain", "--numb=3"]);
    assert_eq!(parse_argument(&args, "hello", as_text), None);
    assert_eq!(parse_argument(&args, "nu", as_u8), None);
    assert_eq!(parse_argument(&args, "number", as_u8), None);
}

#[test]
fn empty_argument_list_has_no_flag() {
    let args: Vec<String> = Vec::new();
    assert_eq!(parse_argument(&args, "num", as_u8), None);
}

#[test]
fn single_token_converts_to_u8() {
    let args = list(&["--num=42"]);
    assert_eq!(parse_argument(&args, "num", as_u8), Some(Ok(42u8)));
}

#[test]
fn value_that_does_not_convert_is_a_parse_error() {
    let args = list(&["--num=abc"]);
    let found = parse_argument(&args, "num", as_u8);
    assert!(matches!(found, Some(Err(ParseArgumentError::ParseError(_)))));
    let expected = "abc".parse::<u8>().unwrap_err();
    assert_eq!(found, Some(Err(ParseArgumentError::ParseError(expected))));
}

#[test]
fn value_out_of_range_keeps_the_parsers_error() {
    let args = list(&["--num=256"]);
    let expected = "256".parse::<u8>().unwrap_err();
    assert_eq!(
        parse_argument(&args, "num", as_u8),
        Some(Err(ParseArgumentError::ParseError(expected)))
    );
}

#[test]
fn extra_equals_sign_is_bad_len() {
    let args = list(&["--num=1=2"]);
    assert_eq!(parse_argument(&args, "num", as_u8), Some(Err(ParseArgumentError::BadLen)));
}

#[test]
fn first_naming_token_decides() {
    let args = list(&["prog", "--num=1", "--num=2"]);
    assert_eq!(parse_argument(&args, "num", as_u8), Some(Ok(1u8)));
}

#[test]
fn malformed_first_token_hides_a_later_good_one() {
    let args = list(&["--num=1=2", "--num=3"]);
    assert_eq!(parse_argument(&args, "num", as_u8), Some(Err(ParseArgumentError::BadLen)));
}

#[test]
fn pattern_may_stand_inside_a_token() {
    let args = list(&["pre--num=5"]);
    assert_eq!(parse_argument(&args, "num", as_u8), Some(Ok(5u8)));
}

#[test]
fn pattern_inside_another_flags_value_is_bad_len() {
    let args = list(&["--a=--b=3", "--b=4"]);
    assert_eq!(parse_argument(&args, "b", as_u8), Some(Err(ParseArgumentError::BadLen)));
}

#[test]
fn longer_flag_name_does_not_match_a_shorter_search() {
    let args = list(&["--number=5"]);
    assert_eq!(parse_argument(&args, "num", as_u8), None);
    assert_eq!(parse_argument(&args, "number", as_u8), Some(Ok(5u8)));
}

#[test]
fn search_for_a_name_suffix_matches_only_after_two_hyphens() {
    let args = list(&["--xnum=7"]);
    assert_eq!(parse_argument(&args, "num", as_u8), None);
}

#[test]
fn flag_name_with_equals_sign_is_bad_len() {
    let args = list(&["--a=b=1"]);
    assert_eq!(parse_argument(&args, "a=b", as_u8), Some(Err(ParseArgumentError::BadLen)));
}

#[test]
fn empty_value_reaches_the_parser() {
    let args = list(&["--num="]);
    assert_eq!(parse_argument(&args, "num", as_text), Some(Ok(String::new())));
    let expected = "".parse::<u8>().unwrap_err();
    assert_eq!(
        parse_argument(&args, "num", as_u8),
        Some(Err(ParseArgumentError::ParseError(expected)))
    );
}

#[test]
fn empty_flag_name_searches_for_bare_prefix() {
    let args = list(&["--=5", "--num=6"]);
    assert_eq!(parse_argument(&args, "", as_u8), Some(Ok(5u8)));
}

#[test]
fn parser_sees_exactly_the_text_after_the_equals_sign() {
    let args = list(&["prog", "--path=/tmp/a b,c"]);
    let seen = parse_argument(&args, "path", |text: &str| Ok::<String, ()>(text.to_string()));
    assert_eq!(seen, Some(Ok("/tmp/a b,c".to_string())));
}

#[test]
fn value_with_wide_characters_is_cut_at_character_bounds() {
    let args = list(&["--näme=über→ß"]);
    assert_eq!(parse_argument(&args, "näme", as_text), Some(Ok("über→ß".to_string())));
}

#[test]
fn parser_runs_once_for_a_value_and_not_at_all_otherwise() {
    let calls = Cell::new(0u32);
    let counting = |text: &str| {
        calls.set(calls.get() + 1);
        text.parse::<u8>()
    };
    let args = list(&["--num=1=2", "--n=3", "--n=4"]);
    assert_eq!(parse_argument(&args, "gone", &counting), None);
    assert_eq!(calls.get(), 0);
    assert_eq!(parse_argument(&args, "num", &counting), Some(Err(ParseArgumentError::BadLen)));
    assert_eq!(calls.get(), 0);
    assert_eq!(parse_argument(&args, "n", &counting), Some(Ok(3u8)));
    assert_eq!(calls.get(), 1);
}

#[test]
fn custom_parser_error_is_wrapped_unchanged() {
    let args = list(&["--mode=fast"]);
    let parse = |text: &str| if text == "slow" { Ok(0u8) } else { Err(text.len()) };
    assert_eq!(parse_argument(&args, "mode", parse), Some(Err(ParseArgumentError::ParseError(4usize))));
}

#[test]
fn looking_up_twice_gives_the_same_result() {
    let args = list(&["prog", "--num=42", "--bad=1=2", "--word=abc"]);
    for flag in ["num", "bad", "word", "none"] {
        let first = parse_argument(&args, flag, as_u8);
        let second = parse_argument(&args, flag, as_u8);
        assert_eq!(first, second);
    }
    assert_eq!(args, list(&["prog", "--num=42", "--bad=1=2", "--word=abc"]));
}

#[test]
fn pattern_of_wraps_the_name() {
    assert_eq!(pattern_of("num"), vec!['-', '-', 'n', 'u', 'm', '=']);
    assert_eq!(pattern_of(""), vec!['-', '-', '=']);
    assert_eq!(pattern_of("é"), vec!['-', '-', 'é', '=']);
}

#[test]
fn find_token_gives_the_first_position() {
    let args = list(&["prog", "--b=1", "x--a=2", "--a=3"]);
    assert_eq!(find_token(&args, "a"), Some(2));
    assert_eq!(find_token(&args, "b"), Some(1));
    assert_eq!(find_token(&args, "c"), None);
    assert_eq!(find_token(&Vec::new(), "a"), None);
}

#[test]
fn report_wraps_only_the_error() {
    assert_eq!(report(Ok::<u8, String>(7)), Ok(7));
    assert_eq!(
        report(Err::<u8, String>("no".to_string())),
        Err(ParseArgumentError::ParseError("no".to_string()))
    );
}
