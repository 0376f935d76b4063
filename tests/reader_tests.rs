use parameter_reader::reader::{ParameterError, ParameterReader};

const PARAMS: [&str; 4] = ["my_float", "my_int", "my_array", "my_bool"];

const DELIM: &str = ":";
const ARRAY_SPLIT: &str = ",";

const GOOD_FORMAT: &str = "my_int:42\nmy_float:3.14\nmy_bool:true\nmy_string:hello world\nmy_array:1, 2, 3\n";
const BAD_DELIM: &str = "my_float:3.14\nmy_int= 42\nmy_array:1, 2, 3\nmy_bool:true\n";
const MISSING_BOOL: &str = "my_float:3.14\nmy_int:42\nmy_array:1, 2, 3\n";

const ALL_PARAMS: [&str; 5] = ["my_int", "my_float", "my_array", "my_bool", "my_string"];
const INT_ONLY: [&str; 1] = ["my_int"];
const A_ONLY: [&str; 1] = ["a"];
const OVERLAPPING: [&str; 2] = ["int", "my_int"];
const THREE: [&str; 3] = ["alpha", "beta", "gamma"];

fn reader_on(text: &str, names: &'static [&'static str]) -> ParameterReader {
    let reader = ParameterReader::build(Ok(text.to_string()), names);
    assert!(reader.is_ok(), "Reader should be ok!");
    reader.unwrap()
}

#[test]
fn it_works() {
    let reader = ParameterReader::build(Ok(GOOD_FORMAT.to_string()), &PARAMS);
    assert!(reader.is_ok(), "Reader is ok!");

    let reader = reader.unwrap();

    let parameters = reader.parse_parameters(DELIM);
    assert!(parameters.is_ok(), "Parameters should be ok!");
    let parameters = parameters.unwrap();

    let my_float = parameters.get("my_float").unwrap().parse::<f32>();
    assert!(my_float.is_ok(), "my_float should be ok!");
    let my_float = my_float.unwrap();

    let my_int = parameters.get("my_int").unwrap().parse::<i32>();
    assert!(my_int.is_ok(), "my_int should be ok!");
    let my_int = my_int.unwrap();

    let my_bool = parameters.get("my_bool").unwrap().parse::<bool>();
    assert!(my_bool.is_ok(), "my_bool should be ok!");
    let my_bool = my_bool.unwrap();

    let my_array = parameters
        .get("my_array")
        .unwrap()
        .split(ARRAY_SPLIT)
        .map(|val| val.trim().parse::<i32>().expect("array should be ok"));
    let my_array: Vec<i32> = my_array.collect();

    println!("{my_float} {my_int} {my_bool} {my_array:?}");
}

#[test]
fn bad_delim() {
    let error_line = "my_int= 42".to_string();

    let reader = ParameterReader::build(Ok(BAD_DELIM.to_string()), &PARAMS);
    assert!(reader.is_ok(), "Reader should be ok!");

    let reader = reader.unwrap();

    let parameters = reader.parse_parameters(DELIM);
    assert!(
        parameters.is_err_and(|e| e == ParameterError::BadDelimiter(error_line)),
        "Parameters should be BadDelim!"
    );
}

#[test]
fn missing_bool() {
    let reader = ParameterReader::build(Ok(MISSING_BOOL.to_string()), &PARAMS);
    assert!(reader.is_ok(), "Reader should be ok!");

    let reader = reader.unwrap();

    let parameters = reader.parse_parameters(DELIM);
    assert!(parameters.is_err(), "Parameters should be missing!");

    let error = parameters.err().unwrap();
    match error {
        ParameterError::MissingParam(mut missing_names) => {
            let missing = missing_names.pop().expect("Missing parameter should be here!");
            assert_eq!(
                missing.clone(),
                "my_bool".to_string(),
                "The missing parameter should be \"my_bool\""
            );
            println!("{missing}");
        }
        _ => panic!("Error must be of MissingParam type!"),
    }
}

#[test]
fn non_existant_file() {
    let read_failure = "No such file or directory (os error 2)".to_string();
    let reader = ParameterReader::build(Err(read_failure), &PARAMS);
    assert!(reader.is_err(), "Reader should be error!");

    let error = reader.err().unwrap();
    match error {
        ParameterError::ReadContentError(run_time_error) => {
            println!("{run_time_error}");
        }
        _ => panic!("Error must be ReadContentError!"),
    }
}

#[test]
fn read_error_keeps_message() {
    let reader = ParameterReader::build(Err("permission denied".to_string()), &PARAMS);
    match reader {
        Err(e) => assert_eq!(e, ParameterError::ReadContentError("permission denied".to_string())),
        Ok(_) => panic!("a failed read must give an error"),
    }
}

#[test]
fn good_format_gives_every_value() {
    let map = reader_on(GOOD_FORMAT, &ALL_PARAMS).parse_parameters(":").unwrap();
    assert_eq!(map.get("my_int").unwrap(), "42");
    assert_eq!(map.get("my_float").unwrap(), "3.14");
    assert_eq!(map.get("my_array").unwrap(), "1, 2, 3");
    assert_eq!(map.get("my_bool").unwrap(), "true");
    assert_eq!(map.get("my_string").unwrap(), "hello world");
    assert!(map.get("my_other").is_none());
    assert!(!map.contains_key("my_other"));
    assert!(map.contains_key("my_int"));
}

#[test]
fn bad_delimiter_line_is_reported_verbatim() {
    let result = reader_on("my_int= 42", &INT_ONLY).parse_parameters(":");
    assert_eq!(result.err(), Some(ParameterError::BadDelimiter("my_int= 42".to_string())));
}

#[test]
fn missing_names_listed_in_expected_order() {
    let result = reader_on("beta: 2\nother line\n", &THREE).parse_parameters(":");
    assert_eq!(
        result.err(),
        Some(ParameterError::MissingParam(vec!["alpha".to_string(), "gamma".to_string()]))
    );
}

#[test]
fn empty_text_misses_every_name() {
    let result = reader_on("", &THREE).parse_parameters(":");
    assert_eq!(
        result.err(),
        Some(ParameterError::MissingParam(vec![
            "alpha".to_string(),
            "beta".to_string(),
            "gamma".to_string()
        ]))
    );
}

#[test]
fn bad_delimiter_wins_over_missing_names() {
    let result = reader_on("alpha 1\n", &THREE).parse_parameters(":");
    assert_eq!(result.err(), Some(ParameterError::BadDelimiter("alpha 1".to_string())));
}

#[test]
fn first_bad_line_is_the_one_reported() {
    let result = reader_on("beta 2\nalpha 1\ngamma:3\n", &THREE).parse_parameters(":");
    assert_eq!(result.err(), Some(ParameterError::BadDelimiter("beta 2".to_string())));
}

#[test]
fn bad_line_after_good_lines_discards_them() {
    let result = reader_on("alpha:1\nbeta:2\ngamma 3\n", &THREE).parse_parameters(":");
    assert_eq!(result.err(), Some(ParameterError::BadDelimiter("gamma 3".to_string())));
}

#[test]
fn reparse_with_other_delimiter() {
    let reader = reader_on("a=1:2\n", &A_ONLY);
    let with_colon = reader.parse_parameters(":").unwrap();
    assert_eq!(with_colon.get("a").unwrap(), "2");
    let with_equals = reader.parse_parameters("=").unwrap();
    assert_eq!(with_equals.get("a").unwrap(), "1:2");
    let with_dash = reader.parse_parameters("-");
    assert_eq!(with_dash.err(), Some(ParameterError::BadDelimiter("a=1:2".to_string())));
    let again = reader.parse_parameters(":").unwrap();
    assert_eq!(again.get("a").unwrap(), "2");
}

#[test]
fn only_first_delimiter_splits() {
    let map = reader_on("a: x: y :z \n", &A_ONLY).parse_parameters(":").unwrap();
    assert_eq!(map.get("a").unwrap(), "x: y :z");
}

#[test]
fn multi_character_delimiter() {
    let map = reader_on("a => b = c\n", &A_ONLY).parse_parameters("=>").unwrap();
    assert_eq!(map.get("a").unwrap(), "b = c");
}

#[test]
fn last_mentioning_line_wins() {
    let map = reader_on("a:1\nb:2\na:3\n", &A_ONLY).parse_parameters(":").unwrap();
    assert_eq!(map.get("a").unwrap(), "3");
}

#[test]
fn name_matches_as_substring() {
    let map = reader_on("my_int: 5\n", &OVERLAPPING).parse_parameters(":").unwrap();
    assert_eq!(map.get("int").unwrap(), "5");
    assert_eq!(map.get("my_int").unwrap(), "5");
}

#[test]
fn lines_ending_in_crlf() {
    let map = reader_on("alpha:1\r\nbeta:two\r\ngamma:3", &THREE).parse_parameters(":").unwrap();
    assert_eq!(map.get("alpha").unwrap(), "1");
    assert_eq!(map.get("beta").unwrap(), "two");
    assert_eq!(map.get("gamma").unwrap(), "3");
}

#[test]
fn crlf_bad_line_is_reported_without_ending() {
    let result = reader_on("alpha 1\r\n", &THREE).parse_parameters(":");
    assert_eq!(result.err(), Some(ParameterError::BadDelimiter("alpha 1".to_string())));
}

#[test]
fn unicode_white_space_is_trimmed() {
    let map = reader_on("a:\t\u{a0}\u{3000} v a l \u{2003}\n", &A_ONLY).parse_parameters(":").unwrap();
    assert_eq!(map.get("a").unwrap(), "v a l");
}

#[test]
fn empty_value_after_delimiter() {
    let map = reader_on("a:   \n", &A_ONLY).parse_parameters(":").unwrap();
    assert_eq!(map.get("a").unwrap(), "");
}

#[test]
fn unrelated_lines_without_delimiter_are_ignored() {
    let map = reader_on("# comment\n\nalpha:1\nbeta:2\ngamma:3\nfree text\n", &THREE)
        .parse_parameters(":")
        .unwrap();
    assert_eq!(map.get("alpha").unwrap(), "1");
    assert_eq!(map.get("beta").unwrap(), "2");
    assert_eq!(map.get("gamma").unwrap(), "3");
}

#[test]
fn message_lists_missing_names() {
    let e = ParameterError::MissingParam(vec!["a".to_string(), "b".to_string(), "c".to_string()]);
    assert_eq!(e.message(), "ParameterReaderError: Missing parameters: \"a, b, c\"");
    let one = ParameterError::MissingParam(vec!["my_bool".to_string()]);
    assert_eq!(one.message(), "ParameterReaderError: Missing parameters: \"my_bool\"");
}

#[test]
fn message_quotes_bad_line() {
    let e = ParameterError::BadDelimiter("my_int= 42".to_string());
    assert_eq!(e.message(), "ParameterReaderError: Bad Delimiter at: \"my_int= 42\"");
}

#[test]
fn message_of_read_error_is_its_description() {
    let e = ParameterError::ReadContentError("No such file or directory (os error 2)".to_string());
    assert_eq!(e.message(), "No such file or directory (os error 2)");
}
