use arff_reader::data_set::{Data, DataEntry, DataSet};
use arff_reader::error::ParseError;
use arff_reader::parser::{
    chars_of, find_char, find_text, parse_number, pass_black, pass_white, same, split_lines,
    split_text, Parser,
};

fn chars(text: &str) -> Vec<char> {
    text.chars().collect()
}

fn text(chars: &[char]) -> String {
    chars.iter().collect()
}

fn texts(pieces: Vec<&[char]>) -> Vec<String> {
    pieces.into_iter().map(text).collect()
}

fn word(source: &str, from: usize) -> Result<(String, Result<String, ParseError>), ParseError> {
    let source = chars(source);
    let mut parser = Parser::new(&source, from);
    let first = text(parser.parse_string()?);
    let second = parser.parse_string().map(text);
    Ok((first, second))
}

#[test]
fn chars_of_gives_the_characters_in_order() {
    assert_eq!(chars_of("a b"), vec!['a', ' ', 'b']);
    assert_eq!(chars_of(""), Vec::<char>::new());
    assert_eq!(chars_of("é√"), vec!['é', '√']);
}

#[test]
fn scanning_stops_at_the_first_character_looked_for() {
    let source = chars("  ab \tcd");
    assert_eq!(pass_white(&source, 0), 2);
    assert_eq!(pass_white(&source, 2), 2);
    assert_eq!(pass_white(&source, 4), 6);
    assert_eq!(pass_white(&source, 8), 8);
    assert_eq!(pass_black(&source, 2), 4);
    assert_eq!(pass_black(&source, 4), 4);
    assert_eq!(pass_black(&source, 6), 8);
    assert_eq!(find_char(&source, 0, 'b'), 3);
    assert_eq!(find_char(&source, 4, 'b'), 8);
    assert_eq!(find_char(&source, 0, ' '), 0);
    // white space is more than blanks and tabulators
    let source = chars("\u{a0}\u{2003}\nx");
    assert_eq!(pass_white(&source, 0), 3);
}

#[test]
fn texts_are_found_at_their_first_place() {
    let source = chars("ab@dat@data @data");
    assert_eq!(find_text(&source, &chars("@data")), Some(6));
    assert_eq!(find_text(&source, &chars("ab")), Some(0));
    assert_eq!(find_text(&source, &chars("data")), Some(7));
    assert_eq!(find_text(&source, &chars("@data ")), Some(6));
    assert_eq!(find_text(&source, &chars("@datum")), None);
    assert_eq!(find_text(&chars("@da"), &chars("@data")), None);
    assert_eq!(find_text(&chars(""), &chars("x")), None);
    assert_eq!(find_text(&source, &source), Some(0));
    assert!(same(&chars("abc"), &chars("abc")));
    assert!(!same(&chars("abc"), &chars("abd")));
    assert!(!same(&chars("abc"), &chars("ab")));
    assert!(same(&chars(""), &chars("")));
}

#[test]
fn texts_are_cut_at_every_comma() {
    assert_eq!(texts(split_text(&chars("a,b,c"), ',')), vec!["a", "b", "c"]);
    assert_eq!(texts(split_text(&chars("a,,c,"), ',')), vec!["a", "", "c", ""]);
    assert_eq!(texts(split_text(&chars(""), ',')), vec![""]);
    assert_eq!(texts(split_text(&chars(","), ',')), vec!["", ""]);
    assert_eq!(texts(split_text(&chars(" a b "), ',')), vec![" a b "]);
}

#[test]
fn texts_are_cut_into_lines() {
    assert_eq!(texts(split_lines(&chars("a\nb\nc"))), vec!["a", "b", "c"]);
    assert_eq!(texts(split_lines(&chars("a\nb\n"))), vec!["a", "b"]);
    assert_eq!(texts(split_lines(&chars("a\r\nb\r\n"))), vec!["a", "b"]);
    assert_eq!(texts(split_lines(&chars("a\n\nb"))), vec!["a", "", "b"]);
    assert_eq!(texts(split_lines(&chars("\n"))), vec![""]);
    assert_eq!(texts(split_lines(&chars("\r\n"))), vec![""]);
    assert_eq!(texts(split_lines(&chars(""))), Vec::<String>::new());
    // a carriage return is only dropped before a line feed
    assert_eq!(texts(split_lines(&chars("a\rb\nc\r"))), vec!["a\rb", "c\r"]);
    assert_eq!(texts(split_lines(&chars("a\r\r\n"))), vec!["a\r"]);
}

#[test]
fn words_are_runs_without_white_space() {
    assert_eq!(
        word("  alpha beta", 0),
        Ok(("alpha".to_string(), Ok("beta".to_string())))
    );
    assert_eq!(word("alpha\tbeta\n", 2), Ok(("pha".to_string(), Ok("beta".to_string()))));
    assert_eq!(word("alpha", 0), Ok(("alpha".to_string(), Err(ParseError::EndOfFile))));
    assert_eq!(word("alpha   ", 0), Ok(("alpha".to_string(), Err(ParseError::EndOfFile))));
    assert_eq!(word("", 0), Err(ParseError::EndOfFile));
    assert_eq!(word("   \n", 0), Err(ParseError::EndOfFile));
    assert_eq!(word("abc", 3), Err(ParseError::EndOfFile));
}

#[test]
fn words_in_quotation_marks_may_hold_white_space() {
    assert_eq!(
        word("'wind speed' next", 0),
        Ok(("wind speed".to_string(), Ok("next".to_string())))
    );
    assert_eq!(
        word(" \"a 'b' c\" next", 0),
        Ok(("a 'b' c".to_string(), Ok("next".to_string())))
    );
    // what follows the closing mark up to the next white space is passed over
    assert_eq!(word("'ab'cd ef", 0), Ok(("ab".to_string(), Ok("ef".to_string()))));
    // the closing mark is looked for behind the first character
    assert_eq!(word("''' x", 0), Ok(("'".to_string(), Ok("x".to_string()))));
    assert_eq!(word("'a", 0), Err(ParseError::MissingSingleQuote));
    assert_eq!(word("'", 0), Err(ParseError::MissingSingleQuote));
    assert_eq!(word("''", 0), Err(ParseError::MissingSingleQuote));
    assert_eq!(word("\"abc'", 0), Err(ParseError::MissingDoubleQuote));
    assert_eq!(word("\"", 0), Err(ParseError::MissingDoubleQuote));
}

#[test]
fn words_must_start_with_an_ascii_character() {
    assert_eq!(word("élan", 0), Err(ParseError::UnreadableCharacter));
    assert_eq!(word("'ébene'", 0), Err(ParseError::UnreadableCharacter));
    assert_eq!(word("aé b", 0), Ok(("aé".to_string(), Ok("b".to_string()))));
    assert_eq!(word("'aé' b", 0), Ok(("aé".to_string(), Ok("b".to_string()))));
}

#[test]
fn a_reader_that_fails_stays_where_it_is() {
    let source = chars("one 'two");
    let mut parser = Parser::new(&source, 0);
    assert_eq!(parser.parse_string().map(text), Ok("one".to_string()));
    assert_eq!(parser.parse_string().map(text), Err(ParseError::MissingSingleQuote));
    assert_eq!(parser.parse_string().map(text), Err(ParseError::MissingSingleQuote));
}

#[test]
fn numbers_are_read_as_millionths() {
    for (written, value) in [
        ("0", 0i64),
        ("1", 1_000_000),
        ("85", 85_000_000),
        ("85.5", 85_500_000),
        ("-4.25", -4_250_000),
        ("+7", 7_000_000),
        ("5.", 5_000_000),
        (".5", 500_000),
        ("-.5", -500_000),
        ("00012.3400", 12_340_000),
        ("0.000001", 1),
        ("-0.000001", -1),
        ("0.0000019", 1),
        ("-0.0000019", -1),
        ("0.0000009", 0),
        ("-0", 0),
        ("3.14159265358979", 3_141_592),
        ("123456.654321", 123_456_654_321),
        ("9223372036854.775807", i64::MAX),
        ("-9223372036854.775807", -i64::MAX),
        ("9223372036854.7758079", i64::MAX),
    ] {
        assert_eq!(parse_number(&chars(written)), Ok(value), "{}", written);
    }
}

#[test]
fn what_is_no_decimal_number_is_refused() {
    for written in [
        "", ".", "-", "+", "+-1", "--1", "1.2.3", "1,5", "abc", "1e5", "1E-3", "inf", "NaN",
        " 5", "5 ", "0x10", "1_000", "٣", "1.5f",
    ] {
        assert_eq!(parse_number(&chars(written)), Err(ParseError::NotANumber), "{}", written);
    }
}

#[test]
fn numbers_that_are_too_large_are_refused() {
    for written in [
        "9223372036854.775808",
        "-9223372036854.775808",
        "9223372036855",
        "9223372036854775807",
        "9223372036854775808",
        "-99999999999999999999999999999999999999999999999999",
        "340282366920938463463374607431768211456",
    ] {
        assert_eq!(
            parse_number(&chars(written)),
            Err(ParseError::NumberOutOfRange),
            "{}",
            written
        );
    }
    // a number that is too large and no number at all is no number
    assert_eq!(
        parse_number(&chars("99999999999999999999999999x")),
        Err(ParseError::NotANumber)
    );
}

const WEATHER: &str = "% the weather
@relation weather

@attribute outlook {sunny, overcast, rainy}
  @attribute temperature numeric
@attribute humidity real
% a label of two words
@attribute 'wind speed' {TRUE,FALSE}
@attribute note string
@data
sunny,85,85.5,FALSE,hot
overcast,83,86,TRUE,'very hot'
rainy,-2.5,.75,TRUE, mild and wet
";

#[test]
fn a_relation_is_read_with_its_attributes_and_rows() {
    let weather = DataSet::import(WEATHER).unwrap();
    assert_eq!(weather.get_relation(), "weather");
    assert_eq!(weather.get_len(), 5);
    assert_eq!(weather.get_data_len(), 3);
    let attributes = weather.get_attributes();
    let labels: Vec<&str> = attributes.iter().map(|a| a.label.as_str()).collect();
    assert_eq!(labels, vec!["outlook", "temperature", "humidity", "wind speed", "note"]);

    let outlook = attributes[0].assume_nominal();
    assert_eq!(outlook.get_fields(), &["sunny", "overcast", "rainy"]);
    assert_eq!(outlook.get_data(), &[0, 1, 2]);
    assert_eq!(outlook.get(2), "rainy");
    match attributes[1].get_data() {
        Data::Numeric(values) => assert_eq!(values, &vec![85_000_000, 83_000_000, -2_500_000]),
        _ => panic!("temperature is numeric"),
    }
    match attributes[2].get_data() {
        Data::Real(values) => assert_eq!(values, &vec![85_500_000, 86_000_000, 750_000]),
        _ => panic!("humidity is real"),
    }
    let wind = attributes[3].assume_nominal();
    assert_eq!(wind.get_fields(), &["TRUE", "FALSE"]);
    assert_eq!(wind.get_data(), &[1, 0, 0]);
    match attributes[4].get_data() {
        Data::String(values) => assert_eq!(values, &vec!["hot", "very hot", "mild"]),
        _ => panic!("note is a string"),
    }
    assert_eq!(weather.get_value(0, 1), DataEntry::Nominal(1));
    assert_eq!(weather.get_value(1, 2), DataEntry::Numeric(-2_500_000));
}

#[test]
fn carriage_returns_and_a_missing_last_line_feed_do_no_harm() {
    let small =
        DataSet::import("@relation r\r\n@attribute a {x,y}\r\n@data\r\nx\r\ny\r\nx").unwrap();
    assert_eq!(small.get_relation(), "r");
    assert_eq!(small.get_attributes()[0].assume_nominal().get_data(), &[0, 1, 0]);
}

#[test]
fn a_relation_without_rows_or_attributes_is_read() {
    let bare = DataSet::import("@relation bare @data").unwrap();
    assert_eq!(bare.get_relation(), "bare");
    assert_eq!(bare.get_len(), 0);
    assert_eq!(bare.get_data_len(), 0);
    let no_rows = DataSet::import("@relation 'no rows'\n@attribute a numeric\n@data\n  \n").unwrap();
    assert_eq!(no_rows.get_relation(), "no rows");
    assert_eq!(no_rows.get_len(), 1);
    assert_eq!(no_rows.get_data_len(), 0);
}

#[test]
fn types_that_are_not_known_are_kept_by_name() {
    let odd = DataSet::import("@relation r\n@attribute a integer\n@attribute b date\n@data\n")
        .unwrap();
    match odd.get_attributes()[0].get_data() {
        Data::NotImplemented(name) => assert_eq!(name, "integer"),
        _ => panic!("integer is not implemented"),
    }
    assert!(matches!(odd.get_attributes()[1].get_data(), Data::Date(_)));
    // their values cannot be read
    assert!(matches!(
        DataSet::import("@relation r\n@attribute a integer\n@data\n1\n"),
        Err(ParseError::UnsupportedType)
    ));
    assert!(matches!(
        DataSet::import("@relation r\n@attribute b date\n@data\n2020-01-01\n"),
        Err(ParseError::UnsupportedType)
    ));
    // the names of the types are told apart by case
    match DataSet::import("@relation r\n@attribute a NUMERIC\n@data\n").unwrap().get_attributes()[0]
        .get_data()
    {
        Data::NotImplemented(name) => assert_eq!(name, "NUMERIC"),
        _ => panic!("NUMERIC is not implemented"),
    }
}

fn failure(source: &str) -> ParseError {
    match DataSet::import(source) {
        Err(error) => error,
        Ok(_) => panic!("the text was read: {}", source),
    }
}

#[test]
fn texts_that_are_no_relation_are_refused() {
    assert_eq!(failure(""), ParseError::NoRelationTag);
    assert_eq!(failure("@attribute a numeric\n@data\n1\n"), ParseError::NoRelationTag);
    assert_eq!(failure("@relation"), ParseError::EndOfFile);
    assert_eq!(failure("@relation 'r"), ParseError::MissingSingleQuote);
    assert_eq!(failure("@relation r\n@attribute a numeric\n"), ParseError::NoDataTag);
    assert_eq!(failure("@relation r\n@attribute a\n@data\n"), ParseError::EndOfFile);
    assert_eq!(failure("@relation r\n@attribute\n@data\n"), ParseError::EndOfFile);
    assert_eq!(failure("@relation r\n@attribute a {x,y\n@data\n"), ParseError::MissingClosingBrace);
    assert_eq!(failure("@relation r\n@attribute a {x,,y}\n@data\n"), ParseError::EndOfFile);
    assert_eq!(failure("@relation r\n@attribute a {}\n@data\n"), ParseError::EndOfFile);
    assert_eq!(failure("@relation r\n@attribute a {'x,y'}\n@data\n"), ParseError::MissingSingleQuote);
    assert_eq!(failure("@relation r\n@attribute a ñ\n@data\n"), ParseError::UnreadableCharacter);
    assert_eq!(failure("@relation r\nñ\n@data\n"), ParseError::UnreadableCharacter);
    assert_eq!(failure("@relation r\n\"x\n@data\n"), ParseError::MissingDoubleQuote);
}

#[test]
fn rows_that_do_not_fit_the_attributes_are_refused() {
    let head = "@relation r\n@attribute a numeric\n@attribute b {x,y}\n@data\n";
    let with = |rows: &str| failure(&format!("{}{}", head, rows));
    assert_eq!(with("1,x,2\n"), ParseError::TooManyValues);
    assert_eq!(with("1,z\n"), ParseError::UnknownField);
    assert_eq!(with("1,X\n"), ParseError::UnknownField);
    assert_eq!(with("one,x\n"), ParseError::NotANumber);
    assert_eq!(with("1,x\n 2,y\n"), ParseError::NotANumber);
    assert_eq!(with("1 ,x\n"), ParseError::NotANumber);
    assert_eq!(with("1e3,x\n"), ParseError::NotANumber);
    assert_eq!(with("1,x\n\n2,y\n"), ParseError::NotANumber);
    assert_eq!(with("1,\n"), ParseError::EndOfFile);
    assert_eq!(with("99999999999999,x\n"), ParseError::NumberOutOfRange);
    assert_eq!(with("1,'x\n"), ParseError::MissingSingleQuote);
    assert_eq!(with("% no remark is allowed here\n"), ParseError::NotANumber);
    // the first failure is reported
    assert_eq!(with("1,x\nz,z\n"), ParseError::NotANumber);
    assert_eq!(with("1,x\n2,z,3\n"), ParseError::UnknownField);
    // a row may be short
    let short = DataSet::import(&format!("{}{}", head, "1,x\n2\n3,y\n")).unwrap();
    match short.get_attributes()[0].get_data() {
        Data::Numeric(values) => assert_eq!(values, &vec![1_000_000, 2_000_000, 3_000_000]),
        _ => panic!("a is numeric"),
    }
    assert_eq!(short.get_attributes()[1].assume_nominal().get_data(), &[0, 1]);
}

#[test]
fn only_lines_that_start_with_the_attribute_tag_declare_attributes() {
    let read = DataSet::import(
        "@relation r\n@ATTRIBUTE a numeric\nattribute b numeric\n@attribute c numeric\n@attributes d numeric\n@data\n5\n",
    )
    .unwrap();
    assert_eq!(read.get_len(), 1);
    assert_eq!(read.get_attributes()[0].label, "c");
    // the first relation tag and the first data tag count, wherever they stand
    let read = DataSet::import("% @relation x\n@relation y\n@attribute a numeric\n@data\n1\n")
        .unwrap();
    assert_eq!(read.get_relation(), "x");
    assert_eq!(
        failure("@relation r\n% before @data\n@attribute a numeric\n@data\n1\n"),
        ParseError::TooManyValues
    );
    // white space before the first row is passed over
    let read = DataSet::import("@relation r\n@attribute a numeric\n@data \n\n  7\n8\n").unwrap();
    assert!(matches!(read.get_attributes()[0].get_data(), Data::Numeric(values) if values == &vec![7_000_000, 8_000_000]));
}

#[test]
fn an_attribute_is_declared_word_by_word() {
    let line = chars("  'my label'  {a, 'b c' ,d}  rest");
    let mut parser = Parser::new(&line, 0);
    let attribute = parser.parse_attribute().unwrap();
    assert_eq!(attribute.label, "my label");
    assert_eq!(attribute.assume_nominal().get_fields(), &["a", "b c", "d"]);
    assert_eq!(parser.parse_string().map(text), Ok("rest".to_string()));

    let line = chars("size real");
    let attribute = Parser::new(&line, 0).parse_attribute().unwrap();
    assert_eq!(attribute.label, "size");
    assert!(matches!(attribute.get_data(), Data::Real(values) if values.is_empty()));

    let line = chars("{a,b} tail");
    let mut parser = Parser::new(&line, 0);
    assert!(matches!(parser.parse_nominal(), Ok(Data::Nominal(_))));
    assert_eq!(parser.parse_string().map(text), Ok("tail".to_string()));
    let line = chars("a,b}");
    assert!(matches!(
        Parser::new(&line, 0).parse_nominal(),
        Err(ParseError::MissingOpeningBrace)
    ));
}

#[test]
fn values_are_added_to_their_column() {
    let line = chars("{a,b}");
    let mut attribute = arff_reader::data_set::Attribute {
        label: "x".to_string(),
        data: Parser::new(&line, 0).parse_nominal().unwrap(),
    };
    assert_eq!(attribute.parse_value(&chars(" b ")), Ok(()));
    assert_eq!(attribute.parse_value(&chars("'a'")), Ok(()));
    assert_eq!(attribute.parse_value(&chars("c")), Err(ParseError::UnknownField));
    assert_eq!(attribute.parse_value(&chars("")), Err(ParseError::EndOfFile));
    assert_eq!(attribute.assume_nominal().get_data(), &[1, 0]);

    let mut numbers = arff_reader::data_set::Attribute {
        label: "n".to_string(),
        data: Data::Numeric(Vec::new()),
    };
    assert_eq!(numbers.parse_value(&chars("1.5")), Ok(()));
    assert_eq!(numbers.parse_value(&chars("x")), Err(ParseError::NotANumber));
    assert_eq!(numbers.parse_value(&chars("-3")), Ok(()));
    assert!(matches!(numbers.get_data(), Data::Numeric(values) if values == &vec![1_500_000, -3_000_000]));
}
