use chem_planner::parser::lexical::{
    assert_token, digit, parse_amount, parse_digit, parse_name, parse_number, parse_priority,
    peek, to_upper, ParseError, ParseReason,
};
use chem_planner::chemicals::{NumberOperator, NumberToken};
use chem_planner::parser::grammar::{
    parse_base_chem, parse_compound, parse_group, parse_group_or_base, parse_subbed_chem,
    Substitution,
};
use chem_planner::text::push_decimal;

fn end() -> ParseError {
    ParseError { position: 0, reason: ParseReason::EndOfInput }
}

#[test]
fn numbers_are_written_in_decimal() {
    let mut text = "n=".to_string();
    push_decimal(&mut text, 0);
    push_decimal(&mut text, 7);
    push_decimal(&mut text, 10);
    push_decimal(&mut text, 18446744073709551615);
    assert_eq!(text, "n=071018446744073709551615");
}

#[test]
fn digits_and_capitals_are_ascii() {
    assert_eq!(digit('0'), Some(0));
    assert_eq!(digit('9'), Some(9));
    assert_eq!(digit('/'), None);
    assert_eq!(digit(':'), None);
    assert_eq!(digit('a'), None);
    assert_eq!(to_upper('a'), 'A');
    assert_eq!(to_upper('z'), 'Z');
    assert_eq!(to_upper('Q'), 'Q');
    assert_eq!(to_upper('_'), '_');
    assert_eq!(to_upper('{'), '{');
    assert_eq!(to_upper('`'), '`');
}

#[test]
fn characters_are_looked_at_and_stepped_over() {
    assert_eq!(peek("ab", 2, 1), Ok('b'));
    assert_eq!(peek("ab", 2, 2), Err(end()));
    assert_eq!(assert_token("ab", 2, 0, 'a'), Ok(1));
    assert_eq!(
        assert_token("ab", 2, 0, 'b'),
        Err(ParseError { position: 1, reason: ParseReason::Expected { wanted: 'b', found: 'a' } })
    );
    assert_eq!(assert_token("ab", 2, 2, 'b'), Err(end()));
    assert_eq!(parse_digit("a7", 2, 1), Some(7));
    assert_eq!(parse_digit("a7", 2, 0), None);
    assert_eq!(parse_digit("a7", 2, 2), None);
}

#[test]
fn quantities_are_numbers_or_fractions() {
    assert_eq!(parse_number("250:", 4, 0), Ok((NumberToken::Constant(250), 3)));
    assert_eq!(parse_number("x007", 4, 1), Ok((NumberToken::Constant(7), 4)));
    assert_eq!(parse_number("4294967295", 10, 0), Ok((NumberToken::Constant(u32::MAX), 10)));
    assert_eq!(
        parse_number("4294967296;", 11, 0),
        Err(ParseError { position: 1, reason: ParseReason::NumberTooLarge })
    );
    let third = NumberToken::Calculated(NumberOperator::new(1, 3));
    assert_eq!(parse_number("$/3:", 4, 0), Ok((third, 3)));
    assert_eq!(parse_number("$1/3:", 5, 0), Ok((third, 4)));
    assert_eq!(
        parse_number("$2/0", 4, 0),
        Ok((NumberToken::Calculated(NumberOperator::new(2, 0)), 4))
    );
    assert_eq!(
        parse_number("$12/3", 5, 0),
        Err(ParseError { position: 2, reason: ParseReason::Expected { wanted: '/', found: '2' } })
    );
    assert_eq!(parse_number("$", 1, 0), Err(end()));
    assert_eq!(parse_number("$1", 2, 0), Err(end()));
    assert_eq!(parse_number("$1/", 3, 0), Err(end()));
    assert_eq!(parse_number("", 0, 0), Err(end()));
    assert_eq!(
        parse_number(":5", 2, 0),
        Err(ParseError { position: 2, reason: ParseReason::NotANumber { found: ':' } })
    );
    assert_eq!(parse_amount("12;", 3, 0), Ok((12, 2)));
    assert_eq!(
        parse_amount("$/2;", 4, 0),
        Err(ParseError { position: 1, reason: ParseReason::FractionNotAllowed })
    );
}

#[test]
fn names_end_with_a_semicolon() {
    assert_eq!(parse_name("water;", 6, 0), Ok(5));
    assert_eq!(parse_name(";x;", 3, 0), Ok(2));
    assert_eq!(parse_name("a;b;", 4, 2), Ok(3));
    assert_eq!(parse_name("water", 5, 0), Err(end()));
    assert_eq!(parse_name("w", 1, 1), Err(end()));
    assert_eq!(parse_name(";", 1, 0), Err(end()));
}

#[test]
fn a_priority_may_follow() {
    assert_eq!(parse_priority("a;!12;b", 7, 2), Ok((12, 6)));
    assert_eq!(parse_priority("a;b", 3, 2), Ok((0, 2)));
    assert_eq!(parse_priority("a;", 2, 2), Ok((0, 2)));
    assert_eq!(parse_priority("!3", 2, 0), Err(end()));
    assert_eq!(
        parse_priority("!$/2;", 5, 0),
        Err(ParseError { position: 1, reason: ParseReason::FractionNotAllowed })
    );
    assert_eq!(
        parse_priority("!3:", 3, 0),
        Err(ParseError { position: 0, reason: ParseReason::Expected { wanted: ';', found: ':' } })
    );
}

#[test]
fn the_parts_of_the_notation_are_read_from_their_positions() {
    let table = vec![Substitution { name: "SALT".to_string(), formula: "(1:na;1:cl;)".to_string() }];
    let q = NumberToken::Constant(4);
    let (base, next) = parse_base_chem("4:salt;!2;", 10, 2, q).unwrap();
    assert_eq!((base.chemical.name.as_deref(), base.priority, next), (Some("salt"), 2, 10));
    let (group, next) = parse_group("4:(1:a;)@300;", 13, 2, q, &table, 0).unwrap();
    assert_eq!((group.chemical.chemicals.len(), group.chemical.temp, next), (1, Some(300), 13));
    let (empty, next) = parse_group("()", 2, 0, q, &table, 0).unwrap();
    assert_eq!((empty.chemical.chemicals.len(), empty.chemical.name.clone(), next), (0, None, 2));
    let (sub, next) = parse_subbed_chem("4:*Salt;!9;", 11, 2, q, &table, 1).unwrap();
    assert_eq!((sub.chemical.chemicals.len(), sub.priority, sub.quantity, next), (2, 9, q, 11));
    assert_eq!(
        parse_subbed_chem("4:*Salt;", 8, 2, q, &table, 0).unwrap_err(),
        ParseError { position: 0, reason: ParseReason::SubstitutionTooDeep }
    );
    let (token, next) = parse_group_or_base("7:x;8:y;", 8, 4, &table, 1).unwrap();
    assert_eq!((token.quantity, token.chemical.name.as_deref(), next), (NumberToken::Constant(8), Some("y"), 8));
    assert_eq!(parse_compound("4:", 2, 2, q, &table, 1).unwrap_err(), end());
    assert_eq!(
        parse_group("(1:a;]", 6, 0, q, &table, 1).unwrap_err(),
        ParseError { position: 1, reason: ParseReason::NotANumber { found: ']' } }
    );
    assert_eq!(
        parse_group("(1:a;)@300:", 11, 0, q, &table, 1).unwrap_err(),
        ParseError { position: 0, reason: ParseReason::Expected { wanted: ';', found: ':' } }
    );
}

#[test]
fn every_failure_has_its_message() {
    let reasons = [
        ParseReason::EndOfInput,
        ParseReason::Expected { wanted: 'a', found: 'b' },
        ParseReason::NotANumber { found: 'b' },
        ParseReason::BadDigit { found: 'b' },
        ParseReason::NumberTooLarge,
        ParseReason::FractionNotAllowed,
        ParseReason::UnknownSubstitution,
        ParseReason::SubstitutionTooDeep,
    ];
    let mut messages: Vec<&str> =
        reasons.iter().map(|r| ParseError { position: 0, reason: *r }.msg()).collect();
    assert_eq!(messages[0], "the recipe ends too early");
    assert_eq!(messages[6], "no premade recipe has this name");
    messages.sort();
    messages.dedup();
    assert_eq!(messages.len(), 8);
}
