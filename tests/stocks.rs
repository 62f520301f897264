use std::collections::HashSet;

use wfwalk::stocks::parser::{parse_name, parse_num, parse_symbol, parse_tag, parse_tags};
use wfwalk::stocks::{parse_stock, ParseError, Stock};

fn tags(v: Vec<&str>) -> Vec<String> {
    v.into_iter().map(|s| s.to_string()).collect()
}

fn num_of(s: &Stock) -> f32 {
    s.num.parse::<f32>().unwrap()
}

fn check_bad_stock() {
    let stock = parse_stock("CL - -33 - @etrade @longshort @short").unwrap();
    assert_eq!("CL", stock.symbol);
    assert_eq!(None, stock.name);
    assert_eq!(-33.0, num_of(&stock));
    assert_eq!(tags(vec!["@etrade", "@longshort", "@short"]), stock.tags);
    assert!(stock.lots.is_empty());
}

fn check_stock() {
    let s = parse_stock("AAPL - Apple Computer - 3 - @foo #bar").unwrap();
    assert_eq!("AAPL", s.symbol);
    assert_eq!(Some("Apple Computer".to_string()), s.name);
    assert_eq!(3.0, num_of(&s));
    assert_eq!(tags(vec!["@foo", "#bar"]), s.tags);

    // Test missing name
    let s = parse_stock("AAPL - 3 - @foo").unwrap();
    assert_eq!("AAPL", s.symbol);
    assert_eq!(None, s.name);
    assert_eq!(3.0, num_of(&s));
    assert_eq!(tags(vec!["@foo"]), s.tags);

    // Test missing tags
    let s = parse_stock("AAPL - Apple Computer - 3").unwrap();
    assert_eq!("AAPL", s.symbol);
    assert_eq!(Some("Apple Computer".to_string()), s.name);
    assert_eq!(3.0, num_of(&s));
    assert!(s.tags.is_empty());

    // Test missing both name and tags
    let s = parse_stock("AAPL - 3").unwrap();
    assert_eq!("AAPL", s.symbol);
    assert_eq!(None, s.name);
    assert_eq!(3.0, num_of(&s));
    assert!(s.tags.is_empty());

    assert!(parse_stock("").is_err());
    assert!(parse_stock("FOO").is_err());
    assert!(parse_stock("FOO - BAR").is_err());
    assert!(parse_stock("FOO - BAR - BAZ - QUUX - BAM").is_err());
}

fn check_symbol() {
    assert_eq!("AAPL", parse_symbol("AAPL").unwrap());
    assert_eq!("AAPL", parse_symbol("   AAPL").unwrap());
    assert_eq!("AAPL", parse_symbol("AAPL   ").unwrap());
    assert_eq!("AAPL", parse_symbol("  AAPL    ").unwrap());

    assert_eq!("BRK.B", parse_symbol("  BRK.B  ").unwrap());

    assert!(parse_symbol("NO SPACES").is_err());
    assert!(parse_symbol("nolower").is_err());
    assert!(parse_symbol("nopunct!").is_err());
}

fn check_name() {
    assert_eq!("quux", parse_name("quux").unwrap());
    assert_eq!("quux bar", parse_name("quux bar").unwrap());
    assert_eq!("quux bar", parse_name("   quux bar").unwrap());
    assert_eq!("quux bar", parse_name("quux bar   ").unwrap());
    assert_eq!("quux bar", parse_name("    quux bar   ").unwrap());

    assert_eq!("!#@# \t\n!!@@", parse_name("  !#@# \t\n!!@@     ").unwrap());
}

fn num(s: &str) -> Result<f32, ParseError> {
    parse_num(s).map(|t| t.parse::<f32>().unwrap())
}

fn check_num() {
    assert_eq!(3.14, num("3.14").unwrap());
    assert_eq!(-3.14, num("-3.14").unwrap());
    assert_eq!(3.14, num("  3.14").unwrap());
    assert_eq!(3.14, num("3.14  ").unwrap());
    assert_eq!(3.14, num("   3.14  ").unwrap());

    assert_eq!(3.0, num("3").unwrap());
    assert_eq!(-3.0, num("-3").unwrap());

    assert_eq!(0.0, num("0").unwrap());
    assert_eq!(0.0, num("000").unwrap());
    assert_eq!(0.0, num("-000").unwrap());

    assert!(num("xxx").is_err());
}

fn set_of(v: Vec<String>) -> HashSet<String> {
    v.into_iter().collect()
}

fn check_tags_as_set() {
    assert_eq!(HashSet::<String>::new(), set_of(parse_tags("").unwrap()));
    assert_eq!(set_of(tags(vec!["@one"])), set_of(parse_tags("@one").unwrap()));
    assert_eq!(
        set_of(tags(vec!["@one", "#two", "@three"])),
        set_of(parse_tags("@one #two @three").unwrap())
    );
    assert_eq!(
        set_of(tags(vec!["@one", "#two", "@three"])),
        set_of(parse_tags("  @one #two @three  ").unwrap())
    );
    assert_eq!(
        set_of(tags(vec!["@one", "#two", "@three"])),
        set_of(parse_tags("@one    #two   @three").unwrap())
    );
}

fn check_tags_in_order() {
    assert_eq!(Vec::<String>::new(), parse_tags("").unwrap());
    assert_eq!(tags(vec!["@one"]), parse_tags("@one").unwrap());
    assert_eq!(
        tags(vec!["@one", "#two", "@three"]),
        parse_tags("@one #two @three").unwrap()
    );
    assert_eq!(
        tags(vec!["@one", "#two", "@three"]),
        parse_tags("  @one #two @three  ").unwrap()
    );
    assert_eq!(
        tags(vec!["@one", "#two", "@three"]),
        parse_tags("@one    #two   @three").unwrap()
    );
}

fn check_tag() {
    assert_eq!("@foo", parse_tag("@foo").unwrap());
    assert_eq!("@foo", parse_tag("   @foo").unwrap());
    assert_eq!("@foo", parse_tag("@foo   ").unwrap());
    assert_eq!("@foo", parse_tag("   @foo   ").unwrap());

    assert_eq!("#quux", parse_tag("  #quux  ").unwrap());

    assert!(parse_tag("xxx").is_err());
    assert!(parse_tag("@ foo").is_err());
}

#[test]
fn stocks_test_bad_stock() {
    check_bad_stock();
}

#[test]
fn parser_test_bad_stock() {
    check_bad_stock();
}

#[test]
fn stocks_test_stock() {
    check_stock();
}

#[test]
fn parser_test_stock() {
    check_stock();
}

#[test]
fn stocks_test_symbol() {
    check_symbol();
}

#[test]
fn parser_test_symbol() {
    check_symbol();
}

#[test]
fn stocks_test_name() {
    check_name();
}

#[test]
fn parser_test_name() {
    check_name();
}

#[test]
fn stocks_test_num() {
    check_num();
}

#[test]
fn parser_test_num() {
    check_num();
}

#[test]
fn stocks_test_tags() {
    check_tags_in_order();
}

#[test]
fn parser_test_tags() {
    check_tags_as_set();
}

#[test]
fn stocks_test_tag() {
    check_tag();
}

#[test]
fn parser_test_tag() {
    check_tag();
}

#[test]
fn parse_errors_name_their_cause() {
    assert_eq!(Err(ParseError::BadTag), parse_tag("xxx"));
    assert_eq!(Err(ParseError::TagWhiteSpace), parse_tag("@ foo"));
    assert_eq!(Err(ParseError::BadSymbol), parse_symbol("nolower"));
    assert_eq!(Err(ParseError::BadNumber), parse_num("1.2.3"));
    assert_eq!(Err(ParseError::BadNumber), parse_num("-"));
    assert_eq!(Err(ParseError::MissingComponents), parse_stock("FOO").map(|_| ()));
    assert_eq!(
        Err(ParseError::ExtraComponents),
        parse_stock("FOO - BAR - BAZ - QUUX - BAM").map(|_| ())
    );
    assert_eq!(Err(ParseError::BadNumber), parse_stock("FOO - BAR").map(|_| ()));
    assert_eq!(Err(ParseError::BadTag), parse_stock("FOO - 3 - foo").map(|_| ()));
}

#[test]
fn names_trim_unicode_white_space() {
    assert_eq!("quux", parse_name("\u{3000}quux\u{a0}").unwrap());
}
