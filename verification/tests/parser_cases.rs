use search_engine::parser::{parse_query, ParseError};
use search_engine::query::Query;

fn keyword_text(q: &Query) -> &str {
    match q {
        Query::KeyWord(s) => s.as_str(),
        _ => panic!("expected a keyword"),
    }
}

#[test]
fn single_word_is_a_keyword() {
    match parse_query("alpha").unwrap() {
        Query::KeyWord(s) => assert_eq!(s, "alpha"),
        _ => panic!("expected a keyword"),
    }
}

#[test]
fn operators_fold_left() {
    match parse_query("alpha & beta | gamma").unwrap() {
        Query::Or(l, r) => {
            assert_eq!(keyword_text(&r), "gamma");
            match *l {
                Query::And(ll, lr) => {
                    assert_eq!(keyword_text(&ll), "alpha");
                    assert_eq!(keyword_text(&lr), "beta");
                },
                _ => panic!("expected an and"),
            }
        },
        _ => panic!("expected an or"),
    }
}

#[test]
fn difference_operator_parses() {
    match parse_query("alpha - beta").unwrap() {
        Query::Diff(l, r) => {
            assert_eq!(keyword_text(&l), "alpha");
            assert_eq!(keyword_text(&r), "beta");
        },
        _ => panic!("expected a difference"),
    }
}

#[test]
fn quoted_phrase_is_one_keyword() {
    match parse_query("\"alpha beta\"").unwrap() {
        Query::KeyWord(s) => assert_eq!(s, "alpha beta"),
        _ => panic!("expected a keyword"),
    }
}

#[test]
fn empty_query_is_reported() {
    assert!(matches!(parse_query(""), Err(ParseError::EmptyQuery)));
    assert!(matches!(parse_query("   "), Err(ParseError::EmptyQuery)));
}

#[test]
fn misplaced_operators_are_reported() {
    assert!(matches!(parse_query("& alpha"), Err(ParseError::MisplacedOperator)));
    assert!(matches!(parse_query("alpha &"), Err(ParseError::MisplacedOperator)));
    assert!(matches!(parse_query("alpha & | beta"), Err(ParseError::MisplacedOperator)));
    assert!(matches!(parse_query("alpha beta"), Err(ParseError::MisplacedOperator)));
}

#[test]
fn unterminated_quote_is_reported() {
    assert!(matches!(parse_query("\"alpha"), Err(ParseError::UnterminatedQuote)));
}
