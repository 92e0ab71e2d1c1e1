use stratum::hex::{decode, encode};
use stratum::query::lexer::{tokenize, Token};

#[test]
fn hex_encoding_is_lower_case_and_round_trips() {
    assert_eq!(encode(&[0x00, 0xff, 0x1a]), "00ff1a");
    let chars: Vec<char> = "00FF1a".chars().collect();
    assert_eq!(decode(&chars), Some(vec![0x00, 0xff, 0x1a]));
    let odd: Vec<char> = "abc".chars().collect();
    assert_eq!(decode(&odd), None);
    let bad: Vec<char> = "zz".chars().collect();
    assert_eq!(decode(&bad), None);
}

#[test]
fn tokenizer_splits_a_query() {
    let toks = tokenize("FIND records WHERE schema = \"x\" LIMIT 3");
    assert_eq!(toks.len(), 9);
    assert!(matches!(toks[8], Token::Eof));
    assert!(matches!(&toks[5], Token::StringLit(s) if s == "x"));
}

#[test]
fn reserved_words_lex_in_any_case() {
    let toks = tokenize("find");
    assert_eq!(toks.len(), 2);
    assert!(matches!(toks[0], Token::Keyword(_)));
    let upper = tokenize("FIND");
    let mixed = tokenize("fInD");
    assert!(matches!((&upper[0], &mixed[0]), (Token::Keyword(a), Token::Keyword(b)) if a == b));
    let other = tokenize("finder");
    assert!(matches!(&other[0], Token::Ident(s) if s == "finder"));
}
