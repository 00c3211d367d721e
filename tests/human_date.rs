use importer::human_date::{
    ErrorLocation, ErrorPosition, ErrorRange, HumanDate, Month, Token, TokenData, TokenError,
    TokenErrorReason, Tokenize,
};

fn check_token(mut string: &str, token: Token, residual: &str) {
    assert_eq!(Token::parse(&mut string), Ok(token));
    assert_eq!(string, residual);
}

#[test]
fn parse_tokens() {
    check_token("str.x", Token { pos: 0..3, data: TokenData::String("str") }, ".x");
    check_token("x.", Token { pos: 0..1, data: TokenData::String("x") }, ".");
    check_token(".x", Token { pos: 0..1, data: TokenData::Punctuation('.') }, "x");

    check_token("x ", Token { pos: 0..1, data: TokenData::String("x") }, " ");

    check_token(" .", Token { pos: 1..2, data: TokenData::Punctuation('.') }, "");
    check_token(" x", Token { pos: 1..2, data: TokenData::String("x") }, "");

    check_token("50", Token { pos: 0..2, data: TokenData::Number(50) }, "");
}

#[test]
fn tokenize() {
    assert_eq!(Tokenize::new(" str .  5 ").collect_tokens(), &[
        Ok(Token { pos: 1..4, data: TokenData::String("str") }),
        Ok(Token { pos: 5..6, data: TokenData::Punctuation('.') }),
        Ok(Token { pos: 8..9, data: TokenData::Number(5) })
    ]);
}

#[test]
fn parse_date() {
    assert_eq!(HumanDate::parse("February 2024"), Ok(HumanDate { year: 2024, month: Some(Month::February) }));
    assert_eq!(HumanDate::parse("Feb 2024"), Ok(HumanDate { year: 2024, month: Some(Month::February) }));
    assert_eq!(HumanDate::parse("Feb. 2024"), Ok(HumanDate { year: 2024, month: Some(Month::February) }));
    assert_eq!(HumanDate::parse("2024"), Ok(HumanDate { year: 2024, month: None }));

    assert!(HumanDate::parse("Febr 2024").is_err());
    assert!(HumanDate::parse("February. 2024").is_err());
    assert!(HumanDate::parse(". 2024").is_err());

    assert!(HumanDate::parse("February").is_err());
    assert!(HumanDate::parse("").is_err());
    assert!(HumanDate::parse("February 2024 X").is_err());
}

#[test]
fn token_positions_count_bytes() {
    // 'é' takes two bytes, so the word starts at byte 3.
    let mut s = "\u{e9} abc";
    assert_eq!(
        Token::parse(&mut s),
        Err(TokenError {
            position: ErrorPosition::Char(ErrorLocation { byte: 0 }),
            reason: TokenErrorReason::Unrecognized('\u{e9}'),
        })
    );
    let mut t = "\u{a0}abc";
    assert_eq!(Token::parse(&mut t), Ok(Token { pos: 2..5, data: TokenData::String("abc") }));
    assert_eq!(t, "");
}

#[test]
fn token_number_overflow() {
    let mut s = "99999999999999999999 x";
    assert_eq!(
        Token::parse(&mut s),
        Err(TokenError {
            position: ErrorPosition::Range(ErrorRange { bytes: 0..20 }),
            reason: TokenErrorReason::InternalParseError,
        })
    );
    assert_eq!(s, "99999999999999999999 x");
}

#[test]
fn empty_input_has_no_token() {
    let mut s = "   ";
    assert_eq!(
        Token::parse(&mut s),
        Err(TokenError { position: ErrorPosition::Global, reason: TokenErrorReason::Empty })
    );
}

#[test]
fn date_errors_name_their_place() {
    let e = HumanDate::parse("Febr 2024").unwrap_err();
    assert_eq!(e.position, ErrorPosition::Range(ErrorRange { bytes: 0..4 }));
    let e = HumanDate::parse("February. 2024").unwrap_err();
    assert_eq!(e.position, ErrorPosition::Char(ErrorLocation { byte: 8 }));
    let e = HumanDate::parse("Feb 2024 X").unwrap_err();
    assert_eq!(e.position, ErrorPosition::Global);
    assert_eq!(e.input, "Feb 2024 X");
}

#[test]
fn month_abbreviations() {
    assert_eq!(Month::parse("Sept").map(|p| p.month), Ok(Month::September));
    assert!(Month::parse("Sept").unwrap().is_short);
    assert!(!Month::parse("May").unwrap().is_short);
    assert!(Month::parse("Mar").is_err());
    assert_eq!(HumanDate::parse("Dec. 1999"), Ok(HumanDate { year: 1999, month: Some(Month::December) }));
}

#[test]
fn char_positions_from_bytes() {
    let loc = ErrorLocation::new(3);
    assert_eq!(loc.char_index("\u{e9} abc"), 2);
    let range = ErrorRange::new(0..3);
    assert_eq!(range.char_range("\u{e9} abc"), 0..2);
}
