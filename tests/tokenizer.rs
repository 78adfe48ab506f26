use kane::{tokenize, Chars, Decimal, FileError, NextToken, Token, TokenError, Tokenizer};

fn lex(input: &str) -> Vec<NextToken> {
    tokenize(input.as_bytes().to_vec())
}

fn ident(s: &str) -> NextToken {
    Ok(Token::Identifier(s.to_string()))
}

fn float(negative: bool, whole: &str, fraction: &str) -> NextToken {
    Ok(Token::Float(Decimal {
        negative,
        whole: whole.to_string(),
        fraction: fraction.to_string(),
    }))
}

fn parse_error(line_num: usize, column_num: usize, character: char) -> NextToken {
    Err(TokenError::Parse { line_num, column_num, character })
}

fn cast_error(line_num: usize, column_num: usize, string: &str) -> NextToken {
    Err(TokenError::Cast { line_num, column_num, string: string.to_string() })
}

fn decimal_to_f32(d: &Decimal) -> f32 {
    let sign = if d.negative { "-" } else { "" };
    format!("{}{}.{}", sign, d.whole, d.fraction).parse::<f32>().unwrap()
}

#[test]
fn mixed_line_scenario() {
    assert_eq!(
        lex("12,3.5,ab\n"),
        vec![
            Ok(Token::Int(12)),
            Ok(Token::Comma),
            float(false, "3", "5"),
            Ok(Token::Comma),
            ident("ab"),
            Ok(Token::WhiteSpace),
        ]
    );
}

#[test]
fn digit_followed_by_letter_is_parse_error() {
    let results = lex("1x");
    assert_eq!(results[0], parse_error(0, 1, 'x'));
    // No recovery: the next pull starts again at the offending character.
    assert_eq!(results, vec![parse_error(0, 1, 'x'), ident("x")]);
}

#[test]
fn identifier_followed_by_comma_is_parse_error() {
    assert_eq!(lex("ab,"), vec![parse_error(0, 2, ','), Ok(Token::Comma)]);
}

#[test]
fn positions_across_a_line_end() {
    let mut t = Tokenizer::from_reader(b"ab\ncd".to_vec());
    assert_eq!((t.line_num(), t.column_num()), (0, 0));
    assert_eq!(t.next(), Some(ident("ab")));
    assert_eq!((t.line_num(), t.column_num()), (0, 2));
    assert_eq!(t.next(), Some(Ok(Token::WhiteSpace)));
    assert_eq!((t.line_num(), t.column_num()), (1, 0));
    assert_eq!(t.next(), Some(ident("cd")));
    assert_eq!((t.line_num(), t.column_num()), (1, 2));
    assert_eq!(t.next(), None);
}

#[test]
fn error_position_on_a_later_line() {
    assert_eq!(
        lex("a\n\n7;"),
        vec![ident("a"), Ok(Token::WhiteSpace), parse_error(2, 1, ';')]
    );
}

#[test]
fn comma_separated_ints() {
    assert_eq!(
        lex("1,22,333"),
        vec![
            Ok(Token::Int(1)),
            Ok(Token::Comma),
            Ok(Token::Int(22)),
            Ok(Token::Comma),
            Ok(Token::Int(333)),
        ]
    );
    assert_eq!(lex("007"), vec![Ok(Token::Int(7))]);
}

#[test]
fn negative_decimal_keeps_sign_and_value() {
    let results = lex("-12.50");
    assert_eq!(results, vec![float(true, "12", "50")]);
    match &results[0] {
        Ok(Token::Float(d)) => assert_eq!(decimal_to_f32(d), -12.5),
        other => panic!("unexpected {:?}", other),
    }
    match &lex("3.5")[0] {
        Ok(Token::Float(d)) => assert_eq!(decimal_to_f32(d), 3.5),
        other => panic!("unexpected {:?}", other),
    }
}

#[test]
fn decimal_with_one_empty_side() {
    assert_eq!(lex("1."), vec![float(false, "1", "")]);
    assert_eq!(lex("-.5"), vec![float(true, "", "5")]);
}

#[test]
fn whitespace_run_is_one_token() {
    assert_eq!(lex(" "), vec![Ok(Token::WhiteSpace)]);
    assert_eq!(lex("  \t\n\r  "), vec![Ok(Token::WhiteSpace)]);
    assert_eq!(lex("  1"), vec![Ok(Token::WhiteSpace), Ok(Token::Int(1))]);
}

#[test]
fn unstartable_input_is_empty() {
    assert_eq!(lex("#abc"), vec![]);
    assert_eq!(lex(""), vec![]);
    assert_eq!(lex("ab .x"), vec![ident("ab"), Ok(Token::WhiteSpace)]);
}

#[test]
fn relexing_is_identical() {
    let input = "12,3.5,ab\n1x -7 q,";
    assert_eq!(lex(input), lex(input));
}

#[test]
fn int_bounds() {
    assert_eq!(lex("2147483647"), vec![Ok(Token::Int(i32::MAX))]);
    assert_eq!(lex("-2147483648"), vec![Ok(Token::Int(i32::MIN))]);
    assert_eq!(lex("-0"), vec![Ok(Token::Int(0))]);
}

#[test]
fn int_overflow_is_cast_error() {
    assert_eq!(lex("2147483648"), vec![cast_error(0, 10, "2147483648")]);
    assert_eq!(
        lex("-99999999999,1"),
        vec![cast_error(0, 12, "-99999999999"), Ok(Token::Comma), Ok(Token::Int(1))]
    );
}

#[test]
fn lone_sign_is_cast_error() {
    assert_eq!(lex("-"), vec![cast_error(0, 1, "-")]);
    assert_eq!(lex("- "), vec![cast_error(0, 1, "-"), Ok(Token::WhiteSpace)]);
    assert_eq!(lex("-."), vec![cast_error(0, 2, "-.")]);
}

#[test]
fn parse_error_inside_decimal() {
    assert_eq!(lex("1.2x"), vec![parse_error(0, 3, 'x'), ident("x")]);
    assert_eq!(lex("4.5.6"), vec![parse_error(0, 3, '.')]);
}

#[test]
fn identifier_with_digits() {
    assert_eq!(lex("abc1 Z9"), vec![ident("abc1"), Ok(Token::WhiteSpace), ident("Z9")]);
}

#[test]
fn comma_alone() {
    assert_eq!(lex(","), vec![Ok(Token::Comma)]);
    assert_eq!(lex(",,"), vec![Ok(Token::Comma), Ok(Token::Comma)]);
}

#[test]
fn chars_peek_and_next() {
    let mut c = Chars::new(b"a,".to_vec());
    assert_eq!(c.peek(), Some('a'));
    assert_eq!(c.peek(), Some('a'));
    assert_eq!(c.next(), Some('a'));
    assert_eq!(c.peek(), Some(','));
    assert_eq!(c.next(), Some(','));
    assert_eq!(c.peek(), None);
    assert_eq!(c.next(), None);
}

#[test]
fn tokenizer_pulls_one_at_a_time() {
    let mut t = Tokenizer::from_reader(b"5 ,".to_vec());
    assert_eq!(t.next(), Some(Ok(Token::Int(5))));
    assert_eq!(t.next(), Some(Ok(Token::WhiteSpace)));
    assert_eq!(t.next(), Some(Ok(Token::Comma)));
    assert_eq!(t.next(), None);
    assert_eq!(t.collect_all(), vec![]);
}

#[test]
fn file_error_keeps_path() {
    let e = FileError::NotFound("assets/plane.kane".to_string());
    assert_eq!(e, FileError::NotFound("assets/plane.kane".to_string()));
    assert_ne!(e, FileError::CouldNotRead("assets/plane.kane".to_string()));
}
