use postfix_rs::numbers::{append_isize, parse_isize, parse_usize};
use postfix_rs::parser::{lexer, Token};
use postfix_rs::rewrite::{
    skip_identifier, skip_number, skip_paren, skip_whitespace, split_prefix_pattern, step,
};
use postfix_rs::text::to_chars;

fn written(x: isize) -> String {
    let mut s = String::new();
    append_isize(&mut s, x);
    s
}

#[test]
fn numbers_are_written_as_to_string_writes_them() {
    for x in [0, 7, 10, -40, 42, isize::MIN, isize::MAX, -1, 1000] {
        assert_eq!(written(x), x.to_string());
    }
    let mut s = String::from("n=");
    append_isize(&mut s, -12);
    assert_eq!(s, "n=-12");
}

#[test]
fn written_numbers_read_back() {
    for x in [0, 7, 10, -40, 42, isize::MIN, isize::MAX] {
        let c = to_chars(&written(x));
        assert_eq!(parse_isize(&c, 0, c.len()), Some(x));
    }
}

#[test]
fn numbers_read_as_str_parse_reads_them() {
    let cases = [
        "0", "-0", "+5", "-", "+", "", "12a", "007", "9223372036854775807",
        "9223372036854775808", "-9223372036854775808", "-9223372036854775809", "٣", " 1",
    ];
    for t in cases {
        let c = to_chars(t);
        assert_eq!(parse_isize(&c, 0, c.len()), t.parse::<isize>().ok(), "{:?}", t);
        assert_eq!(parse_usize(&c, 0, c.len()), t.parse::<usize>().ok(), "{:?}", t);
    }
    let c = to_chars("x-12y");
    assert_eq!(parse_isize(&c, 1, 4), Some(-12));
}

#[test]
fn written_numbers_lex_back() {
    for x in [0, 7, -40, isize::MIN, isize::MAX] {
        let tokens: Vec<Token> = lexer(&written(x)).unwrap().into_iter().collect();
        assert_eq!(tokens, vec![Token::Number(x), Token::EOF]);
    }
}

#[test]
fn lexed_tokens_end_with_one_end_token() {
    for text in ["", "(postfix 1 2)", "a b c", "((("] {
        let tokens: Vec<Token> = lexer(text).unwrap().into_iter().collect();
        assert_eq!(tokens.last(), Some(&Token::EOF));
        assert_eq!(tokens.iter().filter(|t| **t == Token::EOF).count(), 1);
    }
}

#[test]
fn a_step_keeps_or_clears_the_arguments() {
    let cases = [
        ("(postfix 2 add)", "3 4"),
        ("(postfix 0 3 4 add)", ""),
        ("(postfix 0 3 4)", " \t "),
        ("(postfix 0 3 4)", ""),
    ];
    for (p, a) in cases {
        let (np, na) = step(p, a).unwrap();
        assert!((np == p && na == a) || na.is_empty(), "{} {}", p, a);
    }
    // a final program keeps its arguments, which can only be white space
    assert_eq!(
        step("(postfix 0 3 4)", " \t "),
        Ok(("(postfix 0 3 4)".to_string(), " \t ".to_string()))
    );
    assert!(step("(postfix 0 3 4)", " 5 ").is_err());
}

#[test]
fn a_loaded_program_is_rewritten_next() {
    let (p, a) = step("(postfix 2 add)", "3 4").unwrap();
    assert_eq!(p, "(postfix 0 4 3 add)");
    assert_eq!(a, "");
    assert_eq!(step(&p, &a), Ok(("(postfix 0 7)".to_string(), String::new())));
    let (p, a) = step("(postfix(postfix 1 pop)", "-5").unwrap();
    assert_eq!(p, "(postfix 0 -5 pop)");
    assert_eq!(step(&p, &a), Ok(("(postfix 0 )".to_string(), String::new())));
}

#[test]
fn a_split_puts_the_text_back_together() {
    let cases: [(&str, fn(&str) -> &str); 6] = [
        ("12 add", skip_number),
        ("(1 (2)) 3", skip_paren),
        ("  x", skip_whitespace),
        ("swap)", skip_identifier),
        ("-7)", skip_number),
        ("é1)", skip_identifier),
    ];
    for (text, pat) in cases {
        let (prefix, rest) = split_prefix_pattern(text, pat).unwrap();
        assert!(!prefix.is_empty());
        assert_eq!(format!("{}{}", prefix, rest), text);
    }
    assert_eq!(split_prefix_pattern("x", skip_number), None);
}

#[test]
fn character_classes_beyond_ascii() {
    assert_eq!(skip_identifier("éa1"), "1");
    assert_eq!(skip_identifier("1a"), "1a");
    assert_eq!(skip_number("1٣x"), "x");
    assert_eq!(skip_number("1x"), "x");
    assert_eq!(skip_number("0٣"), "٣");
    assert_eq!(skip_number("0٣ rest"), "٣ rest");
    assert_eq!(skip_number("05"), "05");
    assert_eq!(skip_whitespace("\u{a0}\u{2003}y"), "y");
}

#[test]
fn white_space_agrees_with_std_on_every_char() {
    for u in 0u32..=0x10FFFF {
        if let Some(c) = char::from_u32(u) {
            assert_eq!(postfix_rs::chars::is_whitespace(c), c.is_whitespace(), "{:x}", u);
        }
    }
}

#[test]
fn the_count_stays_zero_while_rewriting() {
    let mut p = "(postfix 2 (mul sub) (1 nget mul) 4 nget swap exec swap exec)".to_string();
    let mut a = "-10 2".to_string();
    loop {
        let (np, na) = step(&p, &a).unwrap();
        assert!(np.starts_with("(postfix 0 "), "{}", np);
        if np == p {
            break;
        }
        p = np;
        a = na;
    }
    assert_eq!(p, "(postfix 0 42)");
    // Without white space after the count, a rewrite can run into the count.
    let (np, _) = step("(postfix 0(1 2)exec)", "").unwrap();
    assert_eq!(np, "(postfix 01 2)");
    assert!(step(&np, "").is_err());
}

#[test]
fn a_step_leaves_white_arguments_and_final_programs_are_fixed() {
    let cases = [
        ("(postfix 0 3 4)", " \t "),
        ("(postfix 0 3 4)", ""),
        ("(postfix 2 add)", "3 4"),
        ("(postfix 0 3 4 add)", ""),
        ("(postfix 0 (1 2) exec)", " "),
        ("(postfix 0 (x exec) exec)", ""),
    ];
    for (p, a) in cases {
        let (np, na) = step(p, a).unwrap();
        assert!(na.chars().all(|c| c.is_whitespace()), "{} {}", p, a);
        if np == p {
            assert_eq!(na, a);
            assert_eq!(step(&np, &na), Ok((np.clone(), na.clone())));
        } else {
            assert_eq!(na, "");
        }
    }
}

#[test]
fn lexing_two_texts_joined_by_a_space() {
    let pairs = [
        ("(postfix 1", "2 add)"),
        ("ab", "cd"),
        ("", "x"),
        ("12", ""),
        ("-", "1"),
        ("1", "!"),
    ];
    for (s, t) in pairs {
        let joined = lexer(&format!("{} {}", s, t));
        match (lexer(s), lexer(t)) {
            (Err(e), _) => assert_eq!(joined, Err(e)),
            (Ok(_), Err(e)) => assert_eq!(joined, Err(e)),
            (Ok(ts), Ok(tt)) => {
                let mut expected: Vec<Token> = ts.into_iter().collect();
                expected.pop();
                expected.extend(tt);
                assert_eq!(joined.unwrap().into_iter().collect::<Vec<_>>(), expected);
            }
        }
    }
    // "ab" and "cd" joined by a space stay two words
    let tokens: Vec<Token> = lexer("ab cd").unwrap().into_iter().collect();
    assert_eq!(
        tokens,
        vec![Token::Command("ab".to_string()), Token::Command("cd".to_string()), Token::EOF]
    );
}
