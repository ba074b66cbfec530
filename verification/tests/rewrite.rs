use postfix_rs::rewrite::{
    skip_identifier, skip_number, skip_paren, skip_while, skip_whitespace, split_prefix_pattern,
    step, step_checked, step_overflows, trim, PostfixError,
};

#[test]
fn test_skip_while() {
    assert_eq!(
        skip_while("   string is here!", |c: char| c.is_whitespace()),
        "string is here!"
    );

    assert_eq!(
        skip_while("12345numbers are skipped!", |c: char| c.is_numeric()),
        "numbers are skipped!"
    );

    assert_eq!(skip_while("skip until end of slice", |_| true), "");

    assert_eq!(skip_while("none is skipped!", |_| false), "none is skipped!")
}

#[test]
fn test_split_prefix_pattern() {
    assert_eq!(
        split_prefix_pattern("1234rest", skip_number),
        Some(("1234", "rest"))
    );

    assert_eq!(
        split_prefix_pattern(
            "(this (parenthesized) part is skipped)this part is not skipped",
            skip_paren
        ),
        Some((
            "(this (parenthesized) part is skipped)",
            "this part is not skipped"
        ))
    );

    assert_eq!(
        split_prefix_pattern("01234 is not recognized as a number", skip_number),
        None
    );
}

fn run(program: &str, args: &str) -> Result<(String, String), PostfixError> {
    step(program, args)
}

#[test]
fn readme_sequence_of_steps() {
    let expected = [
        ("(postfix 2 (mul sub) (1 nget mul) 4 nget swap exec swap exec)", "-10 2"),
        ("(postfix 0 2 -10 (mul sub) (1 nget mul) 4 nget swap exec swap exec)", ""),
        ("(postfix 0 2 -10 (mul sub) (1 nget mul) 2 swap exec swap exec)", ""),
        ("(postfix 0 2 -10 (mul sub) 2 (1 nget mul) exec swap exec)", ""),
        ("(postfix 0 2 -10 (mul sub) 2 1 nget mul swap exec)", ""),
        ("(postfix 0 2 -10 (mul sub) 2 2 mul swap exec)", ""),
        ("(postfix 0 2 -10 (mul sub) 4 swap exec)", ""),
        ("(postfix 0 2 -10 4 (mul sub) exec)", ""),
        ("(postfix 0 2 -10 4 mul sub)", ""),
        ("(postfix 0 2 -40 sub)", ""),
        ("(postfix 0 42)", ""),
    ];
    for w in expected.windows(2) {
        let (p, a) = w[0];
        let (np, na) = w[1];
        assert_eq!(run(p, a), Ok((np.to_string(), na.to_string())));
    }
    // The last program is final: a step gives it back unchanged.
    assert_eq!(
        run("(postfix 0 42)", ""),
        Ok(("(postfix 0 42)".to_string(), String::new()))
    );
}

#[test]
fn step_wrong_argument_count() {
    assert_eq!(run("(postfix 2 add)", "1"), Err(PostfixError {}));
    assert_eq!(run("(postfix 0 add)", "1"), Err(PostfixError {}));
    assert_eq!(run("(postfix 1)", "x"), Err(PostfixError {}));
}

#[test]
fn step_missing_count_or_paren() {
    assert_eq!(run("(postfix add)", ""), Err(PostfixError {}));
    assert_eq!(run("(postfix 0 1 2", ""), Err(PostfixError {}));
    // a number with a leading zero is not recognised, so the count is missing
    assert_eq!(run("(postfix 01)", "1"), Err(PostfixError {}));
}

#[test]
fn step_loads_arguments_last_first() {
    assert_eq!(
        run("(postfix 3 add)", "1 +2 -3"),
        Ok(("(postfix 0 -3 2 1 add)".to_string(), String::new()))
    );
    assert_eq!(
        run("(postfix 1)", "  7  "),
        Ok(("(postfix 0 7)".to_string(), String::new()))
    );
}

#[test]
fn step_arithmetic() {
    let cases = [
        ("(postfix 0 7 3 add)", "(postfix 0 10)"),
        ("(postfix 0 7 3 sub)", "(postfix 0 4)"),
        ("(postfix 0 7 3 mul)", "(postfix 0 21)"),
        ("(postfix 0 7 3 div)", "(postfix 0 2)"),
        ("(postfix 0 -7 3 div)", "(postfix 0 -2)"),
        ("(postfix 0 7 3 rem)", "(postfix 0 1)"),
        ("(postfix 0 -7 3 rem)", "(postfix 0 -1)"),
        ("(postfix 0 7 3 lt)", "(postfix 0 0)"),
        ("(postfix 0 3 7 lt)", "(postfix 0 1)"),
        ("(postfix 0 7 3 gt)", "(postfix 0 1)"),
        ("(postfix 0 7 3 eq)", "(postfix 0 0)"),
        ("(postfix 0 3 3 eq)", "(postfix 0 1)"),
        ("(postfix 0 -9 -9 eq)", "(postfix 0 1)"),
        ("(postfix 0 9 1 sub)", "(postfix 0 8)"),
        ("(postfix 0 19 9 add)", "(postfix 0 28)"),
        ("(postfix 0 1 2 swap)", "(postfix 0 2 1)"),
        ("(postfix 0 1 2 3 pop)", "(postfix 0 1 2 )"),
        ("(postfix 0 ( 1 2 ) exec)", "(postfix 0 1 2)"),
        ("(postfix 0 0 2 5 sel)", "(postfix 0 5)"),
        ("(postfix 0 1 2 5 sel)", "(postfix 0 2)"),
        ("(postfix 0 5 6 0 nget)", "(postfix 0 5 6 0)"),
        ("(postfix 0 5 6 2 nget)", "(postfix 0 5 6 5)"),
        ("(postfix 0 1 2 add 3)", "(postfix 0 3 3)"),
    ];
    for (p, expected) in cases {
        assert_eq!(run(p, ""), Ok((expected.to_string(), String::new())), "{}", p);
    }
}

#[test]
fn step_errors() {
    let cases = [
        "(postfix 0 7 0 div)",
        "(postfix 0 7 0 rem)",
        "(postfix 0 1 add)",
        "(postfix 0 pop)",
        "(postfix 0 1 2 sel)",
        "(postfix 0 1 exec)",
        "(postfix 0 (1) 2 add)",
        "(postfix 0 1 3 nget)",
        "(postfix 0 1 -1 nget)",
        "(postfix 0 1 2 foo)",
        "(postfix 0 (1) 2 sel)",
        "(postfix 0 -9223372036854775808 -1 div)",
        "(postfix 0 1 2 add",
    ];
    for p in cases {
        assert_eq!(run(p, ""), Err(PostfixError {}), "{}", p);
    }
}

#[test]
fn step_final_programs_are_unchanged() {
    assert_eq!(
        run("(postfix 0 1 2 3)", ""),
        Ok(("(postfix 0 1 2 3)".to_string(), String::new()))
    );
    // scanning stops at a number with a leading zero, and no word follows
    assert_eq!(
        run("(postfix 0 05 3 add)", ""),
        Ok(("(postfix 0 05 3 add)".to_string(), String::new()))
    );
    assert_eq!(
        run("(postfix 0 (1 2) 3 !)", "  "),
        Ok(("(postfix 0 (1 2) 3 !)".to_string(), "  ".to_string()))
    );
}

#[test]
fn skips_on_slices() {
    assert_eq!(skip_whitespace(" \t\n x "), "x ");
    assert_eq!(skip_number("0123"), "0123");
    assert_eq!(skip_number("0 123"), " 123");
    assert_eq!(skip_number("-12a"), "a");
    assert_eq!(skip_number("9"), "");
    assert_eq!(skip_number("9 pop)"), " pop)");
    assert_eq!(skip_number("x9"), "x9");
    assert_eq!(skip_number("0"), "");
    assert_eq!(skip_number("0)"), ")");
    assert_eq!(skip_number("01"), "01");
    assert_eq!(skip_paren("(a (b) c) d"), " d");
    assert_eq!(skip_paren("(a (b c) d"), "(a (b c) d");
    assert_eq!(skip_identifier("add 1"), " 1");
    assert_eq!(skip_identifier("1 add"), "1 add");
    assert_eq!(trim("  a b \u{3000}"), "a b");
    assert_eq!(trim(" \t "), "");
}

#[test]
fn error_message() {
    assert_eq!(PostfixError {}.message(), "error occured!\n");
}

#[test]
fn overflowing_steps_are_told_apart() {
    let overflowing = [
        "(postfix 0 8223372036854775807 8223372036854775807 add)",
        "(postfix 0 9223372036854775807 1 add)",
        "(postfix 0 1 9223372036854775807 nget)",
        "(postfix 0 -8223372036854775807 8223372036854775807 sub)",
        "(postfix 0 3 -4611686018427387904 mul)",
        "(postfix 0 1 2 -9223372036854775807 sub)",
    ];
    for p in overflowing {
        assert!(step_overflows(p, ""), "{}", p);
        assert_eq!(step_checked(p, ""), None, "{}", p);
    }
    let fine = [
        ("(postfix 0 4611686018427387903 4611686018427387904 add)", "(postfix 0 9223372036854775807)"),
        ("(postfix 0 -4611686018427387904 2 mul)", "(postfix 0 -9223372036854775808)"),
    ];
    for (p, q) in fine {
        assert!(!step_overflows(p, ""), "{}", p);
        assert_eq!(step_checked(p, ""), Some(Ok((q.to_string(), String::new()))), "{}", p);
    }
    assert_eq!(
        step_checked("(postfix 0 1 -9223372036854775807 nget)", ""),
        Some(Err(PostfixError {}))
    );
    // comparisons never overflow
    assert!(!step_overflows("(postfix 0 9223372036854775807 9223372036854775807 eq)", ""));
    assert_eq!(
        step_checked("(postfix 0 9223372036854775807 9223372036854775807 eq)", ""),
        Some(Ok(("(postfix 0 1)".to_string(), String::new())))
    );
    // a division that overflows is an error of the step, not an overflow
    assert!(!step_overflows("(postfix 0 -9223372036854775808 -1 div)", ""));
    assert_eq!(
        step_checked("(postfix 0 -9223372036854775808 -1 div)", ""),
        Some(Err(PostfixError {}))
    );
    // arguments are loaded without arithmetic
    assert!(!step_overflows("(postfix 1 1 add)", "9223372036854775807"));
}
