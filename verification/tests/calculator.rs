use calc::digits::parse_i64;
use calc::text::{char_is_white_space, push_i64};
use calc::{
    calculate, compile, eval_rpn, evaluate, fast_two, fmt_op, format_outcome, lex, trim, try_eval_rpn,
    try_evaluate, try_lex, Op, Token,
};

fn num(n: i64) -> Token {
    Token::Num(n)
}

fn op(o: Op) -> Token {
    Token::Op(o)
}

#[test]
fn help_example_sum() {
    assert_eq!(evaluate("12 + 30"), Ok(42));
    assert_eq!(fast_two("12 + 30"), Some((12, Op::Add, 30)));
    assert_eq!(calculate("12 + 30"), "12 + 30 = 42");
}

#[test]
fn help_example_division() {
    assert_eq!(calculate("100 / 4"), "100 / 4 = 25");
}

#[test]
fn help_example_negative_product() {
    assert_eq!(evaluate("-7 * 8"), Ok(-56));
    assert_eq!(calculate("-7 * 8"), "-7 * 8 = -56");
}

#[test]
fn help_example_parentheses() {
    assert_eq!(evaluate("(2 + 3) * 4"), Ok(20));
    assert_eq!(fast_two("(2 + 3) * 4"), None);
    assert_eq!(calculate("(2 + 3) * 4"), "(2 + 3) * 4 = 20");
}

#[test]
fn blank_input_asks_for_an_expression() {
    assert_eq!(calculate(""), "Enter an expression");
    assert_eq!(calculate(" \t\n "), "Enter an expression");
    assert_eq!(calculate("\u{3000}\u{a0}"), "Enter an expression");
}

#[test]
fn calculate_trims_before_evaluating() {
    assert_eq!(calculate("  6 * 7\n"), "6 * 7 = 42");
}

#[test]
fn calculate_reports_errors() {
    assert_eq!(calculate("1)"), "error: mismatched ')'");
    assert_eq!(calculate("(1"), "error: mismatched parentheses");
    assert_eq!(calculate("1 2"), "error: malformed expression");
    assert_eq!(calculate("+"), "error: stack underflow");
}

#[test]
fn precedence_and_associativity() {
    assert_eq!(evaluate("2+3*4"), Ok(14));
    assert_eq!(evaluate("2*3+4"), Ok(10));
    assert_eq!(evaluate("10-4-3"), Ok(3));
    assert_eq!(evaluate("100/10/5"), Ok(2));
    assert_eq!(evaluate("(1+2)*(3+4)"), Ok(21));
    assert_eq!(evaluate("1 - -1"), Ok(2));
    assert_eq!(evaluate("--3"), Ok(3));
    assert_eq!(evaluate("2*-3"), Ok(-6));
    assert_eq!(evaluate("-2*3"), Ok(-6));
}

#[test]
fn division_truncates_toward_zero() {
    assert_eq!(evaluate("7/2"), Ok(3));
    assert_eq!(evaluate("-7/2"), Ok(-3));
    assert_eq!(evaluate("7/-2"), Ok(-3));
    assert_eq!(evaluate("-7/-2"), Ok(3));
}

#[test]
fn unknown_characters_evaluate_to_zero() {
    assert_eq!(lex("1 + abc"), vec![num(0), Token::Eof]);
    assert_eq!(evaluate("abc"), Ok(0));
    assert_eq!(evaluate("5 + x"), Ok(0));
    assert_eq!(lex("\u{c}"), vec![num(0), Token::Eof]);
}

#[test]
fn empty_input_is_malformed() {
    assert_eq!(lex(""), vec![Token::Eof]);
    assert_eq!(evaluate(""), Err("malformed expression"));
}

#[test]
fn inputs_on_which_evaluation_panics() {
    assert_eq!(try_evaluate("1/0"), None);
    assert_eq!(try_evaluate("9223372036854775807+1"), None);
    assert_eq!(try_evaluate("99999999999999999999"), None);
    assert_eq!(try_evaluate("-9223372036854775808"), None);
    assert_eq!(try_evaluate("0-9223372036854775807-1"), Some(Ok(i64::MIN)));
    assert_eq!(try_evaluate("-(0-9223372036854775807-1)"), None);
    assert_eq!(try_evaluate("3000000000*4000000000"), None);
    assert_eq!(try_evaluate("1+2"), Some(Ok(3)));
    assert_eq!(try_evaluate("1)"), Some(Err("mismatched ')'")));
}

#[test]
fn lexer_panics_where_an_unknown_run_splits_a_character() {
    // 'à' is C3 A0 in UTF-8, and A0 read as a char is a no-break space.
    assert_eq!(try_lex("xà"), None);
    assert_eq!(try_evaluate("xà"), None);
    // 'é' is C3 A9: the run goes on to the end of the string.
    assert_eq!(try_lex("xé"), Some(vec![num(0), Token::Eof]));
    assert_eq!(try_lex("é"), Some(vec![num(0), Token::Eof]));
}

#[test]
fn lex_tokens() {
    assert_eq!(lex("1+2"), vec![num(1), op(Op::Add), num(2), Token::Eof]);
    assert_eq!(lex("-1"), vec![op(Op::Neg), num(1), Token::Eof]);
    assert_eq!(
        lex("(-1)"),
        vec![Token::LParen, op(Op::Neg), num(1), Token::RParen, Token::Eof]
    );
    assert_eq!(lex("1-1"), vec![num(1), op(Op::Sub), num(1), Token::Eof]);
    assert_eq!(lex(")-1"), vec![Token::RParen, op(Op::Sub), num(1), Token::Eof]);
    assert_eq!(lex(" 12\t*\r\n3/4 "), vec![num(12), op(Op::Mul), num(3), op(Op::Div), num(4), Token::Eof]);
    assert_eq!(lex("9223372036854775807"), vec![num(i64::MAX), Token::Eof]);
}

#[test]
fn lex_ends_with_sole_eof_on_examples() {
    for s in ["", "1", "1+2*(3-4)", "abc", "--", "((", "7 7 7"] {
        let t = lex(s);
        assert_eq!(*t.last().unwrap(), Token::Eof);
        assert!(t[..t.len() - 1].iter().all(|x| *x != Token::Eof));
    }
}

#[test]
fn compile_to_reverse_polish() {
    let toks = vec![num(1), op(Op::Add), num(2), op(Op::Mul), num(3), Token::Eof];
    assert_eq!(compile(toks), Ok(vec![num(1), num(2), num(3), op(Op::Mul), op(Op::Add)]));
    let toks = vec![op(Op::Neg), op(Op::Neg), num(3), Token::Eof];
    assert_eq!(compile(toks), Ok(vec![num(3), op(Op::Neg), op(Op::Neg)]));
    let toks = vec![num(1), Token::Eof, Token::RParen];
    assert_eq!(compile(toks), Ok(vec![num(1)]));
    assert_eq!(compile(vec![Token::RParen]), Err("mismatched ')'"));
    assert_eq!(compile(vec![Token::LParen, num(1)]), Err("mismatched parentheses"));
}

#[test]
fn compile_keeps_numbers_in_order() {
    let toks = lex("(4 - 2) * -(7 + 1) / 3");
    let rpn = compile(toks).unwrap();
    let nums: Vec<i64> = rpn
        .iter()
        .filter_map(|t| if let Token::Num(n) = t { Some(*n) } else { None })
        .collect();
    assert_eq!(nums, vec![4, 2, 7, 1, 3]);
    assert!(rpn.iter().all(|t| matches!(t, Token::Num(_) | Token::Op(_))));
}

#[test]
fn eval_rpn_results_and_errors() {
    assert_eq!(eval_rpn(&[num(2), num(3), op(Op::Sub)]), Ok(-1));
    assert_eq!(eval_rpn(&[num(5), op(Op::Neg)]), Ok(-5));
    assert_eq!(eval_rpn(&[num(7)]), Ok(7));
    assert_eq!(eval_rpn(&[op(Op::Add)]), Err("stack underflow"));
    assert_eq!(eval_rpn(&[op(Op::Neg)]), Err("stack underflow"));
    assert_eq!(eval_rpn(&[num(1), num(2)]), Err("malformed expression"));
    assert_eq!(eval_rpn(&[]), Err("malformed expression"));
    assert_eq!(eval_rpn(&[Token::LParen]), Err("unexpected token in RPN"));
    assert_eq!(eval_rpn(&[num(1), op(Op::Num)]), Err("unexpected token in RPN"));
}

#[test]
fn eval_rpn_stack_capacity() {
    let full: Vec<Token> = (0..256).map(|_| num(1)).collect();
    assert_eq!(try_eval_rpn(&full), Some(Err("malformed expression")));
    let over: Vec<Token> = (0..257).map(|_| num(1)).collect();
    assert_eq!(try_eval_rpn(&over), None);
    assert_eq!(try_eval_rpn(&[num(1), num(0), op(Op::Div)]), None);
    assert_eq!(try_eval_rpn(&[num(i64::MIN), op(Op::Neg)]), None);
    assert_eq!(try_eval_rpn(&[num(i64::MIN), num(-1), op(Op::Div)]), None);
}

#[test]
fn apply_operators() {
    assert_eq!(op(Op::Add).apply(2, 3), 5);
    assert_eq!(op(Op::Sub).apply(2, 3), -1);
    assert_eq!(op(Op::Mul).apply(-4, 3), -12);
    assert_eq!(op(Op::Div).apply(-9, 2), -4);
}

#[test]
fn operator_symbols() {
    assert_eq!(fmt_op(Op::Add), "+");
    assert_eq!(fmt_op(Op::Sub), "-");
    assert_eq!(fmt_op(Op::Mul), "*");
    assert_eq!(fmt_op(Op::Div), "/");
    assert_eq!(fmt_op(Op::Neg), "?");
    assert_eq!(fmt_op(Op::Num), "?");
}

#[test]
fn fast_two_shapes() {
    assert_eq!(fast_two(" 12 + 30"), Some((12, Op::Add, 30)));
    assert_eq!(fast_two("1+2*3"), Some((1, Op::Add, 2)));
    assert_eq!(fast_two("1 - -2"), Some((1, Op::Sub, -2)));
    assert_eq!(fast_two("-5/-5"), Some((-5, Op::Div, -5)));
    assert_eq!(fast_two("\u{c}3\u{c}*\u{c}4"), Some((3, Op::Mul, 4)));
    assert_eq!(fast_two("\u{b}3*4"), None);
    assert_eq!(fast_two("-"), None);
    assert_eq!(fast_two("1 + "), None);
    assert_eq!(fast_two("1 x 2"), None);
    assert_eq!(fast_two("1 + 2--3"), None);
    assert_eq!(fast_two("1--2"), None);
    assert_eq!(fast_two("99999999999999999999 + 1"), None);
}

#[test]
fn longer_expressions_are_echoed_whole() {
    assert_eq!(calculate("1+2*3"), "1+2*3 = 7");
    assert_eq!(calculate(" 12+30  "), "12 + 30 = 42");
    assert_eq!(calculate("1 + 2 x"), "1 + 2 x = 0");
}

#[test]
fn parse_i64_agrees_with_std() {
    let cases = [
        "0", "-0", "+0", "42", "-42", "+42", "", "-", "+", "--1", "1-", "12a", "9223372036854775807",
        "9223372036854775808", "-9223372036854775808", "-9223372036854775809", "00012", "1 2",
    ];
    for s in cases {
        assert_eq!(parse_i64(s.as_bytes()), s.parse::<i64>().ok(), "{}", s);
    }
}

#[test]
fn white_space_agrees_with_std() {
    for u in 0u32..0x11000 {
        if let Some(c) = char::from_u32(u) {
            assert_eq!(char_is_white_space(c), c.is_whitespace(), "{:x}", u);
        }
    }
}

#[test]
fn trim_agrees_with_std() {
    let cases = ["", "  ", " a ", "a", "\u{2003}x y\u{3000}", "\t\n1+2\r\n", "é ", " \u{85}z\u{a0}"];
    for s in cases {
        assert_eq!(trim(s), s.trim());
    }
}

#[test]
fn decimal_agrees_with_display_and_reads_back() {
    for n in [0i64, 7, -7, 10, 123456789, -1000, i64::MAX, i64::MIN] {
        let mut s = String::new();
        push_i64(&mut s, n);
        assert_eq!(s, n.to_string());
        assert_eq!(parse_i64(s.as_bytes()), Some(n));
    }
}

#[test]
fn binary_text_evaluates_to_the_arithmetic() {
    let value = |s: String| try_evaluate(&s).map(|r| r.unwrap());
    for (x, y) in [(0i64, 1i64), (12, 30), (100, 4), (7, 2), (5, 0), (9223372036854775807, 1), (4611686018427387904, 2)] {
        assert_eq!(value(format!("{}+{}", x, y)), x.checked_add(y));
        assert_eq!(value(format!("{}-{}", x, y)), x.checked_sub(y));
        assert_eq!(value(format!("{}*{}", x, y)), x.checked_mul(y));
        assert_eq!(value(format!("{}/{}", x, y)), x.checked_div(y));
    }
    assert_eq!(try_evaluate("9223372036854775807+1"), None);
    assert_eq!(try_evaluate("5/0"), None);
}

#[test]
fn format_outcome_lines() {
    assert_eq!(format_outcome("3 * 4", Ok(12)), "3 * 4 = 12");
    assert_eq!(format_outcome("(3)", Ok(3)), "(3) = 3");
    assert_eq!(format_outcome("3*4", Ok(12)), "3 * 4 = 12");
    assert_eq!(format_outcome("(3", Err("mismatched parentheses")), "error: mismatched parentheses");
}

#[test]
fn three_operand_text_follows_precedence() {
    let ops = ['+', '-', '*', '/'];
    let apply = |o: char, a: Option<i64>, b: Option<i64>| -> Option<i64> {
        let (a, b) = (a?, b?);
        match o {
            '+' => a.checked_add(b),
            '-' => a.checked_sub(b),
            '*' => a.checked_mul(b),
            _ => a.checked_div(b),
        }
    };
    let strength = |o: char| if o == '*' || o == '/' { 2 } else { 1 };
    for (x, y, z) in [(1i64, 2i64, 3i64), (20, 4, 2), (7, 0, 5), (9223372036854775807, 2, 3), (100, 7, 0)] {
        for o1 in ops {
            for o2 in ops {
                let expected = if strength(o2) > strength(o1) {
                    apply(o1, Some(x), apply(o2, Some(y), Some(z)))
                } else {
                    apply(o2, apply(o1, Some(x), Some(y)), Some(z))
                };
                let text = format!("{}{}{}{}{}", x, o1, y, o2, z);
                assert_eq!(try_evaluate(&text).map(|r| r.unwrap()), expected, "{}", text);
            }
        }
    }
}

#[test]
fn nested_expressions_take_their_ordinary_value() {
    assert_eq!(evaluate("-(2+3)*4"), Ok(-20));
    assert_eq!(evaluate("2*(3+4)-5/2"), Ok(12));
    assert_eq!(evaluate("((7))"), Ok(7));
    assert_eq!(evaluate("-(-(5))"), Ok(5));
    assert_eq!(evaluate("1-(2-(3-4))"), Ok(-2));
    assert_eq!(evaluate("8/(3-1)/2"), Ok(2));
    assert_eq!(evaluate("-3*-(2+1)"), Ok(9));
    assert_eq!(try_evaluate("-(0-9223372036854775807-1)"), None);
}

#[test]
fn deep_nesting_runs_out_of_stack_places() {
    // 1+(1+(1+...)) keeps one more operand pending at each level.
    let mut deep = String::from("1");
    for _ in 0..255 {
        deep = format!("1+({})", deep);
    }
    assert_eq!(try_evaluate(&deep), Some(Ok(256)));
    let deeper = format!("1+({})", deep);
    assert_eq!(try_evaluate(&deeper), None);
}

#[test]
fn reverse_polish_sequences_concatenate_with_plus() {
    let x = compile(lex("2*3")).unwrap();
    let y = compile(lex("10-4")).unwrap();
    let mut both = x.clone();
    both.extend(y.iter().copied());
    both.push(op(Op::Add));
    assert_eq!(eval_rpn(&both), Ok(12));
}

#[test]
fn printed_two_operand_lines_read_back() {
    for (a, o, b) in [(1i64, Op::Add, 2i64), (-7, Op::Mul, 8), (i64::MIN, Op::Sub, i64::MAX), (0, Op::Div, -3)] {
        let line = format!("{} {} {}", a, fmt_op(o), b);
        assert_eq!(fast_two(&line), Some((a, o, b)));
    }
}

#[test]
fn form_feed_between_operands_reads_as_an_unknown_character() {
    // fast_two skips a form feed as white space; the lexer does not, so the
    // line echoes the expression rather than show the false `1 + 2 = 0`.
    assert_eq!(evaluate("1\u{c}+\u{c}2"), Ok(0));
    assert_eq!(fast_two("1\u{c}+\u{c}2"), Some((1, Op::Add, 2)));
    assert_eq!(calculate("1\u{c}+\u{c}2"), "1\u{c}+\u{c}2 = 0");
}

#[test]
fn a_space_between_tokens_changes_nothing() {
    for (a, b) in [("1", "+2"), ("1+", "2"), ("(", "3)"), ("-", "4"), ("2*", "-3"), ("x", "y")] {
        assert_eq!(lex(&format!("{} {}", a, b)), lex(&format!("{}{}", a, b)));
    }
    assert_ne!(lex("1 2"), lex("12"));
}

#[test]
fn printed_equations_hold() {
    for (a, o, b) in [(12i64, Op::Add, 30i64), (-7, Op::Mul, 8), (100, Op::Div, -4), (5, Op::Sub, -9223372036854775807)] {
        let line = format!("{} {} {}", a, fmt_op(o), b);
        let expected = match o {
            Op::Add => a.checked_add(b),
            Op::Sub => a.checked_sub(b),
            Op::Mul => a.checked_mul(b),
            _ => a.checked_div(b),
        };
        assert_eq!(try_evaluate(&line).map(|r| r.unwrap()), expected, "{}", line);
        if let Some(n) = expected {
            assert_eq!(calculate(&line), format!("{} = {}", line, n));
        }
    }
}

#[test]
fn every_equation_shown_holds() {
    let inputs = [
        "1+2",
        " 7 *  -3 ",
        "10 / 3",
        "-8 - -8",
        "1\t+\t2",
        "1 + 2 * 3",
        "1\u{c}+\u{c}2",
        "9223372036854775807 - 1",
        "1 + 2 = 3",
    ];
    let mut shown = 0;
    for input in inputs {
        let line = calculate(input);
        let parts: Vec<&str> = line.split(' ').collect();
        if parts.len() != 5 || parts[3] != "=" {
            continue;
        }
        let o = match parts[1] {
            "+" => Op::Add,
            "-" => Op::Sub,
            "*" => Op::Mul,
            "/" => Op::Div,
            _ => continue,
        };
        if let (Ok(a), Ok(b), Ok(n)) = (parts[0].parse::<i64>(), parts[2].parse::<i64>(), parts[4].parse::<i64>()) {
            assert_eq!(Token::Op(o).apply(a, b), n, "{}", line);
            shown += 1;
        }
    }
    assert_eq!(shown, 6);
}

#[test]
fn parentheses_keep_the_value_and_a_minus_negates_it() {
    for s in ["1 + 2 * 3", "-7*8", "100 / 4 - 1", "((2))", "- - 5", "abc", "2 + x", "9223372036854775807", " 4 "] {
        let v = evaluate(s).unwrap();
        assert_eq!(evaluate(&format!("({})", s)), Ok(v), "{}", s);
        assert_eq!(evaluate(&format!("-({})", s)), Ok(-v), "{}", s);
    }
}
