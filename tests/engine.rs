use regex::codegen::gen_code;
use regex::evaluator::{eval, EvalError};
use regex::helper::safe_add;
use regex::parser::{parse, Ast, ParseError};
use regex::{do_matching, EngineError, Instruction};

fn compiled(pattern: &str) -> Vec<Instruction> {
    gen_code(&parse(pattern).unwrap()).unwrap()
}

#[test]
fn test_code_gen() {
    assert_eq!(
        gen_code(&parse("abc").unwrap()).unwrap(),
        vec![
            Instruction::Char('a'),
            Instruction::Char('b'),
            Instruction::Char('c'),
            Instruction::Match,
        ]
    );
    assert_eq!(
        gen_code(&parse("ab|c").unwrap()).unwrap(),
        vec![
            Instruction::Split(1, 4),
            Instruction::Char('a'),
            Instruction::Char('b'),
            Instruction::Jump(5),
            Instruction::Char('c'),
            Instruction::Match,
        ]
    );
    assert_eq!(
        gen_code(&parse("(ab)+c").unwrap()).unwrap(),
        vec![
            Instruction::Char('a'),
            Instruction::Char('b'),
            Instruction::Split(0, 3),
            Instruction::Char('c'),
            Instruction::Match,
        ]
    );
    assert_eq!(
        gen_code(&parse("(ab)?c").unwrap()).unwrap(),
        vec![
            Instruction::Split(1, 3),
            Instruction::Char('a'),
            Instruction::Char('b'),
            Instruction::Char('c'),
            Instruction::Match,
        ]
    );
    assert_eq!(
        gen_code(&parse("(ab)*c").unwrap()).unwrap(),
        vec![
            Instruction::Split(1, 4),
            Instruction::Char('a'),
            Instruction::Char('b'),
            Instruction::Jump(0),
            Instruction::Char('c'),
            Instruction::Match,
        ]
    );
}

#[test]
fn literal_program_has_one_instruction_per_char_and_match() {
    let code = compiled("abc");
    assert_eq!(code.len(), 4);
    assert_eq!(code[0], Instruction::Char('a'));
    assert_eq!(code[3], Instruction::Match);
}

#[test]
fn repeated_star_compiles_like_single_star() {
    assert_eq!(compiled("a**"), compiled("a*"));
    assert_eq!(compiled("(ab)***"), compiled("(ab)*"));
    assert_eq!(compiled("(a*)*"), compiled("a*"));
    assert_eq!(compiled("a*"), vec![Instruction::Split(1, 3), Instruction::Char('a'), Instruction::Jump(0), Instruction::Match]);
    let mut many = String::from("x");
    for _ in 0..50 {
        many.push('*');
    }
    assert_eq!(compiled(&many), compiled("x*"));
}

#[test]
fn nested_groups_and_repetitions_parse() {
    assert!(parse("(((a*)+)?)*").is_ok());
    assert_eq!(do_matching("(((a*)+)?)*b", "aab", false), Ok(true));
}

#[test]
fn alternation_with_repeated_group() {
    assert_eq!(do_matching("abc|(de|cd)+", "decddede", true), Ok(true));
    assert_eq!(do_matching("abc|(de|cd)+", "abc", true), Ok(true));
    assert_eq!(do_matching("abc|(de|cd)+", "dx", true), Ok(false));
}

#[test]
fn plus_needs_one_occurrence() {
    assert_eq!(do_matching("a+", "aaa", false), Ok(true));
    assert_eq!(do_matching("a+", "", false), Ok(false));
}

#[test]
fn head_of_line_needs_anchoring_and_position_zero() {
    assert_eq!(do_matching("^a", "ba", true), Ok(false));
    assert_eq!(do_matching("^a", "ab", true), Ok(true));
    assert_eq!(do_matching("^a", "ab", false), Ok(false));
    assert_eq!(compiled("^a")[0], Instruction::HeadOfLine);
}

#[test]
fn end_of_line_needs_the_end_of_input() {
    assert_eq!(do_matching("a$", "a", false), Ok(true));
    assert_eq!(do_matching("a$", "ab", false), Ok(false));
    assert_eq!(compiled("a$"), vec![Instruction::Char('a'), Instruction::EndOfLine, Instruction::Match]);
}

#[test]
fn split_tries_left_branch_to_the_end_first() {
    // The left branch runs into a bad address; the right one would match.
    let prog = vec![Instruction::Split(1, 2), Instruction::Jump(9), Instruction::Match];
    assert_eq!(eval(&prog, &['a'], false), Err(EvalError::InvalidPC));
    // With the branches swapped the match comes first.
    let prog = vec![Instruction::Split(2, 1), Instruction::Jump(9), Instruction::Match];
    assert_eq!(eval(&prog, &['a'], false), Ok(true));
}

#[test]
fn counter_at_maximum_overflows() {
    let mut pc = usize::MAX;
    assert_eq!(safe_add(&mut pc, 1, EvalError::PCOverFlow), Err(EvalError::PCOverFlow));
    assert_eq!(pc, usize::MAX);
    let mut sp: usize = 41;
    assert_eq!(safe_add(&mut sp, 1, EvalError::SPOverFlow), Ok(()));
    assert_eq!(sp, 42);
}

#[test]
fn prefix_match_needs_no_end_anchor() {
    assert_eq!(do_matching("abc", "abcdef", false), Ok(true));
    assert_eq!(do_matching("abc", "xabc", false), Ok(false));
}

#[test]
fn wildcard_consumes_exactly_one_character() {
    assert_eq!(do_matching(".", "x", false), Ok(true));
    assert_eq!(do_matching(".", "", false), Ok(false));
    assert_eq!(do_matching("a.c", "abc", false), Ok(true));
    assert_eq!(do_matching(".*b", "aaab", false), Ok(true));
}

#[test]
fn empty_loop_body_terminates() {
    assert_eq!(do_matching("(a?)*b", "aab", false), Ok(true));
    assert_eq!(do_matching("(a?)*b", "aac", false), Ok(false));
}

#[test]
fn parse_errors() {
    assert_eq!(parse("*"), Err(ParseError::NoPrev(0)));
    assert_eq!(parse("|a"), Err(ParseError::NoPrev(0)));
    assert_eq!(parse("a)"), Err(ParseError::InvalidRightParen(1)));
    assert_eq!(parse("(a"), Err(ParseError::NoRightParen));
    assert_eq!(parse(""), Err(ParseError::Empty));
    assert_eq!(parse("()"), Err(ParseError::Empty));
    assert_eq!(parse("a|"), Err(ParseError::Empty));
    assert_eq!(parse("\\a"), Err(ParseError::InvalidEscape(1, 'a')));
    assert_eq!(parse("a\\"), Err(ParseError::InvalidEscape(1, '\\')));
    assert_eq!(do_matching("*", "a", false), Err(EngineError::Parse(ParseError::NoPrev(0))));
}

#[test]
fn parse_builds_right_nested_alternatives() {
    let t = parse("a|b|c").unwrap();
    let alt = |c: char| Ast::Concat(vec![Ast::Char(c)]);
    assert_eq!(
        t,
        Ast::Or(Box::new(alt('a')), Box::new(Ast::Or(Box::new(alt('b')), Box::new(alt('c')))))
    );
    assert_eq!(parse("a\\*").unwrap(), Ast::Concat(vec![Ast::Char('a'), Ast::Char('*')]));
    assert_eq!(do_matching("a\\*", "a*", false), Ok(true));
}

#[test]
fn invalid_address_is_an_error() {
    assert_eq!(eval(&[Instruction::Jump(5)], &[], false), Err(EvalError::InvalidPC));
    assert_eq!(eval(&[], &[], false), Err(EvalError::InvalidPC));
}

#[test]
fn second_star_after_any_pattern_changes_nothing() {
    assert_eq!(compiled("ab|c**"), compiled("ab|c*"));
    assert_eq!(compiled("(a|b)**"), compiled("(a|b)*"));
    assert_eq!(compiled("x(y+)**z"), compiled("x(y+)*z"));
    // An escaped star is a literal, so a star after it is a real repetition.
    assert_ne!(compiled("a\\**"), compiled("a\\*"));
}
