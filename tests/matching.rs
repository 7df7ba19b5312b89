use tiny_regex::engine::codegen::get_code;
use tiny_regex::engine::parser::{parse, ParseError, AST};
use tiny_regex::engine::{
    do_matching, eval, search, search_program, EngineError, Instruction,
};
use tiny_regex::helper::{chars_of, safe_add, SafeAdd};
use Instruction::{Char, Jump, Match, Split};

#[test]
fn test_safe_add() {
    let n: usize = 10;
    assert_eq!(Some(30), n.safe_add(&20));

    let n: usize = !0;
    assert_eq!(None, n.safe_add(&1));

    let mut n: usize = 10;
    assert!(safe_add(&mut n, &20, || ()).is_ok());

    let mut n: usize = !0;
    assert!(safe_add(&mut n, &1, || ()).is_err());
}

#[test]
fn test_matching() {
    assert!(do_matching("+b", "bbb", true).is_err());
    assert!(do_matching("*b", "bbb", true).is_err());
    assert!(do_matching("|b", "bbb", true).is_err());
    assert!(do_matching("?b", "bbb", true).is_err());

    assert!(do_matching("abc|def", "def", true).unwrap());
    assert!(do_matching("(abc)*", "abcabc", true).unwrap());
    assert!(do_matching("(ab|de)+", "abcdcd", true).unwrap());
    assert!(do_matching("abc?", "ab", true).unwrap());
}

#[test]
fn safe_add_keeps_value_on_overflow() {
    let mut n: usize = usize::MAX;
    let r = safe_add(&mut n, &1, || "overflow");
    assert_eq!(r, Err("overflow"));
    assert_eq!(n, usize::MAX);
    let mut m: usize = 7;
    assert_eq!(safe_add(&mut m, &5, || "overflow"), Ok(()));
    assert_eq!(m, 12);
}

#[test]
fn no_prev_at_start() {
    for p in ["+b", "*b", "|b", "?b"] {
        assert_eq!(parse(p).unwrap_err(), ParseError::NoPrev(0));
        assert_eq!(
            do_matching(p, "bbb", false),
            Err(EngineError::Parse(ParseError::NoPrev(0)))
        );
    }
}

#[test]
fn no_prev_inside() {
    assert_eq!(parse("a|*").unwrap_err(), ParseError::NoPrev(2));
    assert_eq!(parse("a||b").unwrap_err(), ParseError::NoPrev(2));
    assert_eq!(parse("()+").unwrap_err(), ParseError::NoPrev(2));
}

#[test]
fn parens_unbalanced() {
    assert_eq!(parse("(abc").unwrap_err(), ParseError::NoRightParen);
    assert_eq!(parse("abc)").unwrap_err(), ParseError::InvalidRightParen(3));
}

#[test]
fn escapes() {
    match parse("a\\+b").unwrap() {
        AST::Concat(v) => {
            assert_eq!(v.len(), 3);
            assert!(matches!(v[0], AST::Char('a')));
            assert!(matches!(v[1], AST::Char('+')));
            assert!(matches!(v[2], AST::Char('b')));
        }
        other => panic!("unexpected tree {:?}", other),
    }
    assert_eq!(parse("a\\b").unwrap_err(), ParseError::InvalidEscape(2, 'b'));
    assert!(do_matching("a\\*", "a*", true).unwrap());
    assert!(!do_matching("a\\*", "aa", true).unwrap());
}

#[test]
fn empty_pattern() {
    assert_eq!(parse("").unwrap_err(), ParseError::Empty);
    assert_eq!(parse("()").unwrap_err(), ParseError::Empty);
    assert_eq!(
        do_matching("", "abc", true),
        Err(EngineError::Parse(ParseError::Empty))
    );
}

#[test]
fn alternation_folds_to_the_right() {
    match parse("a|b|c").unwrap() {
        AST::Or(x, rest) => {
            assert!(matches!(*x, AST::Concat(_)));
            assert!(matches!(*rest, AST::Or(_, _)));
        }
        other => panic!("unexpected tree {:?}", other),
    }
}

#[test]
fn code_for_each_construct() {
    assert_eq!(
        get_code(&parse("a|b").unwrap()).unwrap(),
        vec![Split(1, 3), Char('a'), Jump(4), Char('b'), Match]
    );
    assert_eq!(
        get_code(&parse("a*").unwrap()).unwrap(),
        vec![Split(1, 3), Char('a'), Jump(0), Match]
    );
    assert_eq!(
        get_code(&parse("a+").unwrap()).unwrap(),
        vec![Char('a'), Split(0, 2), Match]
    );
    assert_eq!(
        get_code(&parse("a?").unwrap()).unwrap(),
        vec![Split(1, 2), Char('a'), Match]
    );
    assert_eq!(
        get_code(&parse("ab").unwrap()).unwrap(),
        vec![Char('a'), Char('b'), Match]
    );
}

#[test]
fn compiled_programs_are_well_formed() {
    for p in ["abc|def", "(abc)*", "(ab|de)+", "abc?", "((a|b)*c)?d", "(a*)*"] {
        let code = get_code(&parse(p).unwrap()).unwrap();
        assert_eq!(*code.last().unwrap(), Instruction::Match);
        for inst in &code {
            match *inst {
                Instruction::Jump(t) => assert!(t < code.len()),
                Instruction::Split(a, b) => assert!(a < code.len() && b < code.len()),
                _ => {}
            }
        }
    }
}

#[test]
fn scenarios_with_both_strategies() {
    for depth in [true, false] {
        assert!(do_matching("abc|def", "def", depth).unwrap());
        assert!(do_matching("(abc)*", "abcabc", depth).unwrap());
        assert!(do_matching("(ab|de)+", "abcdcd", depth).unwrap());
        assert!(do_matching("abc?", "ab", depth).unwrap());
        assert!(!do_matching("abc", "ab", depth).unwrap());
        assert!(!do_matching("abc|def", "xdef", depth).unwrap());
    }
}

#[test]
fn quantifier_laws_on_examples() {
    for depth in [true, false] {
        for s in ["", "a", "aa", "aaab", "b", "ab"] {
            assert_eq!(
                do_matching("a+", s, depth).unwrap(),
                do_matching("aa*", s, depth).unwrap()
            );
            assert_eq!(
                do_matching("(ab)+c", s, depth).unwrap(),
                do_matching("ab(ab)*c", s, depth).unwrap()
            );
        }
        assert!(do_matching("xa?y", "xy", depth).unwrap());
        assert!(do_matching("xa?y", "xay", depth).unwrap());
        assert!(!do_matching("xa?y", "xaay", depth).unwrap());
    }
}

#[test]
fn strategies_agree() {
    let patterns = ["a(b|c)*d", "(a*)*", "(a*)*b", "(a|ab)(c|bcd)", "x?y+z*", "((a|b)+)?c"];
    let texts = ["", "abd", "acbcd", "b", "c", "aab", "abcd", "yyz", "xyzzz", "ababc"];
    for p in patterns {
        let code = get_code(&parse(p).unwrap()).unwrap();
        for t in texts {
            let line: Vec<char> = t.chars().collect();
            assert_eq!(eval(&code, &line, true), eval(&code, &line, false), "{} on {}", p, t);
        }
    }
}

#[test]
fn epsilon_loops_end() {
    for depth in [true, false] {
        assert!(do_matching("(a*)*", "b", depth).unwrap());
        assert!(!do_matching("(a*)*b", "c", depth).unwrap());
        assert!(do_matching("(a*)*b", "aaab", depth).unwrap());
    }
}

#[test]
fn search_tries_every_offset() {
    assert!(!do_matching("bc", "abc", true).unwrap());
    assert!(search("bc", "abc", true).unwrap());
    assert!(search("bc", "abc", false).unwrap());
    assert!(!search("bd", "abc", true).unwrap());
    assert!(!search("a*", "", true).unwrap());
    let code = get_code(&parse("cd").unwrap()).unwrap();
    assert!(search_program(&code, &chars_of("abcd"), false));
    assert!(!search_program(&code, &chars_of("abdc"), true));
}

#[test]
fn chars_of_keeps_every_character() {
    assert_eq!(chars_of("héllo"), vec!['h', 'é', 'l', 'l', 'o']);
    assert_eq!(chars_of(""), Vec::<char>::new());
}

#[test]
fn optional_part_may_be_absent() {
    for depth in [true, false] {
        for t in ["", "x", "y", "xyz"] {
            assert!(do_matching("x?", t, depth).unwrap());
            assert!(do_matching("(ab|c)?", t, depth).unwrap());
        }
    }
}
