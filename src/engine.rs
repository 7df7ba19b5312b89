//! The byte code, and the pipeline from pattern to match result.
use vstd::prelude::*;

pub mod codegen;
pub mod evaluator;
pub mod parser;

use codegen::{
    code_len, code_of, get_code, lemma_same_shape_code, lemma_code_list_len, lemma_literal_code, program_of,
    well_formed, CodeGenError,
};
use evaluator::{
    eval_depth, eval_width, is_literal_program, lemma_literal_program, matches_prefix, EvalError,
};
use parser::{ast_re, is_escapable, is_plain, needs_prev, parse, parse_spec, ParseError, Re, AST};
use crate::helper::chars_of;

verus! {

/// One instruction of the matching machine; addresses are indices into the
/// program.
#[derive(Debug, Clone, Copy, PartialEq, Eq, Structural)]
pub enum Instruction {
    Char(char),
    Match,
    Jump(usize),
    Split(usize, usize),
}

/// Why matching stopped: the stage that failed, with its error.
#[derive(Debug, PartialEq, Eq, Structural)]
pub enum EngineError {
    Parse(ParseError),
    CodeGen(CodeGenError),
    Eval(EvalError),
}

/// Runs a well-formed program on a text with the chosen strategy: depth first
/// (backtracking) where `is_depth` holds, set simulation otherwise. Both give
/// the same answer.
pub fn eval(inst: &Vec<Instruction>, line: &Vec<char>, is_depth: bool) -> (r: Result<bool, EvalError>)
    requires
        well_formed(inst@),
    ensures
        r == Ok::<bool, EvalError>(matches_prefix(inst@, line@)),
{
    if is_depth {
        eval_depth(inst, line)
    } else {
        eval_width(inst, line)
    }
}

/// Compiles `ast` and runs it on `line` from its first character.
pub fn match_ast(ast: &AST, line: &Vec<char>, is_depth: bool) -> (r: Result<bool, EngineError>)
    ensures
        code_len(*ast) < usize::MAX ==> r == Ok::<bool, EngineError>(
            matches_prefix(program_of(*ast), line@),
        ),
        r matches Ok(b) ==> b == matches_prefix(program_of(*ast), line@),
        r is Err ==> r == Err::<bool, EngineError>(EngineError::CodeGen(CodeGenError::PCOverFlow)),
{
    let code = match get_code(ast) {
        Ok(code) => code,
        Err(e) => {
            return Err(EngineError::CodeGen(e));
        },
    };
    match eval(&code, line, is_depth) {
        Ok(b) => Ok(b),
        Err(e) => Err(EngineError::Eval(e)),
    }
}

/// Matches the pattern `expr` against a prefix of `line`.
pub fn do_matching(expr: &str, line: &str, is_depth: bool) -> (r: Result<bool, EngineError>)
    ensures
        expr@.len() == 0 ==> r == Err::<bool, EngineError>(EngineError::Parse(ParseError::Empty)),
        expr@.len() > 0 && needs_prev(expr@[0]) ==> r == Err::<bool, EngineError>(
            EngineError::Parse(ParseError::NoPrev(0)),
        ),
        r matches Err(EngineError::Parse(ParseError::NoPrev(k))) ==> k < expr@.len() && needs_prev(
            expr@[k as int],
        ),
        r matches Err(EngineError::Parse(ParseError::InvalidRightParen(k))) ==> k < expr@.len()
            && expr@[k as int] == ')',
        r matches Err(EngineError::Parse(ParseError::InvalidEscape(k, c))) ==> 0 < k < expr@.len()
            && expr@[k - 1] == '\\' && expr@[k as int] == c && !is_escapable(c),
        r matches Ok(b) ==> exists|a: AST|
            parse_spec(expr@) == Ok::<Re, ParseError>(ast_re(a)) && b == matches_prefix(
                program_of(a),
                line@,
            ),
        r matches Err(EngineError::Parse(e)) ==> parse_spec(expr@) == Err::<Re, ParseError>(e),
        parse_spec(expr@) is Err ==> r == Err::<bool, EngineError>(
            EngineError::Parse(parse_spec(expr@)->Err_0),
        ),
        0 < expr@.len() < usize::MAX && (forall|j: int|
            0 <= j < expr@.len() ==> is_plain(#[trigger] expr@[j])) ==> r == Ok::<bool, EngineError>(expr@.len() <= line@.len() && line@.take(
            expr@.len() as int,
        ) == expr@),
        forall|a: AST|
            parse_spec(expr@) == Ok::<Re, ParseError>(ast_re(a)) && code_len(a) < usize::MAX ==> r
                == Ok::<bool, EngineError>(#[trigger] matches_prefix(program_of(a), line@)),
        r is Err ==> (r matches Err(EngineError::Parse(_))) || r == Err::<bool, EngineError>(
            EngineError::CodeGen(CodeGenError::PCOverFlow),
        ),
{
    let ast = match parse(expr) {
        Ok(ast) => ast,
        Err(e) => {
            return Err(EngineError::Parse(e));
        },
    };
    let text = chars_of(line);
    proof {
        if expr@.len() > 0 && (forall|j: int| 0 <= j < expr@.len() ==> is_plain(#[trigger] expr@[j])) {
            lemma_literal_pattern(ast, expr@, line@);
        }
    }
    let r = match_ast(&ast, &text, is_depth);
    proof {
        assert forall|a: AST|
            parse_spec(expr@) == Ok::<Re, ParseError>(ast_re(a)) && code_len(a) < usize::MAX implies r
                == Ok::<bool, EngineError>(#[trigger] matches_prefix(program_of(a), line@)) by {
            lemma_same_shape_code(a, ast, 0);
        }
    }
    r
}

/// The tree of a pattern of literals compiles to the program that reads them
/// in order and matches.
proof fn lemma_literal_pattern(ast: AST, cs: Seq<char>, t: Seq<char>)
    requires
        ast matches AST::Concat(v) && v@.len() == cs.len() && forall|j: int|
            0 <= j < v@.len() ==> #[trigger] v@[j] == AST::Char(cs[j]),
    ensures
        code_len(ast) == cs.len(),
        is_literal_program(program_of(ast), cs),
        matches_prefix(program_of(ast), t) == (cs.len() <= t.len() && t.take(cs.len() as int) == cs),
{
    if let AST::Concat(v) = ast {
        assert forall|j: int| 0 <= j < v@.len() implies #[trigger] v@[j] is Char by {
            assert(v@[j] == AST::Char(cs[j]));
        }
        lemma_literal_code(v@, 0);
        lemma_code_list_len(v@, 0);
        let p = program_of(ast);
        assert forall|j: int| 0 <= j < cs.len() implies #[trigger] p[j] == Instruction::Char(cs[j]) by {
            assert(p[j] == code_of(ast, 0)[j]);
            assert(v@[j] == AST::Char(cs[j]));
        }
        lemma_literal_program(p, cs, t);
    }
}


/// An optional part may be absent: the program of `a?` matches every text
/// from its first character, whatever `a` is, by skipping `a` altogether.
pub proof fn lemma_question_allows_absence(a: AST, t: Seq<char>)
    requires
        code_len(a) + 1 < usize::MAX,
    ensures
        matches_prefix(program_of(AST::Question(Box::new(a))), t),
{
    let q = AST::Question(Box::new(a));
    let l = code_len(a) as int;
    let p = program_of(q);
    crate::engine::codegen::lemma_program_well_formed(q);
    assert(p[0] == Instruction::Split(1, (1 + l) as usize));
    assert(p[l + 1] == Instruction::Match);
    assert(evaluator::accepts_in(p, t, l + 1, 0, 1));
    assert(evaluator::accepts_in(p, t, 0, 0, 2));
}

/// Whether the program matches a prefix of the text from some starting
/// offset before its end.
pub open spec fn matches_somewhere(p: Seq<Instruction>, t: Seq<char>) -> bool {
    exists|k: int| 0 <= k < t.len() && #[trigger] matches_prefix(p, t.skip(k))
}

/// The characters of `line` from offset `k` on.
fn suffix(line: &Vec<char>, k: usize) -> (r: Vec<char>)
    requires
        k <= line.len(),
    ensures
        r@ == line@.skip(k as int),
{
    let mut r: Vec<char> = Vec::new();
    let mut i: usize = k;
    while i < line.len()
        invariant
            k <= i <= line.len(),
            r@ == line@.subrange(k as int, i as int),
        decreases line.len() - i,
    {
        r.push(line[i]);
        i = i + 1;
        assert(r@ =~= line@.subrange(k as int, i as int));
    }
    assert(r@ =~= line@.skip(k as int));
    r
}

/// Runs a well-formed program from each starting offset of `line` in turn,
/// and tells whether one of them matches.
pub fn search_program(inst: &Vec<Instruction>, line: &Vec<char>, is_depth: bool) -> (r: bool)
    requires
        well_formed(inst@),
    ensures
        r == matches_somewhere(inst@, line@),
{
    let mut k: usize = 0;
    while k < line.len()
        invariant
            well_formed(inst@),
            k <= line.len(),
            forall|j: int| 0 <= j < k ==> !#[trigger] matches_prefix(inst@, line@.skip(j)),
        decreases line.len() - k,
    {
        let rest = suffix(line, k);
        if let Ok(true) = eval(inst, &rest, is_depth) {
            return true;
        }
        k = k + 1;
    }
    false
}

/// Matches the pattern `expr` against `line` from each starting offset in
/// turn; the pattern is compiled once.
pub fn search(expr: &str, line: &str, is_depth: bool) -> (r: Result<bool, EngineError>)
    ensures
        expr@.len() == 0 ==> r == Err::<bool, EngineError>(EngineError::Parse(ParseError::Empty)),
        expr@.len() > 0 && needs_prev(expr@[0]) ==> r == Err::<bool, EngineError>(
            EngineError::Parse(ParseError::NoPrev(0)),
        ),
        r matches Err(EngineError::Parse(ParseError::NoPrev(k))) ==> k < expr@.len() && needs_prev(
            expr@[k as int],
        ),
        r matches Err(EngineError::Parse(ParseError::InvalidRightParen(k))) ==> k < expr@.len()
            && expr@[k as int] == ')',
        r matches Err(EngineError::Parse(ParseError::InvalidEscape(k, c))) ==> 0 < k < expr@.len()
            && expr@[k - 1] == '\\' && expr@[k as int] == c && !is_escapable(c),
        r matches Ok(b) ==> exists|a: AST|
            parse_spec(expr@) == Ok::<Re, ParseError>(ast_re(a)) && b == matches_somewhere(
                program_of(a),
                line@,
            ),
        r matches Err(EngineError::Parse(e)) ==> parse_spec(expr@) == Err::<Re, ParseError>(e),
        parse_spec(expr@) is Err ==> r == Err::<bool, EngineError>(
            EngineError::Parse(parse_spec(expr@)->Err_0),
        ),
        forall|a: AST|
            parse_spec(expr@) == Ok::<Re, ParseError>(ast_re(a)) && code_len(a) < usize::MAX ==> r
                == Ok::<bool, EngineError>(#[trigger] matches_somewhere(program_of(a), line@)),
        r is Err ==> (r matches Err(EngineError::Parse(_))) || r == Err::<bool, EngineError>(
            EngineError::CodeGen(CodeGenError::PCOverFlow),
        ),
{
    let ast = match parse(expr) {
        Ok(ast) => ast,
        Err(e) => {
            return Err(EngineError::Parse(e));
        },
    };
    let code = match get_code(&ast) {
        Ok(code) => code,
        Err(e) => {
            proof {
                assert forall|a: AST|
                    parse_spec(expr@) == Ok::<Re, ParseError>(ast_re(a)) implies code_len(a)
                    >= usize::MAX by {
                    lemma_same_shape_code(a, ast, 0);
                }
            }
            return Err(EngineError::CodeGen(e));
        },
    };
    let text = chars_of(line);
    let found = search_program(&code, &text, is_depth);
    proof {
        assert forall|a: AST|
            parse_spec(expr@) == Ok::<Re, ParseError>(ast_re(a)) && code_len(a) < usize::MAX implies #[trigger] matches_somewhere(
            program_of(a),
            line@,
        ) == found by {
            lemma_same_shape_code(a, ast, 0);
        }
    }
    Ok(found)
}

} // verus!
