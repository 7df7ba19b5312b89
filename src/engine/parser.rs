//! Parsing of a pattern into an abstract syntax tree.
use vstd::prelude::*;

use crate::helper::chars_of;

verus! {

broadcast use vstd::std_specs::vec::group_vec_axioms, vstd::seq::group_seq_axioms;

/// The abstract syntax tree of a pattern.
#[derive(Debug)]
pub enum AST {
    Char(char),
    Plus(Box<AST>),
    Star(Box<AST>),
    Question(Box<AST>),
    Or(Box<AST>, Box<AST>),
    Concat(Vec<AST>),
}

/// Why a pattern was refused.
#[derive(Debug, PartialEq, Eq, Structural)]
pub enum ParseError {
    InvalidEscape(usize, char),
    InvalidRightParen(usize),
    NoPrev(usize),
    NoRightParen,
    Empty,
}


/// The shape of a tree as a mathematical value: what the parser builds,
/// without the allocation.
pub enum Re {
    Lit(char),
    Plus(Box<Re>),
    Star(Box<Re>),
    Question(Box<Re>),
    Or(Box<Re>, Box<Re>),
    Cat(Seq<Re>),
}

/// The shape of `a`.
pub open spec fn ast_re(a: AST) -> Re
    decreases a,
{
    match a {
        AST::Char(c) => Re::Lit(c),
        AST::Plus(e) => Re::Plus(Box::new(ast_re(*e))),
        AST::Star(e) => Re::Star(Box::new(ast_re(*e))),
        AST::Question(e) => Re::Question(Box::new(ast_re(*e))),
        AST::Or(e1, e2) => Re::Or(Box::new(ast_re(*e1)), Box::new(ast_re(*e2))),
        AST::Concat(v) => Re::Cat(list_re(v@)),
    }
}

/// The shapes of the trees in `s`, in order.
pub open spec fn list_re(s: Seq<AST>) -> Seq<Re>
    decreases s,
{
    if s.len() == 0 {
        seq![]
    } else {
        list_re(s.drop_last()).push(ast_re(s.last()))
    }
}

pub proof fn lemma_list_re(s: Seq<AST>)
    ensures
        list_re(s).len() == s.len(),
        forall|j: int| 0 <= j < s.len() ==> #[trigger] list_re(s)[j] == ast_re(s[j]),
    decreases s.len(),
{
    if s.len() > 0 {
        lemma_list_re(s.drop_last());
        assert forall|j: int| 0 <= j < s.len() implies #[trigger] list_re(s)[j] == ast_re(s[j]) by {
            if j < s.len() - 1 {
                assert(s.drop_last()[j] == s[j]);
            }
        }
    }
}

proof fn lemma_list_re_push(s: Seq<AST>, a: AST)
    ensures
        list_re(s.push(a)) == list_re(s).push(ast_re(a)),
{
    assert(s.push(a).drop_last() =~= s);
}

pub proof fn lemma_list_re_drop_last(s: Seq<AST>)
    requires
        s.len() > 0,
    ensures
        list_re(s.drop_last()) == list_re(s).drop_last(),
        list_re(s).last() == ast_re(s.last()),
{
    assert(list_re(s).drop_last() =~= list_re(s.drop_last()));
}

/// Alternation of the shapes `s`, right-associated.
pub open spec fn re_or_chain(s: Seq<Re>) -> Re
    decreases s.len(),
{
    if s.len() <= 1 {
        s[0]
    } else {
        Re::Or(Box::new(s[0]), Box::new(re_or_chain(s.drop_first())))
    }
}

/// The branches of a group when it closes: the finished ones, then the
/// current concatenation where it holds anything.
pub open spec fn close_branches(cat: Seq<Re>, alts: Seq<Re>) -> Seq<Re> {
    if cat.len() > 0 {
        alts.push(Re::Cat(cat))
    } else {
        alts
    }
}

/// What the parser holds between two characters: the concatenation being
/// built, the finished alternatives of the current group, what was open
/// outside each unclosed parenthesis, and whether a backslash is pending.
pub struct ParseState {
    pub cat: Seq<Re>,
    pub alts: Seq<Re>,
    pub outer: Seq<(Seq<Re>, Seq<Re>)>,
    pub escaped: bool,
}

/// The quantifier written `c` applied to `a`.
pub open spec fn re_quantified(c: char, a: Re) -> Re {
    if c == '+' {
        Re::Plus(Box::new(a))
    } else if c == '*' {
        Re::Star(Box::new(a))
    } else {
        Re::Question(Box::new(a))
    }
}

/// The effect of the character `c` at position `pos`.
pub open spec fn parse_step(st: ParseState, c: char, pos: int) -> Result<ParseState, ParseError> {
    if st.escaped {
        if is_escapable(c) {
            Ok(ParseState { cat: st.cat.push(Re::Lit(c)), escaped: false, ..st })
        } else {
            Err(ParseError::InvalidEscape(pos as usize, c))
        }
    } else if c == '+' || c == '*' || c == '?' {
        if st.cat.len() == 0 {
            Err(ParseError::NoPrev(pos as usize))
        } else {
            Ok(ParseState { cat: st.cat.drop_last().push(re_quantified(c, st.cat.last())), ..st })
        }
    } else if c == '(' {
        Ok(ParseState { cat: seq![], alts: seq![], outer: st.outer.push((st.cat, st.alts)), escaped: false })
    } else if c == ')' {
        if st.outer.len() == 0 {
            Err(ParseError::InvalidRightParen(pos as usize))
        } else {
            let br = close_branches(st.cat, st.alts);
            let prev = st.outer.last();
            Ok(ParseState {
                cat: if br.len() > 0 { prev.0.push(re_or_chain(br)) } else { prev.0 },
                alts: prev.1,
                outer: st.outer.drop_last(),
                escaped: false,
            })
        }
    } else if c == '|' {
        if st.cat.len() == 0 {
            Err(ParseError::NoPrev(pos as usize))
        } else {
            Ok(ParseState { cat: seq![], alts: st.alts.push(Re::Cat(st.cat)), ..st })
        }
    } else if c == '\\' {
        Ok(ParseState { escaped: true, ..st })
    } else {
        Ok(ParseState { cat: st.cat.push(Re::Lit(c)), ..st })
    }
}

proof fn lemma_step_literal(st: ParseState, cat: Seq<AST>, c: char, pos: int)
    requires
        !st.escaped,
        st.cat == list_re(cat),
        c != '+' && c != '*' && c != '?' && c != '(' && c != ')' && c != '|' && c != '\\',
    ensures
        parse_step(st, c, pos) == Ok::<ParseState, ParseError>(
            ParseState { cat: list_re(cat.push(AST::Char(c))), ..st },
        ),
{
    lemma_list_re_push(cat, AST::Char(c));
}

/// The state after reading all of `cs`, or the first error.
pub open spec fn parse_run(cs: Seq<char>) -> Result<ParseState, ParseError>
    decreases cs.len(),
{
    if cs.len() == 0 {
        Ok(ParseState { cat: seq![], alts: seq![], outer: seq![], escaped: false })
    } else {
        match parse_run(cs.drop_last()) {
            Ok(st) => parse_step(st, cs.last(), cs.len() - 1),
            Err(e) => Err(e),
        }
    }
}

/// The shape of the tree that the pattern `cs` denotes, or why it has none.
pub open spec fn parse_spec(cs: Seq<char>) -> Result<Re, ParseError> {
    match parse_run(cs) {
        Ok(st) => if st.outer.len() > 0 {
            Err(ParseError::NoRightParen)
        } else {
            let br = close_branches(st.cat, st.alts);
            if br.len() == 0 {
                Err(ParseError::Empty)
            } else {
                Ok(re_or_chain(br))
            }
        },
        Err(e) => Err(e),
    }
}

proof fn lemma_run_err_stays(cs: Seq<char>, k: int)
    requires
        0 <= k <= cs.len(),
        parse_run(cs.take(k)) is Err,
    ensures
        parse_run(cs) == parse_run(cs.take(k)),
    decreases cs.len() - k,
{
    if k < cs.len() {
        assert(cs.take(k + 1).drop_last() =~= cs.take(k));
        lemma_run_err_stays(cs, k + 1);
    } else {
        assert(cs.take(k) =~= cs);
    }
}

/// A pattern that starts with a quantifier or a bar has nothing for it to
/// apply to, and is refused with `NoPrev` at position 0.
pub proof fn lemma_no_prev_at_start(cs: Seq<char>)
    requires
        cs.len() > 0,
        needs_prev(cs[0]),
    ensures
        parse_spec(cs) == Err::<Re, ParseError>(ParseError::NoPrev(0)),
{
    assert(cs.take(1).drop_last() =~= cs.take(0));
    assert(cs.take(0).len() == 0);
    assert(cs.take(1).len() == 1);
    assert(cs.take(1).last() == cs[0]);
    let st = ParseState { cat: seq![], alts: seq![], outer: seq![], escaped: false };
    assert(parse_run(cs.take(0)) == Ok::<ParseState, ParseError>(st));
    assert(parse_step(st, cs[0], 0) == Err::<ParseState, ParseError>(ParseError::NoPrev(0)));
    assert(parse_run(cs.take(1)) == Err::<ParseState, ParseError>(ParseError::NoPrev(0)));
    lemma_run_err_stays(cs, 1);
}

/// The characters that a backslash turns into literals.
pub open spec fn is_escapable(c: char) -> bool {
    c == '\\' || c == '(' || c == ')' || c == '|' || c == '+' || c == '*' || c == '?'
}

/// The characters that need something before them.
pub open spec fn needs_prev(c: char) -> bool {
    c == '+' || c == '*' || c == '?' || c == '|'
}

/// A literal character: none of the characters with a meaning of their own.
pub open spec fn is_plain(c: char) -> bool {
    !is_escapable(c)
}

proof fn lemma_or_chain_re(s: Seq<AST>)
    requires
        s.len() > 0,
    ensures
        ast_re(or_chain(s)) == re_or_chain(list_re(s)),
    decreases s.len(),
{
    lemma_list_re(s);
    lemma_list_re(s.drop_first());
    if s.len() > 1 {
        lemma_or_chain_re(s.drop_first());
        assert(list_re(s.drop_first()) =~= list_re(s).drop_first());
    }
}

/// The parser state that the accumulators stand for.
pub open spec fn state_of(
    cat: Seq<AST>,
    alts: Seq<AST>,
    outer: Seq<(Vec<AST>, Vec<AST>)>,
    escaped: bool,
) -> ParseState {
    ParseState { cat: list_re(cat), alts: list_re(alts), outer: outer_re(outer), escaped }
}

/// The shapes of what each unclosed parenthesis left open.
pub open spec fn outer_re(s: Seq<(Vec<AST>, Vec<AST>)>) -> Seq<(Seq<Re>, Seq<Re>)> {
    Seq::new(s.len(), |j: int| (list_re(s[j].0@), list_re(s[j].1@)))
}

/// Alternation of the branches `s`, right-associated: `s[0] | (s[1] | ...)`.
pub open spec fn or_chain(s: Seq<AST>) -> AST
    recommends
        s.len() > 0,
    decreases s.len(),
{
    if s.len() <= 1 {
        s[0]
    } else {
        AST::Or(Box::new(s[0]), Box::new(or_chain(s.drop_first())))
    }
}

/// A literal for an escaped character; `InvalidEscape` where `c` has no
/// meaning to escape.
fn parse_escape(pos: usize, c: char) -> (r: Result<AST, ParseError>)
    ensures
        is_escapable(c) ==> r == Ok::<AST, ParseError>(AST::Char(c)),
        !is_escapable(c) ==> r == Err::<AST, ParseError>(ParseError::InvalidEscape(pos, c)),
{
    match c {
        '\\' | '(' | ')' | '|' | '+' | '*' | '?' => Ok(AST::Char(c)),
        _ => {
            let err = ParseError::InvalidEscape(pos, c);
            Err(err)
        },
    }
}

/// Which quantifier to apply.
enum PSQ {
    Plus,
    Star,
    Question,
}

/// The quantifier `q` applied to `a`.
spec fn quantified(q: PSQ, a: AST) -> AST {
    match q {
        PSQ::Plus => AST::Plus(Box::new(a)),
        PSQ::Star => AST::Star(Box::new(a)),
        PSQ::Question => AST::Question(Box::new(a)),
    }
}

/// Wraps the last item of `seq` in the quantifier; `NoPrev` where `seq` is
/// empty.
fn parse_plus_star_question(seq: &mut Vec<AST>, ast_type: PSQ, pos: usize) -> (r: Result<(), ParseError>)
    ensures
        old(seq)@.len() > 0 ==> r is Ok && final(seq)@ == old(seq)@.drop_last().push(
            quantified(ast_type, old(seq)@.last()),
        ),
        old(seq)@.len() == 0 ==> r == Err::<(), ParseError>(ParseError::NoPrev(pos)) && final(seq)@
            == old(seq)@,
{
    if let Some(prev) = seq.pop() {
        let ast = match ast_type {
            PSQ::Plus => AST::Plus(Box::new(prev)),
            PSQ::Star => AST::Star(Box::new(prev)),
            PSQ::Question => AST::Question(Box::new(prev)),
        };
        seq.push(ast);
        Ok(())
    } else {
        Err(ParseError::NoPrev(pos))
    }
}

/// Folds the branches of an alternation into one node: `None` for no
/// branch, the branch itself for one, and a right-associated chain of `Or`
/// otherwise.
fn fold_or(mut seq_or: Vec<AST>) -> (r: Option<AST>)
    ensures
        seq_or@.len() == 0 ==> r is None,
        seq_or@.len() > 0 ==> r == Some(or_chain(seq_or@)),
        seq_or@.len() > 0 ==> ast_re(r->Some_0) == re_or_chain(list_re(seq_or@)),
{
    proof {
        if seq_or@.len() > 0 {
            lemma_or_chain_re(seq_or@);
        }
    }
    let ghost all = seq_or@;
    if seq_or.len() > 1 {
        let mut ast = seq_or.pop().unwrap();
        assert(all.subrange(all.len() - 1, all.len() as int) =~= seq![ast]);
        while seq_or.len() > 0
            invariant
                0 < seq_or@.len() + 1 <= all.len(),
                seq_or@ == all.take(seq_or@.len() as int),
                ast == or_chain(all.subrange(seq_or@.len() as int, all.len() as int)),
            decreases seq_or@.len(),
        {
            let ghost k = seq_or@.len() as int;
            let s = seq_or.pop().unwrap();
            proof {
                let tail = all.subrange(k - 1, all.len() as int);
                assert(tail[0] == s);
                assert(tail.drop_first() =~= all.subrange(k, all.len() as int));
            }
            ast = AST::Or(Box::new(s), Box::new(ast));
            assert(seq_or@ =~= all.take(seq_or@.len() as int));
        }
        assert(all.subrange(0, all.len() as int) =~= all);
        Some(ast)
    } else {
        seq_or.pop()
    }
}


/// Parses a pattern into its abstract syntax tree.
///
/// Literal characters are concatenated; `\\` makes the next character a
/// literal; `+`, `*` and `?` apply to the item before them; `|` separates
/// alternatives; parentheses group.
pub fn parse(expr: &str) -> (r: Result<AST, ParseError>)
    ensures
        expr@.len() == 0 ==> r == Err::<AST, ParseError>(ParseError::Empty),
        expr@.len() > 0 && needs_prev(expr@[0]) ==> r == Err::<AST, ParseError>(ParseError::NoPrev(0)),
        r matches Err(ParseError::NoPrev(k)) ==> k < expr@.len() && needs_prev(expr@[k as int]),
        r matches Err(ParseError::InvalidRightParen(k)) ==> k < expr@.len() && expr@[k as int] == ')',
        r matches Err(ParseError::InvalidEscape(k, c)) ==> 0 < k < expr@.len() && expr@[k - 1] == '\\'
            && expr@[k as int] == c && !is_escapable(c),
        r matches Ok(a) ==> parse_spec(expr@) == Ok::<Re, ParseError>(ast_re(a)),
        r matches Err(e) ==> parse_spec(expr@) == Err::<Re, ParseError>(e),
        expr@.len() > 0 && (forall|j: int| 0 <= j < expr@.len() ==> is_plain(#[trigger] expr@[j])) ==> (
        r matches Ok(AST::Concat(v)) && v@.len() == expr@.len() && forall|j: int|
            0 <= j < v@.len() ==> #[trigger] v@[j] == AST::Char(expr@[j])),
{
    let chars = chars_of(expr);
    let ghost cs = chars@;
    let ghost plain = forall|j: int| 0 <= j < cs.len() ==> is_plain(#[trigger] cs[j]);
    let mut seq: Vec<AST> = Vec::new();
    let mut seq_or: Vec<AST> = Vec::new();
    let mut stack: Vec<(Vec<AST>, Vec<AST>)> = Vec::new();
    let mut is_escape = false;
    let mut i: usize = 0;
    proof {
        assert(cs.take(0) =~= seq![]);
        assert(outer_re(stack@) =~= seq![]);
    }
    while i < chars.len()
        invariant
            cs == chars@,
            cs == expr@,
            plain == forall|j: int| 0 <= j < cs.len() ==> is_plain(#[trigger] cs[j]),
            i <= cs.len(),
            is_escape ==> i > 0 && cs[i - 1] == '\\',
            i > 0 ==> !needs_prev(cs[0]),
            i == 0 ==> seq@.len() == 0 && seq_or@.len() == 0 && stack@.len() == 0 && !is_escape,
            plain ==> !is_escape && stack@.len() == 0 && seq_or@.len() == 0 && seq@.len() == i,
            plain ==> forall|j: int| 0 <= j < i ==> #[trigger] seq@[j] == AST::Char(cs[j]),
            parse_run(cs.take(i as int)) == Ok::<ParseState, ParseError>(
                state_of(seq@, seq_or@, stack@, is_escape),
            ),
        decreases cs.len() - i,
    {
        let c = chars[i];
        let ghost seq0 = seq@;
        let ghost st = state_of(seq@, seq_or@, stack@, is_escape);
        proof {
            if plain {
                assert(is_plain(cs[i as int]));
            }
            assert(cs.take(i + 1).drop_last() =~= cs.take(i as int));
            assert(cs.take(i + 1).last() == c);
            assert(parse_run(cs.take(i + 1)) == parse_step(st, c, i as int));
        }
        if is_escape {
            is_escape = false;
            match parse_escape(i, c) {
                Ok(e) => {
                    proof {
                        lemma_list_re_push(seq@, e);
                    }
                    seq.push(e);
                },
                Err(e) => {
                    proof {
                        lemma_run_err_stays(cs, i + 1);
                    }
                    return Err(e);
                },
            }
        } else {
            match c {
                '+' | '*' | '?' => {
                    let q = if c == '+' {
                        PSQ::Plus
                    } else if c == '*' {
                        PSQ::Star
                    } else {
                        PSQ::Question
                    };
                    match parse_plus_star_question(&mut seq, q, i) {
                        Ok(()) => {
                            proof {
                                lemma_list_re_drop_last(seq0);
                                lemma_list_re_push(seq0.drop_last(), quantified(q, seq0.last()));
                            }
                        },
                        Err(e) => {
                            proof {
                                lemma_run_err_stays(cs, i + 1);
                            }
                            return Err(e);
                        },
                    }
                },
                '(' => {
                    let mut prev: Vec<AST> = Vec::new();
                    let mut prev_or: Vec<AST> = Vec::new();
                    std::mem::swap(&mut prev, &mut seq);
                    std::mem::swap(&mut prev_or, &mut seq_or);
                    let ghost old_stack = stack@;
                    stack.push((prev, prev_or));
                    proof {
                        assert(outer_re(stack@) =~= outer_re(old_stack).push(
                            (list_re(prev@), list_re(prev_or@)),
                        ));
                        assert(list_re(seq@) =~= seq![]);
                        assert(list_re(seq_or@) =~= seq![]);
                    }
                },
                ')' => {
                    let ghost old_stack = stack@;
                    if let Some((prev, prev_or)) = stack.pop() {
                        let mut prev = prev;
                        let mut prev_or = prev_or;
                        proof {
                            assert(outer_re(stack@) =~= outer_re(old_stack).drop_last());
                            assert(outer_re(old_stack).last() == (list_re(prev@), list_re(prev_or@)));
                        }
                        std::mem::swap(&mut prev, &mut seq);
                        std::mem::swap(&mut prev_or, &mut seq_or);
                        if prev.len() > 0 {
                            proof {
                                lemma_list_re_push(prev_or@, AST::Concat(prev));
                                lemma_list_re(prev@);
                            }
                            prev_or.push(AST::Concat(prev));
                        } else {
                            proof {
                                lemma_list_re(prev@);
                            }
                        }
                        proof {
                            lemma_list_re(prev_or@);
                        }
                        match fold_or(prev_or) {
                            Some(ast) => {
                                proof {
                                    lemma_list_re_push(seq@, ast);
                                }
                                seq.push(ast);
                            },
                            None => {},
                        }
                    } else {
                        proof {
                            lemma_run_err_stays(cs, i + 1);
                        }
                        return Err(ParseError::InvalidRightParen(i));
                    }
                },
                '|' => {
                    if seq.len() == 0 {
                        proof {
                            lemma_list_re(seq@);
                            lemma_run_err_stays(cs, i + 1);
                        }
                        return Err(ParseError::NoPrev(i));
                    } else {
                        let mut prev: Vec<AST> = Vec::new();
                        std::mem::swap(&mut prev, &mut seq);
                        proof {
                            lemma_list_re_push(seq_or@, AST::Concat(prev));
                            assert(list_re(seq@) =~= seq![]);
                        }
                        seq_or.push(AST::Concat(prev));
                    }
                },
                '\\' => {
                    is_escape = true;
                },
                _ => {
                    proof {
                        lemma_list_re_push(seq@, AST::Char(c));
                    }
                    seq.push(AST::Char(c));
                    proof {
                        vstd::seq::axiom_seq_push_len(seq0, AST::Char(c));
                        lemma_step_literal(st, seq0, c, i as int);
                    }
                },
            }
        }
        i = i + 1;
        proof {
            if plain {
                assert(seq@ == seq0.push(AST::Char(c)));
                assert forall|j: int| 0 <= j < i implies #[trigger] seq@[j] == AST::Char(cs[j]) by {
                    if j < i - 1 {
                        vstd::seq::axiom_seq_push_index_different(seq0, AST::Char(cs[i - 1]), j);
                        assert(seq@[j] == seq0[j]);
                    } else {
                        vstd::seq::axiom_seq_push_index_same(seq0, AST::Char(cs[i - 1]), j);
                    }
                }
            }
        }
    }
    proof {
        assert(cs.take(cs.len() as int) =~= cs);
    }
    if stack.len() > 0 {
        return Err(ParseError::NoRightParen);
    }
    if seq.len() > 0 {
        proof {
            lemma_list_re_push(seq_or@, AST::Concat(seq));
            lemma_list_re(seq@);
        }
        seq_or.push(AST::Concat(seq));
    } else {
        proof {
            lemma_list_re(seq@);
        }
    }
    proof {
        lemma_list_re(seq_or@);
    }
    match fold_or(seq_or) {
        Some(ast) => Ok(ast),
        None => Err(ParseError::Empty),
    }
}

} // verus!
