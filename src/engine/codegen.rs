//! Compilation of an abstract syntax tree into byte code.
use vstd::prelude::*;

use super::parser::{ast_re, lemma_list_re, lemma_list_re_drop_last, list_re, AST};
use super::Instruction;
use crate::helper::safe_add;

verus! {

broadcast use vstd::std_specs::vec::group_vec_axioms, vstd::seq::group_seq_axioms;

/// Why code generation stopped.
#[derive(Debug, PartialEq, Eq, Structural)]
pub enum CodeGenError {
    PCOverFlow,
    FailStar,
    FailOr,
    FailQuestion,
}

/// Number of instructions that the code of `a` takes.
pub open spec fn code_len(a: AST) -> nat
    decreases a,
{
    match a {
        AST::Char(_) => 1,
        AST::Concat(v) => code_len_list(v@),
        AST::Or(e1, e2) => code_len(*e1) + code_len(*e2) + 2,
        AST::Star(e) => code_len(*e) + 2,
        AST::Plus(e) => code_len(*e) + 1,
        AST::Question(e) => code_len(*e) + 1,
    }
}

/// Number of instructions that the code of a concatenation takes.
pub open spec fn code_len_list(s: Seq<AST>) -> nat
    decreases s,
{
    if s.len() == 0 {
        0
    } else {
        code_len_list(s.drop_last()) + code_len(s.last())
    }
}

/// The code of `a` when it is placed at address `s`.
pub open spec fn code_of(a: AST, s: int) -> Seq<Instruction>
    decreases a,
{
    match a {
        AST::Char(c) => seq![Instruction::Char(c)],
        AST::Concat(v) => code_of_list(v@, s),
        AST::Or(e1, e2) => {
            let l1 = code_len(*e1);
            let l2 = code_len(*e2);
            seq![Instruction::Split((s + 1) as usize, (s + 2 + l1) as usize)] + code_of(*e1, s + 1)
                + seq![Instruction::Jump((s + 2 + l1 + l2) as usize)] + code_of(*e2, s + 2 + l1)
        },
        AST::Star(e) => {
            let l = code_len(*e);
            seq![Instruction::Split((s + 1) as usize, (s + 2 + l) as usize)] + code_of(*e, s + 1)
                + seq![Instruction::Jump(s as usize)]
        },
        AST::Plus(e) => {
            let l = code_len(*e);
            code_of(*e, s) + seq![Instruction::Split(s as usize, (s + l + 1) as usize)]
        },
        AST::Question(e) => {
            let l = code_len(*e);
            seq![Instruction::Split((s + 1) as usize, (s + 1 + l) as usize)] + code_of(*e, s + 1)
        },
    }
}

/// The code of a concatenation placed at address `s`: its parts one after another.
pub open spec fn code_of_list(v: Seq<AST>, s: int) -> Seq<Instruction>
    decreases v,
{
    if v.len() == 0 {
        seq![]
    } else {
        code_of_list(v.drop_last(), s) + code_of(v.last(), s + code_len_list(v.drop_last()))
    }
}

/// The whole program for `a`: its code at address 0, then `Match`.
pub open spec fn program_of(a: AST) -> Seq<Instruction> {
    code_of(a, 0) + seq![Instruction::Match]
}

/// Every jump and split target of `p` is an address of `p`.
pub open spec fn targets_in(p: Seq<Instruction>, lo: int, hi: int) -> bool {
    forall|i: int|
        0 <= i < p.len() ==> match #[trigger] p[i] {
            Instruction::Jump(t) => lo <= t <= hi,
            Instruction::Split(t1, t2) => lo <= t1 <= hi && lo <= t2 <= hi,
            _ => true,
        }
}

/// A program that the machine can run: it ends in `Match` and every target is
/// one of its addresses.
pub open spec fn well_formed(p: Seq<Instruction>) -> bool {
    &&& p.len() > 0
    &&& p.last() == Instruction::Match
    &&& targets_in(p, 0, p.len() - 1)
}

proof fn lemma_code_len(a: AST, s: int)
    ensures
        code_of(a, s).len() == code_len(a),
    decreases a,
{
    match a {
        AST::Char(_) => {},
        AST::Concat(v) => lemma_code_list_len(v@, s),
        AST::Or(e1, e2) => {
            lemma_code_len(*e1, s + 1);
            lemma_code_len(*e2, s + 2 + code_len(*e1));
        },
        AST::Star(e) => lemma_code_len(*e, s + 1),
        AST::Plus(e) => lemma_code_len(*e, s),
        AST::Question(e) => lemma_code_len(*e, s + 1),
    }
}

pub proof fn lemma_code_list_len(v: Seq<AST>, s: int)
    ensures
        code_of_list(v, s).len() == code_len_list(v),
    decreases v,
{
    if v.len() > 0 {
        lemma_code_list_len(v.drop_last(), s);
        lemma_code_len(v.last(), s + code_len_list(v.drop_last()));
    }
}

proof fn lemma_code(a: AST, s: int)
    requires
        0 <= s,
        s + code_len(a) <= usize::MAX,
    ensures
        code_of(a, s).len() == code_len(a),
        targets_in(code_of(a, s), s, s + code_len(a)),
    decreases a,
{
    match a {
        AST::Char(c) => {},
        AST::Concat(v) => lemma_code_list(v@, s),
        AST::Or(e1, e2) => {
            lemma_code(*e1, s + 1);
            lemma_code(*e2, s + 2 + code_len(*e1));
            let c = code_of(a, s);
            let c1 = code_of(*e1, s + 1);
            let c2 = code_of(*e2, s + 2 + code_len(*e1));
            assert forall|i: int| 0 <= i < c1.len() implies c[i + 1] == c1[i] by {}
            assert forall|i: int| 0 <= i < c2.len() implies c[i + 2 + c1.len()] == c2[i] by {}
            assert forall|i: int| 0 <= i < c.len() implies match #[trigger] c[i] {
                Instruction::Jump(t) => s <= t <= s + code_len(a),
                Instruction::Split(t1, t2) => s <= t1 <= s + code_len(a) && s <= t2 <= s + code_len(a),
                _ => true,
            } by {
                if 1 <= i < 1 + c1.len() {
                    assert(c[i] == c1[i - 1]);
                } else if 2 + c1.len() <= i {
                    assert(c[i] == c2[i - 2 - c1.len()]);
                }
            }
        },
        AST::Star(e) => {
            lemma_code(*e, s + 1);
            let c = code_of(a, s);
            let c1 = code_of(*e, s + 1);
            assert forall|i: int| 0 <= i < c.len() implies match #[trigger] c[i] {
                Instruction::Jump(t) => s <= t <= s + code_len(a),
                Instruction::Split(t1, t2) => s <= t1 <= s + code_len(a) && s <= t2 <= s + code_len(a),
                _ => true,
            } by {
                if 1 <= i < 1 + c1.len() {
                    assert(c[i] == c1[i - 1]);
                }
            }
        },
        AST::Plus(e) => {
            lemma_code(*e, s);
            let c = code_of(a, s);
            let c1 = code_of(*e, s);
            assert forall|i: int| 0 <= i < c.len() implies match #[trigger] c[i] {
                Instruction::Jump(t) => s <= t <= s + code_len(a),
                Instruction::Split(t1, t2) => s <= t1 <= s + code_len(a) && s <= t2 <= s + code_len(a),
                _ => true,
            } by {
                if i < c1.len() {
                    assert(c[i] == c1[i]);
                }
            }
        },
        AST::Question(e) => {
            lemma_code(*e, s + 1);
            let c = code_of(a, s);
            let c1 = code_of(*e, s + 1);
            assert forall|i: int| 0 <= i < c.len() implies match #[trigger] c[i] {
                Instruction::Jump(t) => s <= t <= s + code_len(a),
                Instruction::Split(t1, t2) => s <= t1 <= s + code_len(a) && s <= t2 <= s + code_len(a),
                _ => true,
            } by {
                if 1 <= i {
                    assert(c[i] == c1[i - 1]);
                }
            }
        },
    }
}

proof fn lemma_code_list(v: Seq<AST>, s: int)
    requires
        0 <= s,
        s + code_len_list(v) <= usize::MAX,
    ensures
        code_of_list(v, s).len() == code_len_list(v),
        targets_in(code_of_list(v, s), s, s + code_len_list(v)),
    decreases v,
{
    if v.len() > 0 {
        let d = v.drop_last();
        lemma_code_list(d, s);
        lemma_code(v.last(), s + code_len_list(d));
        let c = code_of_list(v, s);
        let c0 = code_of_list(d, s);
        let c1 = code_of(v.last(), s + code_len_list(d));
        assert forall|i: int| 0 <= i < c.len() implies match #[trigger] c[i] {
            Instruction::Jump(t) => s <= t <= s + code_len_list(v),
            Instruction::Split(t1, t2) => s <= t1 <= s + code_len_list(v) && s <= t2 <= s
                + code_len_list(v),
            _ => true,
        } by {
            if i < c0.len() {
                assert(c[i] == c0[i]);
            } else {
                assert(c[i] == c1[i - c0.len()]);
            }
        }
    }
}

/// The code of a concatenation of literals is those literals, one `Char`
/// instruction each.
pub proof fn lemma_literal_code(v: Seq<AST>, s: int)
    requires
        forall|j: int| 0 <= j < v.len() ==> #[trigger] v[j] is Char,
    ensures
        code_of_list(v, s).len() == v.len(),
        forall|j: int|
            0 <= j < v.len() ==> #[trigger] code_of_list(v, s)[j] == Instruction::Char(v[j]->Char_0),
    decreases v.len(),
{
    if v.len() > 0 {
        let d = v.drop_last();
        assert forall|j: int| 0 <= j < d.len() implies #[trigger] d[j] is Char by {
            assert(d[j] == v[j]);
        }
        lemma_literal_code(d, s);
        lemma_code_list_len(d, s);
        let c = code_of_list(v, s);
        let c0 = code_of_list(d, s);
        assert(v.last() is Char);
        let lc = code_of(v.last(), s + code_len_list(d));
        assert(lc =~= seq![Instruction::Char(v.last()->Char_0)]);
        assert(c == c0 + lc);
        assert forall|j: int| 0 <= j < v.len() implies #[trigger] c[j] == Instruction::Char(v[j]->Char_0) by {
            if j < d.len() {
                assert(c[j] == c0[j]);
                assert(d[j] == v[j]);
            }
        }
    }
}

/// The code of a tree holds no `Match`.
proof fn lemma_code_no_match(a: AST, s: int)
    ensures
        forall|i: int| 0 <= i < code_of(a, s).len() ==> #[trigger] code_of(a, s)[i] != Instruction::Match,
    decreases a,
{
    lemma_code_len(a, s);
    let c = code_of(a, s);
    match a {
        AST::Char(_) => {},
        AST::Concat(v) => lemma_code_list_no_match(v@, s),
        AST::Or(e1, e2) => {
            let s2 = s + 2 + code_len(*e1);
            lemma_code_no_match(*e1, s + 1);
            lemma_code_no_match(*e2, s2);
            lemma_code_len(*e1, s + 1);
            let c1 = code_of(*e1, s + 1);
            let c2 = code_of(*e2, s2);
            assert forall|i: int| 0 <= i < c.len() implies #[trigger] c[i] != Instruction::Match by {
                if 1 <= i < 1 + c1.len() {
                    assert(c[i] == c1[i - 1]);
                } else if 2 + c1.len() <= i {
                    assert(c[i] == c2[i - 2 - c1.len()]);
                }
            }
        },
        AST::Star(e) => {
            lemma_code_no_match(*e, s + 1);
            let c1 = code_of(*e, s + 1);
            assert forall|i: int| 0 <= i < c.len() implies #[trigger] c[i] != Instruction::Match by {
                if 1 <= i < 1 + c1.len() {
                    assert(c[i] == c1[i - 1]);
                }
            }
        },
        AST::Plus(e) => {
            lemma_code_no_match(*e, s);
            let c1 = code_of(*e, s);
            assert forall|i: int| 0 <= i < c.len() implies #[trigger] c[i] != Instruction::Match by {
                if i < c1.len() {
                    assert(c[i] == c1[i]);
                }
            }
        },
        AST::Question(e) => {
            lemma_code_no_match(*e, s + 1);
            let c1 = code_of(*e, s + 1);
            assert forall|i: int| 0 <= i < c.len() implies #[trigger] c[i] != Instruction::Match by {
                if 1 <= i {
                    assert(c[i] == c1[i - 1]);
                }
            }
        },
    }
}

proof fn lemma_code_list_no_match(v: Seq<AST>, s: int)
    ensures
        forall|i: int|
            0 <= i < code_of_list(v, s).len() ==> #[trigger] code_of_list(v, s)[i] != Instruction::Match,
    decreases v,
{
    if v.len() > 0 {
        let d = v.drop_last();
        lemma_code_list_no_match(d, s);
        lemma_code_no_match(v.last(), s + code_len_list(d));
        let c = code_of_list(v, s);
        let c0 = code_of_list(d, s);
        let c1 = code_of(v.last(), s + code_len_list(d));
        assert forall|i: int| 0 <= i < c.len() implies #[trigger] c[i] != Instruction::Match by {
            if i < c0.len() {
                assert(c[i] == c0[i]);
            } else {
                assert(c[i] == c1[i - c0.len()]);
            }
        }
    }
}

/// Trees of the same shape have the same code.
pub proof fn lemma_same_shape_code(a: AST, b: AST, s: int)
    requires
        ast_re(a) == ast_re(b),
    ensures
        code_len(a) == code_len(b),
        code_of(a, s) == code_of(b, s),
    decreases a,
{
    match a {
        AST::Char(_) => {
            assert(b is Char);
        },
        AST::Concat(v) => {
            assert(b is Concat);
            let w = b->Concat_0;
            lemma_same_shape_code_list(v@, w@, s);
        },
        AST::Or(e1, e2) => {
            assert(b is Or);
            let f1 = b->Or_0;
            let f2 = b->Or_1;
            lemma_same_shape_code(*e1, *f1, s + 1);
            lemma_same_shape_code(*e2, *f2, s + 2 + code_len(*e1));
        },
        AST::Star(e) => {
            assert(b is Star);
            lemma_same_shape_code(*e, *b->Star_0, s + 1);
        },
        AST::Plus(e) => {
            assert(b is Plus);
            lemma_same_shape_code(*e, *b->Plus_0, s);
        },
        AST::Question(e) => {
            assert(b is Question);
            lemma_same_shape_code(*e, *b->Question_0, s + 1);
        },
    }
}

/// Concatenations of the same shapes have the same code.
pub proof fn lemma_same_shape_code_list(v: Seq<AST>, w: Seq<AST>, s: int)
    requires
        list_re(v) == list_re(w),
    ensures
        code_len_list(v) == code_len_list(w),
        code_of_list(v, s) == code_of_list(w, s),
    decreases v,
{
    lemma_list_re(v);
    lemma_list_re(w);
    if v.len() > 0 {
        lemma_list_re_drop_last(v);
        lemma_list_re_drop_last(w);
        lemma_same_shape_code_list(v.drop_last(), w.drop_last(), s);
        lemma_same_shape_code(v.last(), w.last(), s + code_len_list(v.drop_last()));
    }
}

/// The program for an abstract syntax tree whose code fits the address space
/// ends in `Match`, which is its only `Match`, and every jump and split in it
/// targets one of its addresses.
pub proof fn lemma_program_well_formed(a: AST)
    requires
        code_len(a) < usize::MAX,
    ensures
        program_of(a).len() == code_len(a) + 1,
        well_formed(program_of(a)),
        forall|i: int| 0 <= i < code_len(a) ==> #[trigger] program_of(a)[i] != Instruction::Match,
{
    lemma_code(a, 0);
    lemma_code_no_match(a, 0);
    let p = program_of(a);
    let c = code_of(a, 0);
    assert forall|i: int| 0 <= i < p.len() implies match #[trigger] p[i] {
        Instruction::Jump(t) => 0 <= t <= p.len() - 1,
        Instruction::Split(t1, t2) => 0 <= t1 <= p.len() - 1 && 0 <= t2 <= p.len() - 1,
        _ => true,
    } by {
        if i < c.len() {
            assert(p[i] == c[i]);
        }
    }
}

/// Number of nodes of `a`, by which the generator's recursion is measured.
spec fn ast_size(a: AST) -> nat
    decreases a,
{
    match a {
        AST::Char(_) => 1,
        AST::Concat(v) => size_list(v@) + 1,
        AST::Or(e1, e2) => ast_size(*e1) + ast_size(*e2) + 1,
        AST::Star(e) => ast_size(*e) + 1,
        AST::Plus(e) => ast_size(*e) + 1,
        AST::Question(e) => ast_size(*e) + 1,
    }
}

spec fn size_list(s: Seq<AST>) -> nat
    decreases s,
{
    if s.len() == 0 {
        0
    } else {
        size_list(s.drop_last()) + ast_size(s.last())
    }
}

proof fn lemma_size_elem(s: Seq<AST>, i: int)
    requires
        0 <= i < s.len(),
    ensures
        ast_size(s[i]) <= size_list(s),
    decreases s.len(),
{
    if i < s.len() - 1 {
        lemma_size_elem(s.drop_last(), i);
    }
}

/// `new` starts with `old`.
spec fn extends(old: Seq<Instruction>, new: Seq<Instruction>) -> bool {
    &&& old.len() <= new.len()
    &&& forall|i: int| 0 <= i < old.len() ==> #[trigger] new[i] == old[i]
}

fn pc_overflow() -> (e: CodeGenError)
    ensures
        e == CodeGenError::PCOverFlow,
{
    CodeGenError::PCOverFlow
}

proof fn lemma_prefix_len(v: Seq<AST>, i: int)
    requires
        0 <= i <= v.len(),
    ensures
        code_len_list(v.take(i)) <= code_len_list(v),
    decreases v.len(),
{
    if i < v.len() {
        assert(v.drop_last().take(i) =~= v.take(i));
        lemma_prefix_len(v.drop_last(), i);
    } else {
        assert(v.take(i) =~= v);
    }
}

struct Generator {
    pc: usize,
    insts: Vec<Instruction>,
}

impl Generator {
    spec fn inv(&self) -> bool {
        self.pc == self.insts@.len()
    }

    fn inc_pc(&mut self) -> (r: Result<(), CodeGenError>)
        ensures
            final(self).insts == old(self).insts,
            old(self).pc < usize::MAX ==> r is Ok && final(self).pc == old(self).pc + 1,
            old(self).pc == usize::MAX ==> r == Err::<(), _>(CodeGenError::PCOverFlow) 
                && final(self).pc == old(self).pc,
    {
        safe_add(&mut self.pc, &1, pc_overflow)
    }

    fn gen_expr(&mut self, ast: &AST) -> (r: Result<(), CodeGenError>)
        requires
            old(self).inv(),
        ensures
            final(self).inv(),
            r is Ok ==> final(self).insts@ == old(self).insts@ + code_of(*ast, old(self).pc as int),
            r is Err ==> r == Err::<(), _>(CodeGenError::PCOverFlow),
            extends(old(self).insts@, final(self).insts@),
            final(self).insts@.len() <= old(self).pc + code_len(*ast),
            old(self).pc + code_len(*ast) <= usize::MAX ==> r is Ok,
        decreases ast_size(*ast), 1int,
    {
        proof {
            lemma_code_len(*ast, self.pc as int);
        }
        match ast {
            AST::Char(c) => self.gen_char(*c),
            AST::Or(e1, e2) => self.gen_or(e1, e2),
            AST::Plus(e) => self.gen_plus(e),
            AST::Star(e) => self.gen_star(e),
            AST::Question(e) => self.gen_question(e),
            AST::Concat(v) => self.gen_seq(v),
        }
    }

    fn gen_char(&mut self, c: char) -> (r: Result<(), CodeGenError>)
        requires
            old(self).inv(),
        ensures
            final(self).inv(),
            r is Ok ==> final(self).insts@ == old(self).insts@.push(Instruction::Char(c)),
            r is Err ==> r == Err::<(), _>(CodeGenError::PCOverFlow),
            extends(old(self).insts@, final(self).insts@),
            final(self).insts@.len() <= old(self).pc + 1,
            old(self).pc < usize::MAX ==> r is Ok,
            old(self).pc == usize::MAX ==> final(self).pc == old(self).pc && final(self).insts@
                == old(self).insts@,
    {
        if self.pc == usize::MAX {
            return Err(CodeGenError::PCOverFlow);
        }
        self.insts.push(Instruction::Char(c));
        self.inc_pc()
    }

    fn gen_seq(&mut self, exprs: &Vec<AST>) -> (r: Result<(), CodeGenError>)
        requires
            old(self).inv(),
        ensures
            final(self).inv(),
            r is Ok ==> final(self).insts@ == old(self).insts@ + code_of_list(exprs@, old(self).pc as int),
            r is Err ==> r == Err::<(), _>(CodeGenError::PCOverFlow),
            extends(old(self).insts@, final(self).insts@),
            final(self).insts@.len() <= old(self).pc + code_len_list(exprs@),
            old(self).pc + code_len_list(exprs@) <= usize::MAX ==> r is Ok,
        decreases size_list(exprs@) + 1, 0int,
    {
        let ghost start = self.pc as int;
        let ghost base = self.insts@;
        let mut i: usize = 0;
        while i < exprs.len()
            invariant
                0 <= i <= exprs.len(),
                start == old(self).pc,
                base == old(self).insts@,
                self.inv(),
                self.pc == start + code_len_list(exprs@.take(i as int)),
                self.insts@ == base + code_of_list(exprs@.take(i as int), start),
            decreases exprs.len() - i,
        {
            let ghost t = exprs@.take(i as int);
            let ghost t1 = exprs@.take(i + 1);
            proof {
                assert(t1.drop_last() =~= t);
                assert(t1.last() == exprs@[i as int]);
                lemma_prefix_len(exprs@, i + 1);
                lemma_size_elem(exprs@, i as int);
                lemma_code_list_len(t, start);
                lemma_code_len(exprs@[i as int], self.pc as int);
                assert(code_len_list(t1) == code_len_list(t) + code_len(exprs@[i as int]));
                assert(code_of_list(t1, start) == code_of_list(t, start) + code_of(
                    exprs@[i as int],
                    self.pc as int,
                ));
            }
            let ghost pre = self.insts@;
            let res = self.gen_expr(&exprs[i]);
            if res.is_err() {
                assert forall|j: int| 0 <= j < base.len() implies #[trigger] self.insts@[j] == base[j] by {
                    assert(pre[j] == base[j]);
                }
                return res;
            }
            i = i + 1;
            assert(self.insts@ =~= base + code_of_list(exprs@.take(i as int), start));
        }
        assert(exprs@.take(exprs.len() as int) =~= exprs@);
        Ok(())
    }

    fn gen_or(&mut self, e1: &AST, e2: &AST) -> (r: Result<(), CodeGenError>)
        requires
            old(self).inv(),
        ensures
            final(self).inv(),
            r is Ok ==> final(self).insts@ == old(self).insts@ + code_of(
                AST::Or(Box::new(*e1), Box::new(*e2)),
                old(self).pc as int,
            ),
            r is Err ==> r == Err::<(), _>(CodeGenError::PCOverFlow),
            extends(old(self).insts@, final(self).insts@),
            final(self).insts@.len() <= old(self).pc + code_len(*e1) + code_len(*e2) + 2,
            old(self).pc + code_len(*e1) + code_len(*e2) + 2 <= usize::MAX ==> r is Ok,
        decreases ast_size(*e1) + ast_size(*e2) + 1, 0int,
    {
        proof {
            lemma_code_len(*e1, self.pc + 1);
            lemma_code_len(*e2, self.pc + 2 + code_len(*e1));
        }
        let ghost base = self.insts@;
        let split_addr = self.pc;
        if self.pc == usize::MAX {
            return Err(CodeGenError::PCOverFlow);
        }
        self.insts.push(Instruction::Split(self.pc + 1, 0));
        self.inc_pc()?;
        self.gen_expr(e1)?;
        let jump_addr = self.pc;
        if self.pc == usize::MAX {
            return Err(CodeGenError::PCOverFlow);
        }
        self.insts.push(Instruction::Jump(0));
        self.inc_pc()?;
        match self.insts[split_addr] {
            Instruction::Split(l1, _) => {
                self.insts.set(split_addr, Instruction::Split(l1, self.pc));
            },
            _ => {
                return Err(CodeGenError::FailOr);
            },
        }
        self.gen_expr(e2)?;
        match self.insts[jump_addr] {
            Instruction::Jump(_) => {
                self.insts.set(jump_addr, Instruction::Jump(self.pc));
            },
            _ => {
                return Err(CodeGenError::FailOr);
            },
        }
        assert(self.insts@ =~= base + code_of(AST::Or(Box::new(*e1), Box::new(*e2)), split_addr as int));
        Ok(())
    }

    fn gen_star(&mut self, e: &AST) -> (r: Result<(), CodeGenError>)
        requires
            old(self).inv(),
        ensures
            final(self).inv(),
            r is Ok ==> final(self).insts@ == old(self).insts@ + code_of(
                AST::Star(Box::new(*e)),
                old(self).pc as int,
            ),
            r is Err ==> r == Err::<(), _>(CodeGenError::PCOverFlow),
            extends(old(self).insts@, final(self).insts@),
            final(self).insts@.len() <= old(self).pc + code_len(*e) + 2,
            old(self).pc + code_len(*e) + 2 <= usize::MAX ==> r is Ok,
        decreases ast_size(*e) + 1, 0int,
    {
        proof {
            lemma_code_len(*e, self.pc + 1);
        }
        let ghost base = self.insts@;
        let split_addr = self.pc;
        if self.pc == usize::MAX {
            return Err(CodeGenError::PCOverFlow);
        }
        self.insts.push(Instruction::Split(self.pc + 1, 0));
        self.inc_pc()?;
        self.gen_expr(e)?;
        if self.pc == usize::MAX {
            return Err(CodeGenError::PCOverFlow);
        }
        self.insts.push(Instruction::Jump(split_addr));
        self.inc_pc()?;
        match self.insts[split_addr] {
            Instruction::Split(l1, _) => {
                self.insts.set(split_addr, Instruction::Split(l1, self.pc));
            },
            _ => {
                return Err(CodeGenError::FailStar);
            },
        }
        assert(self.insts@ =~= base + code_of(AST::Star(Box::new(*e)), split_addr as int));
        Ok(())
    }

    fn gen_plus(&mut self, e: &AST) -> (r: Result<(), CodeGenError>)
        requires
            old(self).inv(),
        ensures
            final(self).inv(),
            r is Ok ==> final(self).insts@ == old(self).insts@ + code_of(
                AST::Plus(Box::new(*e)),
                old(self).pc as int,
            ),
            r is Err ==> r == Err::<(), _>(CodeGenError::PCOverFlow),
            extends(old(self).insts@, final(self).insts@),
            final(self).insts@.len() <= old(self).pc + code_len(*e) + 1,
            old(self).pc + code_len(*e) + 1 <= usize::MAX ==> r is Ok,
        decreases ast_size(*e) + 1, 0int,
    {
        proof {
            lemma_code_len(*e, self.pc as int);
        }
        let ghost base = self.insts@;
        let start = self.pc;
        self.gen_expr(e)?;
        if self.pc == usize::MAX {
            return Err(CodeGenError::PCOverFlow);
        }
        self.insts.push(Instruction::Split(start, self.pc + 1));
        self.inc_pc()?;
        assert(self.insts@ =~= base + code_of(AST::Plus(Box::new(*e)), start as int));
        Ok(())
    }

    fn gen_question(&mut self, e: &AST) -> (r: Result<(), CodeGenError>)
        requires
            old(self).inv(),
        ensures
            final(self).inv(),
            r is Ok ==> final(self).insts@ == old(self).insts@ + code_of(
                AST::Question(Box::new(*e)),
                old(self).pc as int,
            ),
            r is Err ==> r == Err::<(), _>(CodeGenError::PCOverFlow),
            extends(old(self).insts@, final(self).insts@),
            final(self).insts@.len() <= old(self).pc + code_len(*e) + 1,
            old(self).pc + code_len(*e) + 1 <= usize::MAX ==> r is Ok,
        decreases ast_size(*e) + 1, 0int,
    {
        proof {
            lemma_code_len(*e, self.pc + 1);
        }
        let ghost base = self.insts@;
        let split_addr = self.pc;
        if self.pc == usize::MAX {
            return Err(CodeGenError::PCOverFlow);
        }
        self.insts.push(Instruction::Split(self.pc + 1, 0));
        self.inc_pc()?;
        self.gen_expr(e)?;
        match self.insts[split_addr] {
            Instruction::Split(l1, _) => {
                self.insts.set(split_addr, Instruction::Split(l1, self.pc));
            },
            _ => {
                return Err(CodeGenError::FailQuestion);
            },
        }
        assert(self.insts@ =~= base + code_of(AST::Question(Box::new(*e)), split_addr as int));
        Ok(())
    }
}

/// Compiles `ast` into a program: its code followed by `Match`.
pub fn get_code(ast: &AST) -> (r: Result<Vec<Instruction>, CodeGenError>)
    ensures
        r matches Ok(p) ==> p@ == program_of(*ast) && well_formed(p@),
        r matches Ok(p) ==> forall|i: int| 0 <= i < p@.len() - 1 ==> #[trigger] p@[i] != Instruction::Match,
        r is Err ==> r->Err_0 == CodeGenError::PCOverFlow,
        code_len(*ast) < usize::MAX ==> r is Ok,
{
    proof {
        lemma_code_len(*ast, 0);
    }
    let mut generator = Generator { pc: 0, insts: Vec::new() };
    generator.gen_expr(ast)?;
    if generator.pc == usize::MAX {
        return Err(CodeGenError::PCOverFlow);
    }
    generator.insts.push(Instruction::Match);
    generator.inc_pc()?;
    proof {
        lemma_program_well_formed(*ast);
    }
    assert(generator.insts@ =~= program_of(*ast));
    Ok(generator.insts)
}

} // verus!
