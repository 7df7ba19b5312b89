//! Running a program against a text.
use vstd::prelude::*;

use super::codegen::well_formed;
use super::Instruction;
use crate::helper::safe_add;

verus! {

/// Why running a program stopped.
#[derive(Debug, PartialEq, Eq, Structural)]
pub enum EvalError {
    PCOverFlow,
    OffsetOverflow,
}

/// Whether a thread at address `pc` and text offset `sp` reaches `Match` in at
/// most `fuel` steps.
pub open spec fn accepts_in(p: Seq<Instruction>, t: Seq<char>, pc: int, sp: int, fuel: nat) -> bool
    decreases fuel,
{
    if fuel == 0 || pc < 0 || pc >= p.len() {
        false
    } else {
        match p[pc] {
            Instruction::Char(c) => 0 <= sp < t.len() && t[sp] == c && accepts_in(
                p,
                t,
                pc + 1,
                sp + 1,
                (fuel - 1) as nat,
            ),
            Instruction::Match => true,
            Instruction::Jump(a) => accepts_in(p, t, a as int, sp, (fuel - 1) as nat),
            Instruction::Split(a, b) => accepts_in(p, t, a as int, sp, (fuel - 1) as nat)
                || accepts_in(p, t, b as int, sp, (fuel - 1) as nat),
        }
    }
}

/// Whether some run of the machine from address `pc` and offset `sp` reaches
/// `Match`.
pub open spec fn accepts(p: Seq<Instruction>, t: Seq<char>, pc: int, sp: int) -> bool {
    exists|fuel: nat| accepts_in(p, t, pc, sp, fuel)
}

/// Whether the program matches a prefix of the text: some run from address 0
/// and offset 0 reaches `Match`.
pub open spec fn matches_prefix(p: Seq<Instruction>, t: Seq<char>) -> bool {
    accepts(p, t, 0, 0)
}

/// `p` is the program that reads the characters of `cs` one by one and then
/// matches.
pub open spec fn is_literal_program(p: Seq<Instruction>, cs: Seq<char>) -> bool {
    &&& p.len() == cs.len() + 1
    &&& p[cs.len() as int] == Instruction::Match
    &&& forall|j: int| 0 <= j < cs.len() ==> #[trigger] p[j] == Instruction::Char(cs[j])
}

proof fn lemma_literal_run(p: Seq<Instruction>, cs: Seq<char>, t: Seq<char>, k: int, fuel: nat)
    requires
        is_literal_program(p, cs),
        0 <= k <= cs.len(),
        k <= t.len(),
        accepts_in(p, t, k, k, fuel),
    ensures
        cs.len() <= t.len(),
        forall|j: int| k <= j < cs.len() ==> #[trigger] t[j] == cs[j],
    decreases fuel,
{
    if k < cs.len() {
        assert(p[k] == Instruction::Char(cs[k]));
        lemma_literal_run(p, cs, t, k + 1, (fuel - 1) as nat);
    }
}

proof fn lemma_literal_accepts(p: Seq<Instruction>, cs: Seq<char>, t: Seq<char>, k: int)
    requires
        is_literal_program(p, cs),
        0 <= k <= cs.len(),
        cs.len() <= t.len(),
        forall|j: int| k <= j < cs.len() ==> #[trigger] t[j] == cs[j],
    ensures
        accepts_in(p, t, k, k, (cs.len() - k + 1) as nat),
    decreases cs.len() - k,
{
    if k < cs.len() {
        assert(p[k] == Instruction::Char(cs[k]));
        assert(t[k] == cs[k]);
        lemma_literal_accepts(p, cs, t, k + 1);
    }
}

/// A program of literals matches a prefix of a text exactly where the text
/// starts with those literals.
pub proof fn lemma_literal_program(p: Seq<Instruction>, cs: Seq<char>, t: Seq<char>)
    requires
        is_literal_program(p, cs),
    ensures
        matches_prefix(p, t) == (cs.len() <= t.len() && t.take(cs.len() as int) == cs),
{
    if matches_prefix(p, t) {
        let f = choose|f: nat| #[trigger] accepts_in(p, t, 0, 0, f);
        lemma_literal_run(p, cs, t, 0, f);
        assert(t.take(cs.len() as int) =~= cs);
    }
    if cs.len() <= t.len() && t.take(cs.len() as int) == cs {
        assert forall|j: int| 0 <= j < cs.len() implies #[trigger] t[j] == cs[j] by {
            assert(t.take(cs.len() as int)[j] == t[j]);
        }
        lemma_literal_accepts(p, cs, t, 0);
    }
}

/// The addresses marked in `k` are closed under jumps and splits, and none of
/// them is `Match`.
spec fn eps_closed(p: Seq<Instruction>, k: Seq<bool>) -> bool {
    &&& k.len() == p.len()
    &&& forall|q: int|
        0 <= q < k.len() && #[trigger] k[q] ==> closed_at(p, k, q)
}

/// The address `q` is no `Match`, and the targets of a jump or split there are marked.
spec fn closed_at(p: Seq<Instruction>, k: Seq<bool>, q: int) -> bool {
    match p[q] {
        Instruction::Match => false,
        Instruction::Jump(a) => k[a as int],
        Instruction::Split(a, b) => k[a as int] && k[b as int],
        Instruction::Char(_) => true,
    }
}

/// A run that starts inside an epsilon-closed set must leave it by reading a
/// character.
proof fn lemma_leaves_by_char(p: Seq<Instruction>, t: Seq<char>, k: Seq<bool>, pc: int, sp: int, fuel: nat)
    requires
        well_formed(p),
        eps_closed(p, k),
        0 <= pc < p.len(),
        k[pc],
        accepts_in(p, t, pc, sp, fuel),
    ensures
        exists|q: int|
            0 <= q < p.len() && #[trigger] k[q] && 0 <= sp < t.len() && p[q] == Instruction::Char(t[sp])
                && accepts(p, t, q + 1, sp + 1),
    decreases fuel,
{
    match p[pc] {
        Instruction::Char(c) => {
            assert(accepts_in(p, t, pc + 1, sp + 1, (fuel - 1) as nat));
        },
        Instruction::Match => {},
        Instruction::Jump(a) => {
            assert(p[pc] matches Instruction::Jump(_));
            lemma_leaves_by_char(p, t, k, a as int, sp, (fuel - 1) as nat);
        },
        Instruction::Split(a, b) => {
            if accepts_in(p, t, a as int, sp, (fuel - 1) as nat) {
                lemma_leaves_by_char(p, t, k, a as int, sp, (fuel - 1) as nat);
            } else {
                lemma_leaves_by_char(p, t, k, b as int, sp, (fuel - 1) as nat);
            }
        },
    }
}


/// `a` is a target of the jump or split `i`.
spec fn eps_edge(i: Instruction, a: int) -> bool {
    match i {
        Instruction::Jump(x) => x == a,
        Instruction::Split(x, y) => x == a || y == a,
        _ => false,
    }
}

/// One step back along a jump or a split: a run from its target is a run from it.
proof fn lemma_eps_back(p: Seq<Instruction>, t: Seq<char>, q: int, a: int, sp: int)
    requires
        0 <= q < p.len(),
        eps_edge(p[q], a),
        accepts(p, t, a, sp),
    ensures
        accepts(p, t, q, sp),
{
    let f = choose|f: nat| #[trigger] accepts_in(p, t, a, sp, f);
    assert(accepts_in(p, t, q, sp, f + 1));
}

/// One step back along a `Char` that reads the character at `sp`.
proof fn lemma_char_back(p: Seq<Instruction>, t: Seq<char>, q: int, sp: int)
    requires
        0 <= q < p.len(),
        0 <= sp < t.len(),
        p[q] == Instruction::Char(t[sp]),
        accepts(p, t, q + 1, sp + 1),
    ensures
        accepts(p, t, q, sp),
{
    let f = choose|f: nat| #[trigger] accepts_in(p, t, q + 1, sp + 1, f);
    assert(accepts_in(p, t, q, sp, f + 1));
}

/// Number of `false` entries.
spec fn count_false(r: Seq<bool>) -> nat
    decreases r.len(),
{
    if r.len() == 0 {
        0
    } else {
        count_false(r.drop_last()) + if r.last() {
            0nat
        } else {
            1nat
        }
    }
}

proof fn lemma_count_false_set(r: Seq<bool>, i: int)
    requires
        0 <= i < r.len(),
        !r[i],
    ensures
        count_false(r.update(i, true)) + 1 == count_false(r),
    decreases r.len(),
{
    let u = r.update(i, true);
    if i < r.len() - 1 {
        assert(u.drop_last() =~= r.drop_last().update(i, true));
        lemma_count_false_set(r.drop_last(), i);
    } else {
        assert(u.drop_last() =~= r.drop_last());
    }
}

/// Some seed address starts a run from offset `sp` that reaches `Match`.
spec fn some_seed_accepts(p: Seq<Instruction>, t: Seq<char>, seeds: Seq<usize>, sp: int) -> bool {
    exists|i: int| 0 <= i < seeds.len() && accepts(p, t, #[trigger] seeds[i] as int, sp)
}

/// Everything that the epsilon-closure of the seeds holds, at offset `sp`:
/// `Ok` with the marks of its addresses where none of them is `Match`, and
/// `Err` where one is.
fn closure(prog: &Vec<Instruction>, line: &Vec<char>, seeds: &Vec<usize>, sp: usize) -> (r: Result<
    Vec<bool>,
    (),
>)
    requires
        well_formed(prog@),
        forall|i: int| 0 <= i < seeds.len() ==> seeds@[i] < prog.len(),
    ensures
        r is Err ==> some_seed_accepts(prog@, line@, seeds@, sp as int),
        r matches Ok(k) ==> {
            &&& eps_closed(prog@, k@)
            &&& forall|i: int| 0 <= i < seeds.len() ==> k@[#[trigger] seeds@[i] as int]
            &&& forall|q: int|
                0 <= q < k.len() && #[trigger] k@[q] && accepts(prog@, line@, q, sp as int)
                    ==> some_seed_accepts(prog@, line@, seeds@, sp as int)
        },
{
    let ghost p = prog@;
    let ghost t = line@;
    let mut visited: Vec<bool> = Vec::new();
    let mut i: usize = 0;
    while i < prog.len()
        invariant
            i <= prog.len(),
            visited@.len() == i,
            forall|q: int| 0 <= q < i ==> !visited@[q],
        decreases prog.len() - i,
    {
        visited.push(false);
        i = i + 1;
    }
    let mut stack: Vec<usize> = Vec::new();
    let mut j: usize = 0;
    while j < seeds.len()
        invariant
            j <= seeds.len(),
            visited@.len() == prog.len(),
            forall|i: int| 0 <= i < seeds.len() ==> seeds@[i] < prog.len(),
            p == prog@,
            t == line@,
            forall|i: int| 0 <= i < stack.len() ==> stack@[i] < prog.len() && visited@[stack@[i] as int],
            forall|i: int| 0 <= i < j ==> visited@[#[trigger] seeds@[i] as int],
            forall|q: int| 0 <= q < prog.len() && #[trigger] visited@[q] ==> stack@.contains(q as usize),
            forall|q: int|
                0 <= q < prog.len() && #[trigger] visited@[q] && accepts(p, t, q, sp as int)
                    ==> some_seed_accepts(p, t, seeds@, sp as int),
        decreases seeds.len() - j,
    {
        let s = seeds[j];
        if !visited[s] {
            let ghost old_vis = visited@;
            let ghost old_stack = stack@;
            visited.set(s, true);
            stack.push(s);
            assert(stack@.last() == s);
            assert forall|q: int| 0 <= q < prog.len() && #[trigger] visited@[q] implies stack@.contains(q as usize) by {
                if q != s {
                    assert(old_vis[q]);
                    assert(old_stack.contains(q as usize));
                    let k = choose|k: int| 0 <= k < old_stack.len() && old_stack[k] == q as usize;
                    assert(stack@[k] == q as usize);
                }
            }
            assert forall|q: int|
                0 <= q < prog.len() && #[trigger] visited@[q] && accepts(p, t, q, sp as int)
                    implies some_seed_accepts(p, t, seeds@, sp as int) by {
                if q == s {
                    assert(seeds@[j as int] == s);
                } else {
                    assert(old_vis[q]);
                }
            }
        }
        j = j + 1;
    }
    while stack.len() > 0
        invariant
            well_formed(p),
            p == prog@,
            t == line@,
            visited@.len() == prog.len(),
            forall|i: int| 0 <= i < seeds.len() ==> seeds@[i] < prog.len(),
            forall|i: int| 0 <= i < seeds.len() ==> visited@[#[trigger] seeds@[i] as int],
            forall|i: int| 0 <= i < stack.len() ==> stack@[i] < prog.len() && visited@[stack@[i] as int],
            forall|q: int|
                0 <= q < prog.len() && #[trigger] visited@[q] ==> stack@.contains(q as usize)
                    || closed_at(p, visited@, q),
            forall|q: int|
                0 <= q < prog.len() && #[trigger] visited@[q] && accepts(p, t, q, sp as int)
                    ==> some_seed_accepts(p, t, seeds@, sp as int),
        decreases count_false(visited@), stack.len(),
    {
        let ghost old_vis = visited@;
        let ghost old_stack = stack@;
        let pc = stack.pop().unwrap();
        assert(pc == old_stack.last());
        assert(stack@ == old_stack.drop_last());
        assert(visited@[pc as int]);
        match prog[pc] {
            Instruction::Match => {
                assert(accepts_in(p, t, pc as int, sp as int, 1));
                assert(accepts(p, t, pc as int, sp as int));
                return Err(());
            },
            Instruction::Jump(a) => {
                if !visited[a] {
                    proof { lemma_count_false_set(visited@, a as int); }
                    visited.set(a, true);
                    stack.push(a);
                    assert(stack@[stack.len() - 1] == a);
                    assert(stack@.contains(a));
                }
            },
            Instruction::Split(a, b) => {
                if !visited[b] {
                    proof { lemma_count_false_set(visited@, b as int); }
                    visited.set(b, true);
                    stack.push(b);
                }
                let ghost mid = stack@;
                if !visited[a] {
                    proof { lemma_count_false_set(visited@, a as int); }
                    visited.set(a, true);
                    stack.push(a);
                    assert(stack@[stack.len() - 1] == a);
                    assert(stack@.contains(a));
                }
                proof {
                    if !old_vis[b as int] {
                        assert(mid[mid.len() - 1] == b);
                        assert(stack@[mid.len() - 1] == b);
                        assert(stack@.contains(b));
                    }
                }
            },
            Instruction::Char(_) => {},
        }
        proof {
            assert(forall|q: int| 0 <= q < prog.len() && old_vis[q] ==> #[trigger] visited@[q]);
            assert(forall|k: int| 0 <= k < old_stack.len() - 1 ==> #[trigger] stack@[k] == old_stack[k]);
            assert forall|q: int| 0 <= q < prog.len() && #[trigger] visited@[q] implies stack@.contains(q as usize) || closed_at(p, visited@, q) by {
                if old_vis[q] && q != pc {
                    if old_stack.contains(q as usize) {
                        let k = choose|k: int| 0 <= k < old_stack.len() && old_stack[k] == q as usize;
                        assert(stack@[k] == q as usize);
                    } else {
                        assert(closed_at(p, old_vis, q));
                    }
                }
            }
            assert forall|q: int|
                0 <= q < prog.len() && #[trigger] visited@[q] && accepts(p, t, q, sp as int)
                    implies some_seed_accepts(p, t, seeds@, sp as int) by {
                if !old_vis[q] {
                    lemma_eps_back(p, t, pc as int, q, sp as int);
                }
            }
        }
    }
    Ok(visited)
}


/// `x` follows a marked `Char(c)` instruction.
spec fn follows_char(p: Seq<Instruction>, k: Seq<bool>, c: char, x: int) -> bool {
    exists|q0: int| 0 <= q0 < p.len() && #[trigger] k[q0] && p[q0] == Instruction::Char(c) && x == q0 + 1
}

fn pc_overflow() -> (e: EvalError)
    ensures
        e == EvalError::PCOverFlow,
{
    EvalError::PCOverFlow
}

fn offset_overflow() -> (e: EvalError)
    ensures
        e == EvalError::OffsetOverflow,
{
    EvalError::OffsetOverflow
}

/// The set-simulation strategy: all threads advance together, one character
/// at a time, and the addresses that they can reach without reading are
/// computed once per offset.
pub fn eval_width(prog: &Vec<Instruction>, line: &Vec<char>) -> (r: Result<bool, EvalError>)
    requires
        well_formed(prog@),
    ensures
        r == Ok::<bool, EvalError>(matches_prefix(prog@, line@)),
{
    let ghost p = prog@;
    let ghost t = line@;
    let mut current: Vec<usize> = Vec::new();
    current.push(0);
    let mut sp: usize = 0;
    proof {
        assert(current@[0] == 0);
    }
    loop
        invariant
            p == prog@,
            t == line@,
            well_formed(p),
            sp <= line.len(),
            forall|i: int| 0 <= i < current.len() ==> current@[i] < prog.len(),
            forall|i: int|
                0 <= i < current.len() && accepts(p, t, #[trigger] current@[i] as int, sp as int)
                    ==> matches_prefix(p, t),
            matches_prefix(p, t) ==> some_seed_accepts(p, t, current@, sp as int),
        decreases line.len() - sp,
    {
        let closed = closure(prog, line, &current, sp);
        match closed {
            Err(()) => {
                return Ok(true);
            },
            Ok(k) => {
                if sp == line.len() {
                    proof {
                        if matches_prefix(p, t) {
                            let i = choose|i: int|
                                0 <= i < current.len() && accepts(p, t, #[trigger] current@[i] as int, sp as int);
                            let f = choose|f: nat| #[trigger] accepts_in(p, t, current@[i] as int, sp as int, f);
                            lemma_leaves_by_char(p, t, k@, current@[i] as int, sp as int, f);
                        }
                    }
                    return Ok(false);
                }
                let c = line[sp];
                let mut next: Vec<usize> = Vec::new();
                let mut q: usize = 0;
                while q < prog.len()
                    invariant
                        p == prog@,
                        t == line@,
                        well_formed(p),
                        sp < line.len(),
                        c == t[sp as int],
                        q <= prog.len(),
                        k@.len() == prog.len(),
                        forall|i: int| 0 <= i < next.len() ==> next@[i] < prog.len(),
                        forall|i: int|
                            0 <= i < next.len() ==> follows_char(p, k@, c, #[trigger] next@[i] as int),
                        forall|q0: int|
                            0 <= q0 < q && #[trigger] k@[q0] && p[q0] == Instruction::Char(c)
                                ==> next@.contains((q0 + 1) as usize),
                    decreases prog.len() - q,
                {
                    if k[q] {
                        if let Instruction::Char(d) = prog[q] {
                            if d == c {
                                let mut n = q;
                                safe_add(&mut n, &1, pc_overflow)?;
                                let ghost before = next@;
                                next.push(n);
                                proof {
                                    assert(next@[next.len() - 1] == n);
                                    assert(forall|i: int| 0 <= i < before.len() ==> next@[i] == before[i]);
                                    assert forall|q0: int|
                                        0 <= q0 < q && #[trigger] k@[q0] && p[q0] == Instruction::Char(c)
                                            implies next@.contains((q0 + 1) as usize) by {
                                        let j = choose|j: int| 0 <= j < before.len() && before[j] == (q0 + 1) as usize;
                                        assert(next@[j] == (q0 + 1) as usize);
                                    }
                                    assert(next@.contains((q + 1) as usize));
                                }
                            }
                        }
                    }
                    q = q + 1;
                }
                proof {
                    assert forall|i: int|
                        0 <= i < next.len() && accepts(p, t, #[trigger] next@[i] as int, (sp + 1) as int)
                            implies matches_prefix(p, t) by {
                        assert(follows_char(p, k@, c, next@[i] as int));
                        let q0 = choose|q0: int|
                            0 <= q0 < p.len() && #[trigger] k@[q0] && p[q0] == Instruction::Char(c)
                                && next@[i] as int == q0 + 1;
                        lemma_char_back(p, t, q0, sp as int);
                    }
                    if matches_prefix(p, t) {
                        let i = choose|i: int|
                            0 <= i < current.len() && accepts(p, t, #[trigger] current@[i] as int, sp as int);
                        let f = choose|f: nat| #[trigger] accepts_in(p, t, current@[i] as int, sp as int, f);
                        lemma_leaves_by_char(p, t, k@, current@[i] as int, sp as int, f);
                        let q1 = choose|q1: int|
                            0 <= q1 < p.len() && #[trigger] k@[q1] && 0 <= sp < t.len() && p[q1]
                                == Instruction::Char(t[sp as int]) && accepts(p, t, q1 + 1, sp + 1);
                        assert(next@.contains((q1 + 1) as usize));
                        let j = choose|j: int| 0 <= j < next.len() && next@[j] == (q1 + 1) as usize;
                        assert(accepts(p, t, next@[j] as int, sp + 1));
                    }
                }
                safe_add(&mut sp, &1, offset_overflow)?;
                current = next;
            },
        }
    }
}


/// Whether the pair of address `pc` and offset `sp` is marked in the table.
spec fn seen(tab: Seq<Vec<bool>>, pc: int, sp: int) -> bool {
    tab[sp]@[pc]
}

/// A table with one row of `len` marks for each offset from 0 to `n`.
spec fn table_shape(tab: Seq<Vec<bool>>, len: int, n: int) -> bool {
    &&& tab.len() == n + 1
    &&& forall|s: int| 0 <= s <= n ==> (#[trigger] tab[s])@.len() == len
}

/// The marked pair `(pc, sp)` is no `Match`, and every step from it leads to a
/// marked pair.
spec fn pair_closed(p: Seq<Instruction>, t: Seq<char>, tab: Seq<Vec<bool>>, pc: int, sp: int) -> bool {
    match p[pc] {
        Instruction::Match => false,
        Instruction::Jump(a) => seen(tab, a as int, sp),
        Instruction::Split(a, b) => seen(tab, a as int, sp) && seen(tab, b as int, sp),
        Instruction::Char(c) => sp < t.len() && t[sp] == c ==> seen(tab, pc + 1, sp + 1),
    }
}

/// Number of unmarked pairs.
spec fn unseen_count(tab: Seq<Vec<bool>>) -> nat
    decreases tab.len(),
{
    if tab.len() == 0 {
        0
    } else {
        unseen_count(tab.drop_last()) + count_false(tab.last()@)
    }
}

proof fn lemma_unseen_count_set(tab: Seq<Vec<bool>>, s: int, row: Vec<bool>)
    requires
        0 <= s < tab.len(),
        count_false(row@) + 1 == count_false(tab[s]@),
    ensures
        unseen_count(tab.update(s, row)) + 1 == unseen_count(tab),
    decreases tab.len(),
{
    let u = tab.update(s, row);
    if s < tab.len() - 1 {
        assert(u.drop_last() =~= tab.drop_last().update(s, row));
        lemma_unseen_count_set(tab.drop_last(), s, row);
    } else {
        assert(u.drop_last() =~= tab.drop_last());
    }
}

/// Marks the pair `(pc, sp)`.
fn mark(tab: &mut Vec<Vec<bool>>, pc: usize, sp: usize)
    requires
        sp < old(tab)@.len(),
        pc < old(tab)@[sp as int]@.len(),
        !old(tab)@[sp as int]@[pc as int],
    ensures
        final(tab)@.len() == old(tab)@.len(),
        forall|s: int| 0 <= s < old(tab)@.len() && s != sp ==> final(tab)@[s] == old(tab)@[s],
        final(tab)@[sp as int]@ == old(tab)@[sp as int]@.update(pc as int, true),
        unseen_count(final(tab)@) + 1 == unseen_count(old(tab)@),
{
    let mut row: Vec<bool> = Vec::new();
    std::mem::swap(&mut row, &mut tab[sp]);
    proof {
        lemma_count_false_set(row@, pc as int);
    }
    row.set(pc, true);
    proof {
        lemma_unseen_count_set(old(tab)@, sp as int, row);
    }
    tab.set(sp, row);
    assert(tab@ =~= old(tab)@.update(sp as int, row));
}

/// A run from a marked pair of a table whose marked pairs are all closed never
/// reaches `Match`.
proof fn lemma_closed_table(p: Seq<Instruction>, t: Seq<char>, tab: Seq<Vec<bool>>, pc: int, sp: int, fuel: nat)
    requires
        well_formed(p),
        table_shape(tab, p.len() as int, t.len() as int),
        forall|q: int, s: int|
            0 <= q < p.len() && 0 <= s <= t.len() && #[trigger] seen(tab, q, s) ==> pair_closed(p, t, tab, q, s),
        0 <= pc < p.len(),
        0 <= sp <= t.len(),
        seen(tab, pc, sp),
    ensures
        !accepts_in(p, t, pc, sp, fuel),
    decreases fuel,
{
    if fuel > 0 {
        assert(pair_closed(p, t, tab, pc, sp));
        match p[pc] {
            Instruction::Char(c) => {
                if sp < t.len() && t[sp] == c {
                    lemma_closed_table(p, t, tab, pc + 1, sp + 1, (fuel - 1) as nat);
                }
            },
            Instruction::Match => {},
            Instruction::Jump(a) => {
                lemma_closed_table(p, t, tab, a as int, sp, (fuel - 1) as nat);
            },
            Instruction::Split(a, b) => {
                lemma_closed_table(p, t, tab, a as int, sp, (fuel - 1) as nat);
                lemma_closed_table(p, t, tab, b as int, sp, (fuel - 1) as nat);
            },
        }
    }
}


/// Puts the pair `(pc, sp)` on the work stack unless it was seen before.
fn visit(tab: &mut Vec<Vec<bool>>, stack: &mut Vec<(usize, usize)>, pc: usize, sp: usize)
    requires
        sp < old(tab)@.len(),
        pc < old(tab)@[sp as int]@.len(),
    ensures
        final(tab)@.len() == old(tab)@.len(),
        forall|s: int| 0 <= s < old(tab)@.len() ==> (#[trigger] final(tab)@[s])@.len() == old(tab)@[s]@.len(),
        seen(final(tab)@, pc as int, sp as int),
        forall|q: int, s: int|
            0 <= s < old(tab)@.len() && 0 <= q < old(tab)@[s]@.len() ==> (#[trigger] seen(final(tab)@, q, s)
                <==> seen(old(tab)@, q, s) || (q == pc && s == sp)),
        !seen(old(tab)@, pc as int, sp as int) ==> final(stack)@ == old(stack)@.push((pc, sp)),
        seen(old(tab)@, pc as int, sp as int) ==> final(stack)@ == old(stack)@,
        unseen_count(final(tab)@) + final(stack)@.len() == unseen_count(old(tab)@) + old(stack)@.len(),
{
    if !tab[sp][pc] {
        mark(tab, pc, sp);
        stack.push((pc, sp));
    }
}

/// The backtracking strategy: threads are explored depth first, the first
/// target of a split before the second. A pair of address and offset that
/// was explored once is not explored again, so that loops of jumps and splits
/// that read nothing end.
pub fn eval_depth(prog: &Vec<Instruction>, line: &Vec<char>) -> (r: Result<bool, EvalError>)
    requires
        well_formed(prog@),
    ensures
        r == Ok::<bool, EvalError>(matches_prefix(prog@, line@)),
{
    let ghost p = prog@;
    let ghost t = line@;
    let ghost len = prog.len() as int;
    let ghost n = line.len() as int;
    let mut tab: Vec<Vec<bool>> = Vec::new();
    let mut s: usize = 0;
    loop
        invariant_except_break
            s <= line.len(),
            tab@.len() == s,
            forall|j: int| 0 <= j < s ==> (#[trigger] tab@[j])@.len() == prog.len(),
            forall|j: int, q: int| 0 <= j < s && 0 <= q < prog.len() ==> !#[trigger] seen(tab@, q, j),
        ensures
            tab@.len() == line.len() + 1,
            forall|j: int| 0 <= j <= line.len() ==> (#[trigger] tab@[j])@.len() == prog.len(),
            forall|j: int, q: int| 0 <= j <= line.len() && 0 <= q < prog.len() ==> !#[trigger] seen(tab@, q, j),
        decreases line.len() - s,
    {
        let mut row: Vec<bool> = Vec::new();
        let mut i: usize = 0;
        while i < prog.len()
            invariant
                i <= prog.len(),
                row@.len() == i,
                forall|q: int| 0 <= q < i ==> !row@[q],
                s <= line.len(),
                tab@.len() == s,
                forall|j: int| 0 <= j < s ==> (#[trigger] tab@[j])@.len() == prog.len(),
                forall|j: int, q: int| 0 <= j < s && 0 <= q < prog.len() ==> !#[trigger] seen(tab@, q, j),
            decreases prog.len() - i,
        {
            row.push(false);
            i = i + 1;
        }
        let ghost prev = tab@;
        tab.push(row);
        proof {
            assert(tab@[s as int] == row);
            assert forall|j: int, q: int| 0 <= j <= s && 0 <= q < prog.len() implies !#[trigger] seen(tab@, q, j) by {
                if j < s {
                    assert(tab@[j] == prev[j]);
                    assert(!seen(prev, q, j));
                } else {
                    assert(!row@[q]);
                }
            }
            assert forall|j: int| 0 <= j <= s implies (#[trigger] tab@[j])@.len() == prog.len() by {
                if j < s {
                    assert(tab@[j] == prev[j]);
                }
            }
        }
        if s == line.len() {
            break;
        }
        s = s + 1;
    }
    let mut stack: Vec<(usize, usize)> = Vec::new();
    visit(&mut tab, &mut stack, 0, 0);
    assert(stack@[0] == (0usize, 0usize));
    while stack.len() > 0
        invariant
            p == prog@,
            t == line@,
            len == p.len(),
            n == t.len(),
            len <= usize::MAX,
            n <= usize::MAX,
            well_formed(p),
            table_shape(tab@, len, n),
            seen(tab@, 0, 0),
            forall|i: int|
                0 <= i < stack.len() ==> (#[trigger] stack@[i]).0 < len && stack@[i].1 <= n && seen(
                    tab@,
                    stack@[i].0 as int,
                    stack@[i].1 as int,
                ),
            forall|q: int, s: int|
                0 <= q < len && 0 <= s <= n && #[trigger] seen(tab@, q, s) ==> stack@.contains(
                    (q as usize, s as usize),
                ) || pair_closed(p, t, tab@, q, s),
            forall|q: int, s: int|
                0 <= q < len && 0 <= s <= n && #[trigger] seen(tab@, q, s) && accepts(p, t, q, s)
                    ==> matches_prefix(p, t),
        decreases unseen_count(tab@), stack.len(),
    {
        let ghost old_tab = tab@;
        let ghost old_stack = stack@;
        let (pc, sp) = stack.pop().unwrap();
        let ghost base = stack@;
        assert(old_stack[old_stack.len() - 1] == (pc, sp));
        assert(base =~= old_stack.drop_last());
        assert(pc < len && sp <= n && seen(old_tab, pc as int, sp as int));
        match prog[pc] {
            Instruction::Match => {
                assert(accepts_in(p, t, pc as int, sp as int, 1));
                assert(accepts(p, t, pc as int, sp as int));
                return Ok(true);
            },
            Instruction::Char(c) => {
                if sp < line.len() && line[sp] == c {
                    assert(p[len - 1] == Instruction::Match);
                    assert(pc + 1 < prog.len());
                    visit(&mut tab, &mut stack, pc + 1, sp + 1);
                    proof {
                        if !seen(old_tab, pc + 1, sp + 1) {
                            assert(stack@[stack.len() - 1] == ((pc + 1) as usize, (sp + 1) as usize));
                        }
                        assert forall|q: int, s: int|
                            0 <= q < len && 0 <= s <= n && #[trigger] seen(tab@, q, s) && !seen(old_tab, q, s)
                                implies stack@.contains((q as usize, s as usize)) && (accepts(p, t, q, s)
                                ==> matches_prefix(p, t)) by {
                            if accepts(p, t, q, s) {
                                lemma_char_back(p, t, pc as int, sp as int);
                            }
                        }
                    }
                }
            },
            Instruction::Jump(a) => {
                visit(&mut tab, &mut stack, a, sp);
                proof {
                    if !seen(old_tab, a as int, sp as int) {
                        assert(stack@[stack.len() - 1] == (a, sp));
                    }
                    assert forall|q: int, s: int|
                        0 <= q < len && 0 <= s <= n && #[trigger] seen(tab@, q, s) && !seen(old_tab, q, s)
                            implies stack@.contains((q as usize, s as usize)) && (accepts(p, t, q, s)
                            ==> matches_prefix(p, t)) by {
                        if accepts(p, t, q, s) {
                            lemma_eps_back(p, t, pc as int, q, sp as int);
                        }
                    }
                }
            },
            Instruction::Split(a, b) => {
                visit(&mut tab, &mut stack, b, sp);
                let ghost mid_tab = tab@;
                let ghost mid = stack@;
                visit(&mut tab, &mut stack, a, sp);
                proof {
                    if !seen(old_tab, b as int, sp as int) {
                        assert(mid[mid.len() - 1] == (b, sp));
                        assert(stack@[mid.len() - 1] == (b, sp));
                    }
                    if !seen(mid_tab, a as int, sp as int) {
                        assert(stack@[stack.len() - 1] == (a, sp));
                    }
                    assert forall|q: int, s: int|
                        0 <= q < len && 0 <= s <= n && #[trigger] seen(tab@, q, s) && !seen(old_tab, q, s)
                            implies stack@.contains((q as usize, s as usize)) && (accepts(p, t, q, s)
                            ==> matches_prefix(p, t)) by {
                        assert(seen(mid_tab, q, s) ==> q == b && s == sp);
                        if accepts(p, t, q, s) {
                            lemma_eps_back(p, t, pc as int, q, sp as int);
                        }
                    }
                }
            },
        }
        proof {
            assert(forall|k: int| 0 <= k < base.len() ==> #[trigger] stack@[k] == base[k]);
            assert(pair_closed(p, t, tab@, pc as int, sp as int));
            assert forall|q: int, s: int|
                0 <= q < len && 0 <= s <= n && #[trigger] seen(tab@, q, s) implies stack@.contains(
                    (q as usize, s as usize),
                ) || pair_closed(p, t, tab@, q, s) by {
                if seen(old_tab, q, s) && !(q == pc && s == sp) {
                    if old_stack.contains((q as usize, s as usize)) {
                        let k = choose|k: int| 0 <= k < old_stack.len() && old_stack[k] == (q as usize, s as usize);
                        if k == old_stack.len() - 1 {
                            assert(old_stack[k].0 == pc && old_stack[k].1 == sp);
                            assert((q as usize) == pc && (s as usize) == sp);
                        }
                        assert(k < base.len());
                        assert(base[k] == old_stack[k]);
                        assert(stack@[k] == (q as usize, s as usize));
                    } else {
                        assert(pair_closed(p, t, old_tab, q, s));
                    }
                }
            }
        }
    }
    proof {
        if matches_prefix(p, t) {
            let f = choose|f: nat| #[trigger] accepts_in(p, t, 0, 0, f);
            lemma_closed_table(p, t, tab@, 0, 0, f);
        }
    }
    Ok(false)
}

} // verus!
