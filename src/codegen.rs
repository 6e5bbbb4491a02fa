//! Compiling a syntax tree into a program.
use vstd::prelude::*;

use crate::helper::safe_add;
use crate::parser::{lemma_trees_of, or_of, parse_spec, prefix_state, trees, Ast, Tree};
use crate::Instruction;

verus! {

broadcast use vstd::std_specs::vec::group_vec_axioms;

/// Why a tree could not be compiled.
#[derive(Debug, Clone, Copy, PartialEq, Eq, Structural)]
pub enum CodeGenError {
    PCOverFlow,
    FailStar,
    FailOr,
    FailQuestion,
}

/// Whether the body of a `*` is compiled in its place: a `*` directly under a
/// `*`, or alone in a sequence under a `*`, already is the whole repetition.
pub open spec fn star_collapses(e: Tree) -> bool {
    ||| e is Star
    ||| (e is Concat && e->Concat_0.len() == 1 && e->Concat_0[0] is Star)
}

/// The number of instructions compiled from `t`.
pub open spec fn size(t: Tree) -> nat
    decreases t, 0int,
{
    match t {
        Tree::Or(a, b) => size(*a) + size(*b) + 2,
        Tree::Plus(e) => size(*e) + 1,
        Tree::Question(e) => size(*e) + 1,
        Tree::Star(e) => if *e is Star {
            size(*e)
        } else if *e is Concat && e->Concat_0.len() == 1 && e->Concat_0[0] is Star {
            size(e->Concat_0[0])
        } else {
            size(*e) + 2
        },
        Tree::Concat(v) => size_list(v, v.len() as int),
        _ => 1,
    }
}

/// The number of instructions compiled from the first `n` trees of `s`.
pub open spec fn size_list(s: Seq<Tree>, n: int) -> nat
    decreases s, n,
{
    if n <= 0 || n > s.len() {
        0
    } else {
        size_list(s, n - 1) + size(s[n - 1])
    }
}

/// The address `n` as an instruction operand.
pub open spec fn addr(n: int) -> usize {
    n as usize
}

/// The instructions compiled from `t` when its first one stands at address `pc`.
///
/// `a|b` is `split L1, L2; L1: a; jump L3; L2: b; L3:`, `e?` is
/// `split L1, L2; L1: e; L2:`, `e+` is `L1: e; split L1, L2; L2:` and `e*` is
/// `L1: split L2, L3; L2: e; jump L1; L3:`, unless the body collapses.
pub open spec fn code(t: Tree, pc: int) -> Seq<Instruction>
    decreases t, 0int,
{
    match t {
        Tree::Char(c) => seq![Instruction::Char(c)],
        Tree::Dot => seq![Instruction::AnyChar],
        Tree::LineStart => seq![Instruction::HeadOfLine],
        Tree::LineEnd => seq![Instruction::EndOfLine],
        Tree::Or(a, b) => seq![Instruction::Split(addr(pc + 1), addr(pc + size(*a) + 2))]
            + code(*a, pc + 1)
            + seq![Instruction::Jump(addr(pc + size(*a) + size(*b) + 2))]
            + code(*b, pc + size(*a) + 2),
        Tree::Plus(e) => code(*e, pc) + seq![Instruction::Split(addr(pc), addr(pc + size(*e) + 1))],
        Tree::Question(e) => seq![Instruction::Split(addr(pc + 1), addr(pc + size(*e) + 1))]
            + code(*e, pc + 1),
        Tree::Star(e) => if *e is Star {
            code(*e, pc)
        } else if *e is Concat && e->Concat_0.len() == 1 && e->Concat_0[0] is Star {
            code(e->Concat_0[0], pc)
        } else {
            star_code(*e, pc)
        },
        Tree::Concat(v) => code_list(v, v.len() as int, pc),
    }
}

/// `e*` without collapsing: `L1: split L2, L3; L2: e; jump L1; L3:`.
pub open spec fn star_code(e: Tree, pc: int) -> Seq<Instruction>
    decreases e, 1int,
{
    seq![Instruction::Split(addr(pc + 1), addr(pc + size(e) + 2))]
        + code(e, pc + 1)
        + seq![Instruction::Jump(addr(pc))]
}

/// The instructions compiled from the first `n` trees of `s`, one after the
/// other, starting at address `pc`.
pub open spec fn code_list(s: Seq<Tree>, n: int, pc: int) -> Seq<Instruction>
    decreases s, n,
{
    if n <= 0 || n > s.len() {
        Seq::empty()
    } else {
        code_list(s, n - 1, pc) + code(s[n - 1], pc + size_list(s, n - 1))
    }
}

/// The whole program for `t`: its code from address 0, then `Match`.
pub open spec fn compile(t: Tree) -> Seq<Instruction> {
    code(t, 0) + seq![Instruction::Match]
}

pub proof fn lemma_code_len(t: Tree, pc: int)
    ensures
        code(t, pc).len() == size(t),
    decreases t, 0int,
{
    match t {
        Tree::Or(a, b) => {
            lemma_code_len(*a, pc + 1);
            lemma_code_len(*b, pc + size(*a) + 2);
            assert(code(t, pc).len() == code(*a, pc + 1).len() + code(*b, pc + size(*a) + 2).len() + 2);
        },
        Tree::Plus(e) => lemma_code_len(*e, pc),
        Tree::Question(e) => lemma_code_len(*e, pc + 1),
        Tree::Star(e) => {
            if *e is Star {
                lemma_code_len(*e, pc);
            } else if *e is Concat && e->Concat_0.len() == 1 && e->Concat_0[0] is Star {
                lemma_code_len(e->Concat_0[0], pc);
            } else {
                lemma_code_len(*e, pc + 1);
                assert(star_code(*e, pc).len() == size(*e) + 2);
            }
        },
        Tree::Concat(v) => lemma_code_list_len(v, v.len() as int, pc),
        _ => {},
    }
}

pub proof fn lemma_code_list_len(s: Seq<Tree>, n: int, pc: int)
    ensures
        code_list(s, n, pc).len() == size_list(s, n),
    decreases s, n,
{
    if 0 < n <= s.len() {
        lemma_code_list_len(s, n - 1, pc);
        lemma_code_len(s[n - 1], pc + size_list(s, n - 1));
    }
}

pub proof fn lemma_size_list_mono(s: Seq<Tree>, n: int, m: int)
    requires
        0 <= n <= m <= s.len(),
    ensures
        size_list(s, n) <= size_list(s, m),
    decreases m - n,
{
    if n < m {
        lemma_size_list_mono(s, n, m - 1);
    }
}

/// `r` under `k` stars.
pub open spec fn starred(r: Tree, k: nat) -> Tree
    decreases k,
{
    if k == 0 {
        r
    } else {
        Tree::Star(Box::new(starred(r, (k - 1) as nat)))
    }
}

/// Stacking more stars on `r*` changes nothing: `r**`, `r***` and so on
/// compile to exactly the program of `r*`, from any address.
pub proof fn lemma_star_chain_collapses(r: Tree, k: nat, pc: int)
    requires
        k >= 1,
    ensures
        code(starred(r, k), pc) == code(Tree::Star(Box::new(r)), pc),
        size(starred(r, k)) == size(Tree::Star(Box::new(r))),
        compile(starred(r, k)) == compile(Tree::Star(Box::new(r))),
    decreases k,
{
    if k > 1 {
        lemma_star_chain_collapses(r, (k - 1) as nat, pc);
        lemma_star_chain_collapses(r, (k - 1) as nat, 0);
        assert(starred(r, (k - 1) as nat) is Star);
    }
}

/// Whether `a` and `b` compile to the same instructions from every address.
pub open spec fn same_code(a: Tree, b: Tree) -> bool {
    size(a) == size(b) && forall|q: int| #[trigger] code(a, q) == code(b, q)
}

pub proof fn lemma_double_star_same_code(x: Tree)
    ensures
        same_code(Tree::Star(Box::new(Tree::Star(Box::new(x)))), Tree::Star(Box::new(x))),
{
    assert(starred(x, 0) == x);
    assert(starred(x, 1) == Tree::Star(Box::new(x)));
    assert(starred(x, 2) == Tree::Star(Box::new(Tree::Star(Box::new(x)))));
    assert forall|q: int|
        #[trigger] code(Tree::Star(Box::new(Tree::Star(Box::new(x)))), q) == code(Tree::Star(Box::new(x)), q) by {
        lemma_star_chain_collapses(x, 2, q);
    }
    lemma_star_chain_collapses(x, 2, 0);
}

pub proof fn lemma_code_list_same(s1: Seq<Tree>, s2: Seq<Tree>, n: int, pc: int)
    requires
        s1.len() == s2.len(),
        0 <= n <= s1.len(),
        forall|i: int| 0 <= i < s1.len() ==> same_code(#[trigger] s1[i], s2[i]),
    ensures
        size_list(s1, n) == size_list(s2, n),
        code_list(s1, n, pc) == code_list(s2, n, pc),
    decreases n,
{
    if n > 0 {
        lemma_code_list_same(s1, s2, n - 1, pc);
        assert(same_code(s1[n - 1], s2[n - 1]));
        assert(code(s1[n - 1], pc + size_list(s1, n - 1)) == code(s2[n - 1], pc + size_list(s2, n - 1)));
    }
}

pub proof fn lemma_or_of_same(alts: Seq<Tree>, a: Tree, b: Tree)
    requires
        same_code(a, b),
    ensures
        same_code(or_of(alts.push(a)), or_of(alts.push(b))),
    decreases alts.len(),
{
    if alts.len() > 0 {
        let rest = alts.drop_first();
        assert(alts.push(a).drop_first() =~= rest.push(a));
        assert(alts.push(b).drop_first() =~= rest.push(b));
        lemma_or_of_same(rest, a, b);
        let ya = or_of(rest.push(a));
        let yb = or_of(rest.push(b));
        let x = alts[0];
        assert(or_of(alts.push(a)) == Tree::Or(Box::new(x), Box::new(ya)));
        assert(or_of(alts.push(b)) == Tree::Or(Box::new(x), Box::new(yb)));
        assert forall|q: int| #[trigger] code(Tree::Or(Box::new(x), Box::new(ya)), q) == code(Tree::Or(Box::new(x), Box::new(yb)), q) by {
            assert(code(ya, q + size(x) + 2) == code(yb, q + size(x) + 2));
        }
    }
}

pub proof fn lemma_prefix_state_same(s1: Seq<char>, s2: Seq<char>, k: int)
    requires
        0 <= k <= s1.len(),
        k <= s2.len(),
        forall|i: int| 0 <= i < k ==> s1[i] == s2[i],
    ensures
        prefix_state(s1, k) == prefix_state(s2, k),
    decreases k,
{
    if k > 0 {
        lemma_prefix_state_same(s1, s2, k - 1);
    }
}

/// Adding a second `*` after a pattern that ends in a `*` leaves the program
/// unchanged: whatever the pattern `s` (unless it ends in a backslash that the
/// `*` would escape), when `s*` parses, `s**` parses too and compiles to the
/// same program.
pub proof fn lemma_pattern_double_star(s: Seq<char>)
    requires
        prefix_state(s, s.len() as int) is Ok,
        !prefix_state(s, s.len() as int)->Ok_0.escaped,
        parse_spec(s.push('*')) is Ok,
    ensures
        parse_spec(s.push('*').push('*')) is Ok,
        compile(parse_spec(s.push('*').push('*'))->Ok_0) == compile(parse_spec(s.push('*'))->Ok_0),
{
    let n = s.len() as int;
    let s1 = s.push('*');
    let s2 = s1.push('*');
    let st = prefix_state(s, n)->Ok_0;
    lemma_prefix_state_same(s, s1, n);
    lemma_prefix_state_same(s1, s2, n + 1);
    assert(prefix_state(s1, n + 1) == crate::parser::step(st, '*', n));
    let st1 = prefix_state(s1, n + 1)->Ok_0;
    let x = st.seq.last();
    assert(st1.seq == st.seq.drop_last().push(Tree::Star(Box::new(x))));
    assert(prefix_state(s2, n + 2) == crate::parser::step(st1, '*', n + 1));
    let st2 = prefix_state(s2, n + 2)->Ok_0;
    assert(st2.seq == st.seq.drop_last().push(Tree::Star(Box::new(Tree::Star(Box::new(x))))));
    lemma_double_star_same_code(x);
    assert forall|i: int| 0 <= i < st2.seq.len() implies same_code(#[trigger] st2.seq[i], st1.seq[i]) by {
        if i < st2.seq.len() - 1 {
            assert(st2.seq[i] == st1.seq[i]);
        }
    }
    lemma_code_list_same(st2.seq, st1.seq, st2.seq.len() as int, 0);
    assert forall|q: int| #[trigger] code(Tree::Concat(st2.seq), q) == code(Tree::Concat(st1.seq), q) by {
        lemma_code_list_same(st2.seq, st1.seq, st2.seq.len() as int, q);
    }
    assert(same_code(Tree::Concat(st2.seq), Tree::Concat(st1.seq)));
    lemma_or_of_same(st1.alts, Tree::Concat(st2.seq), Tree::Concat(st1.seq));
}

/// The code generator's state: the next address and the instructions so far.
struct Generator {
    pc: usize,
    insts: Vec<Instruction>,
}

/// The outcome of emitting code worth `n` instructions from address `pc0`:
/// success exactly when the last address fits, else a counter overflow.
pub open spec fn emitted(r: Result<(), CodeGenError>, pc0: int, n: int) -> bool {
    match r {
        Ok(_) => pc0 + n <= usize::MAX,
        Err(e) => e == CodeGenError::PCOverFlow && pc0 + n > usize::MAX,
    }
}

/// Compiles `ast` into a program that ends in `Match`.
pub fn gen_code(ast: &Ast) -> (r: Result<Vec<Instruction>, CodeGenError>)
    ensures
        match r {
            Ok(v) => size(ast@) + 1 <= usize::MAX && v@ == compile(ast@),
            Err(e) => e == CodeGenError::PCOverFlow && size(ast@) + 1 > usize::MAX,
        },
{
    let mut generator = Generator { pc: 0, insts: Vec::new() };
    generator.gen_code(ast)?;
    Ok(generator.insts)
}

impl Generator {
    /// Emits the code of `ast` followed by `Match`.
    fn gen_code(&mut self, ast: &Ast) -> (r: Result<(), CodeGenError>)
        requires
            old(self).pc == 0,
            old(self).insts@.len() == 0,
        ensures
            emitted(r, 0, size(ast@) + 1 as int),
            r is Ok ==> final(self).insts@ == compile(ast@),
    {
        self.gen_expr(ast)?;
        self.inc_pc()?;
        self.insts.push(Instruction::Match);
        Ok(())
    }

    /// Emits the code of `ast` at the current address.
    fn gen_expr(&mut self, ast: &Ast) -> (r: Result<(), CodeGenError>)
        requires
            old(self).pc == old(self).insts@.len(),
        ensures
            emitted(r, old(self).pc as int, size(ast@) as int),
            r is Ok ==> final(self).pc == old(self).pc + size(ast@),
            r is Ok ==> final(self).insts@ == old(self).insts@ + code(ast@, old(self).pc as int),
        decreases ast, 1int,
    {
        match ast {
            Ast::Char(c) => self.gen_char(*c),
            Ast::Or(_, _) => self.gen_or(ast),
            Ast::Plus(_) => self.gen_plus(ast),
            Ast::Star(e1) => {
                match &**e1 {
                    // A repetition of a repetition is the inner repetition itself.
                    Ast::Star(_) => self.gen_expr(e1),
                    Ast::Concat(e2) => {
                        proof {
                            lemma_trees_of(e2@, e2@.len() as int);
                        }
                        if e2.len() == 1 {
                            match &e2[0] {
                                Ast::Star(_) => self.gen_expr(&e2[0]),
                                _ => self.gen_star(ast),
                            }
                        } else {
                            self.gen_star(ast)
                        }
                    },
                    _ => self.gen_star(ast),
                }
            },
            Ast::Question(_) => self.gen_question(ast),
            Ast::Concat(_) => self.gen_seq(ast),
            Ast::Dot => self.gen_single(Instruction::AnyChar),
            Ast::LineStart => self.gen_single(Instruction::HeadOfLine),
            Ast::LineEnd => self.gen_single(Instruction::EndOfLine),
        }
    }

    /// Emits `split L1, L2; L1: e1; jump L3; L2: e2; L3:` for `ast`, an
    /// alternation `e1|e2`.
    fn gen_or(&mut self, ast: &Ast) -> (r: Result<(), CodeGenError>)
        requires
            old(self).pc == old(self).insts@.len(),
            ast is Or,
        ensures
            emitted(r, old(self).pc as int, size(ast@) as int),
            r is Ok ==> final(self).pc == old(self).pc + size(ast@),
            r is Ok ==> final(self).insts@ == old(self).insts@ + code(ast@, old(self).pc as int),
        decreases ast, 0int,
    {
        let (e1, e2) = match ast {
            Ast::Or(e1, e2) => (e1, e2),
            _ => return Err(CodeGenError::FailOr),
        };
        let ghost pc0 = self.pc as int;
        let ghost insts0 = self.insts@;
        proof {
            lemma_code_len(e1@, pc0 + 1);
            lemma_code_len(e2@, pc0 + size(e1@) + 2);
        }
        // split L1, L2
        let split_addr = self.pc;
        self.inc_pc()?;
        let split = Instruction::Split(self.pc, 0);
        self.insts.push(split);

        // L1: the code of e1
        self.gen_expr(e1)?;

        // jump L3
        let jump_addr = self.pc;
        self.insts.push(Instruction::Jump(0));

        // set L2
        self.inc_pc()?;
        match self.insts[split_addr] {
            Instruction::Split(l1, _) => self.insts.set(split_addr, Instruction::Split(l1, self.pc)),
            _ => return Err(CodeGenError::FailOr),
        }

        // L2: the code of e2
        self.gen_expr(e2)?;

        // set L3
        match self.insts[jump_addr] {
            Instruction::Jump(_) => self.insts.set(jump_addr, Instruction::Jump(self.pc)),
            _ => return Err(CodeGenError::FailOr),
        }
        assert(self.insts@ =~= insts0 + code(ast@, pc0));
        Ok(())
    }

    /// Emits `split L1, L2; L1: e; L2:` for `ast`, an option `e?`.
    fn gen_question(&mut self, ast: &Ast) -> (r: Result<(), CodeGenError>)
        requires
            old(self).pc == old(self).insts@.len(),
            ast is Question,
        ensures
            emitted(r, old(self).pc as int, size(ast@) as int),
            r is Ok ==> final(self).pc == old(self).pc + size(ast@),
            r is Ok ==> final(self).insts@ == old(self).insts@ + code(ast@, old(self).pc as int),
        decreases ast, 0int,
    {
        let e = match ast {
            Ast::Question(e) => e,
            _ => return Err(CodeGenError::FailQuestion),
        };
        let ghost pc0 = self.pc as int;
        let ghost insts0 = self.insts@;
        proof {
            lemma_code_len(e@, pc0 + 1);
        }
        // split L1, L2
        let split_addr = self.pc;
        self.inc_pc()?;
        let split = Instruction::Split(self.pc, 0);
        self.insts.push(split);

        // L1: the code of e
        self.gen_expr(e)?;

        // set L2
        match self.insts[split_addr] {
            Instruction::Split(l1, _) => {
                self.insts.set(split_addr, Instruction::Split(l1, self.pc));
                assert(self.insts@ =~= insts0 + code(ast@, pc0));
                Ok(())
            },
            _ => Err(CodeGenError::FailQuestion),
        }
    }

    /// Emits `L1: e; split L1, L2; L2:` for `ast`, a repetition `e+`.
    fn gen_plus(&mut self, ast: &Ast) -> (r: Result<(), CodeGenError>)
        requires
            old(self).pc == old(self).insts@.len(),
            ast is Plus,
        ensures
            emitted(r, old(self).pc as int, size(ast@) as int),
            r is Ok ==> final(self).pc == old(self).pc + size(ast@),
            r is Ok ==> final(self).insts@ == old(self).insts@ + code(ast@, old(self).pc as int),
        decreases ast, 0int,
    {
        let ghost insts0 = self.insts@;
        if let Ast::Plus(e) = ast {
            // L1: the code of e
            let l1 = self.pc;
            self.gen_expr(e)?;

            // split L1, L2
            self.inc_pc()?;
            let split = Instruction::Split(l1, self.pc);
            self.insts.push(split);
            assert(self.insts@ =~= insts0 + code(ast@, l1 as int));
        }
        Ok(())
    }

    /// Emits `L1: split L2, L3; L2: e; jump L1; L3:` for `ast`, a repetition
    /// `e*`, without looking inside `e`.
    fn gen_star(&mut self, ast: &Ast) -> (r: Result<(), CodeGenError>)
        requires
            old(self).pc == old(self).insts@.len(),
            ast is Star,
        ensures
            emitted(r, old(self).pc as int, size(ast->Star_0@) + 2 as int),
            r is Ok ==> final(self).pc == old(self).pc + size(ast->Star_0@) + 2,
            r is Ok ==> final(self).insts@ == old(self).insts@ + star_code(ast->Star_0@, old(self).pc as int),
        decreases ast, 0int,
    {
        let e = match ast {
            Ast::Star(e) => e,
            _ => return Err(CodeGenError::FailStar),
        };
        let ghost pc0 = self.pc as int;
        let ghost insts0 = self.insts@;
        proof {
            lemma_code_len(e@, pc0 + 1);
        }
        // L1: split L2, L3
        let l1 = self.pc;
        self.inc_pc()?;
        let split = Instruction::Split(self.pc, 0);
        self.insts.push(split);

        // L2: the code of e
        self.gen_expr(e)?;

        // jump L1
        self.inc_pc()?;
        self.insts.push(Instruction::Jump(l1));

        // set L3
        match self.insts[l1] {
            Instruction::Split(l2, _) => {
                self.insts.set(l1, Instruction::Split(l2, self.pc));
                assert(self.insts@ =~= insts0 + star_code(e@, pc0));
                Ok(())
            },
            _ => Err(CodeGenError::FailStar),
        }
    }

    /// Emits the code of each member of `ast`, a sequence, one after the other.
    fn gen_seq(&mut self, ast: &Ast) -> (r: Result<(), CodeGenError>)
        requires
            old(self).pc == old(self).insts@.len(),
            ast is Concat,
        ensures
            emitted(r, old(self).pc as int, size(ast@) as int),
            r is Ok ==> final(self).pc == old(self).pc + size(ast@),
            r is Ok ==> final(self).insts@ == old(self).insts@ + code(ast@, old(self).pc as int),
        decreases ast, 0int,
    {
        let ghost pc0 = self.pc as int;
        let ghost insts0 = self.insts@;
        if let Ast::Concat(exprs) = ast {
            let ghost ts = trees(*exprs);
            proof {
                lemma_trees_of(exprs@, exprs@.len() as int);
            }
            assert(size(ast@) == size_list(ts, ts.len() as int));
            assert(code(ast@, pc0) == code_list(ts, ts.len() as int, pc0));
            let mut i: usize = 0;
            while i < exprs.len()
                invariant
                    pc0 == old(self).pc as int,
                    *ast == Ast::Concat(*exprs),
                    size(ast@) == size_list(ts, ts.len() as int),
                    code(ast@, pc0) == code_list(ts, ts.len() as int, pc0),
                    ts == trees(*exprs),
                    ts.len() == exprs@.len(),
                    forall|k: int| 0 <= k < ts.len() ==> #[trigger] ts[k] == exprs@[k]@,
                    ast@ == Tree::Concat(ts),
                    0 <= i <= exprs.len(),
                    self.pc == self.insts@.len(),
                    self.pc == pc0 + size_list(ts, i as int),
                    self.insts@ == insts0 + code_list(ts, i as int, pc0),
                decreases exprs.len() - i,
            {
                proof {
                    lemma_size_list_mono(ts, i + 1, ts.len() as int);
                    lemma_code_len(ts[i as int], pc0 + size_list(ts, i as int));
                }
                assert(size_list(ts, i + 1) == size_list(ts, i as int) + size(exprs@[i as int]@));
                self.gen_expr(&exprs[i])?;
                assert(self.insts@ =~= insts0 + code_list(ts, i + 1, pc0));
                i = i + 1;
            }
        }
        Ok(())
    }

    /// Emits one instruction that needs no address.
    fn gen_single(&mut self, inst: Instruction) -> (r: Result<(), CodeGenError>)
        requires
            old(self).pc == old(self).insts@.len(),
        ensures
            emitted(r, old(self).pc as int, 1),
            r is Ok ==> final(self).pc == old(self).pc + 1,
            r is Ok ==> final(self).insts@ == old(self).insts@.push(inst),
    {
        self.insts.push(inst);
        self.inc_pc()
    }

    /// Emits a `Char` instruction.
    fn gen_char(&mut self, c: char) -> (r: Result<(), CodeGenError>)
        requires
            old(self).pc == old(self).insts@.len(),
        ensures
            emitted(r, old(self).pc as int, 1),
            r is Ok ==> final(self).pc == old(self).pc + 1,
            r is Ok ==> final(self).insts@ == old(self).insts@.push(Instruction::Char(c)),
    {
        let inst = Instruction::Char(c);
        self.insts.push(inst);
        self.inc_pc()?;
        Ok(())
    }

    /// Advances the address by one.
    fn inc_pc(&mut self) -> (r: Result<(), CodeGenError>)
        ensures
            final(self).insts == old(self).insts,
            emitted(r, old(self).pc as int, 1),
            r is Ok ==> final(self).pc == old(self).pc + 1,
    {
        safe_add(&mut self.pc, 1, CodeGenError::PCOverFlow)
    }
}

} // verus!
