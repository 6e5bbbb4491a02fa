//! Parsing a pattern into a syntax tree.
//!
//! Grammar, loosest binding first: alternatives separated by `|`; each
//! alternative a non-empty sequence of terms; each term an atom followed by any
//! number of `*`, `+` or `?`; an atom a literal character, `.`, `^`, `$`, an
//! escaped special character (`\*`), or a parenthesised pattern.
use vstd::prelude::*;

use crate::helper::chars_of;

verus! {

/// The syntax tree of a pattern.
#[derive(Debug, PartialEq)]
pub enum Ast {
    Char(char),
    Dot,
    LineStart,
    LineEnd,
    Or(Box<Ast>, Box<Ast>),
    Plus(Box<Ast>),
    Star(Box<Ast>),
    Question(Box<Ast>),
    Concat(Vec<Ast>),
}

/// The mathematical model of an [`Ast`].
pub enum Tree {
    Char(char),
    Dot,
    LineStart,
    LineEnd,
    Or(Box<Tree>, Box<Tree>),
    Plus(Box<Tree>),
    Star(Box<Tree>),
    Question(Box<Tree>),
    Concat(Seq<Tree>),
}

/// The model of a syntax tree.
pub open spec fn tree_of(a: Ast) -> Tree
    decreases a, 0int,
{
    match a {
        Ast::Char(c) => Tree::Char(c),
        Ast::Dot => Tree::Dot,
        Ast::LineStart => Tree::LineStart,
        Ast::LineEnd => Tree::LineEnd,
        Ast::Or(x, y) => Tree::Or(Box::new(tree_of(*x)), Box::new(tree_of(*y))),
        Ast::Plus(x) => Tree::Plus(Box::new(tree_of(*x))),
        Ast::Star(x) => Tree::Star(Box::new(tree_of(*x))),
        Ast::Question(x) => Tree::Question(Box::new(tree_of(*x))),
        Ast::Concat(v) => Tree::Concat(trees_of(v@, v@.len() as int)),
    }
}

/// The models of the first `n` trees of `s`.
pub open spec fn trees_of(s: Seq<Ast>, n: int) -> Seq<Tree>
    decreases s, n,
{
    if n <= 0 || n > s.len() {
        Seq::empty()
    } else {
        trees_of(s, n - 1).push(tree_of(s[n - 1]))
    }
}

impl View for Ast {
    type V = Tree;

    open spec fn view(&self) -> Tree {
        tree_of(*self)
    }
}

/// The models of all the trees of `v`.
pub open spec fn trees(v: Vec<Ast>) -> Seq<Tree> {
    trees_of(v@, v@.len() as int)
}

pub proof fn lemma_trees_of(s: Seq<Ast>, n: int)
    requires
        0 <= n <= s.len(),
    ensures
        trees_of(s, n).len() == n,
        forall|i: int| 0 <= i < n ==> #[trigger] trees_of(s, n)[i] == tree_of(s[i]),
    decreases n,
{
    if n > 0 {
        lemma_trees_of(s, n - 1);
    }
}

pub proof fn lemma_char_tree(c: char)
    ensures
        tree_of(Ast::Char(c)) == Tree::Char(c),
{
}

pub proof fn lemma_trees(v: Vec<Ast>)
    ensures
        trees(v).len() == v@.len(),
        forall|i: int| 0 <= i < v@.len() ==> #[trigger] trees(v)[i] == v@[i]@,
{
    lemma_trees_of(v@, v@.len() as int);
}

/// Why a pattern could not be parsed. Positions count characters from 0.
#[derive(Debug, Clone, Copy, PartialEq, Eq, Structural)]
pub enum ParseError {
    /// A backslash before a character that is not special, or a backslash that
    /// ends the pattern (reported as escaping itself).
    InvalidEscape(usize, char),
    /// A `)` without a matching `(`.
    InvalidRightParen(usize),
    /// A `*`, `+`, `?` or `|` with nothing before it.
    NoPrev(usize),
    /// A `(` without a matching `)`.
    NoRightParen,
    /// An empty pattern, group or last alternative.
    Empty,
}

/// The characters with a meaning of their own, which a backslash turns into
/// literals.
pub open spec fn is_special(c: char) -> bool {
    c == '\\' || c == '(' || c == ')' || c == '|' || c == '+' || c == '*' || c == '?'
        || c == '.' || c == '^' || c == '$'
}

/// The tree of an unescaped character that forms an atom by itself.
pub open spec fn atom(c: char) -> Tree {
    if c == '.' {
        Tree::Dot
    } else if c == '^' {
        Tree::LineStart
    } else if c == '$' {
        Tree::LineEnd
    } else {
        Tree::Char(c)
    }
}

/// `t` under the postfix operator `c`.
pub open spec fn postfix(c: char, t: Tree) -> Tree {
    if c == '+' {
        Tree::Plus(Box::new(t))
    } else if c == '*' {
        Tree::Star(Box::new(t))
    } else {
        Tree::Question(Box::new(t))
    }
}

/// The alternatives `alts`, nested to the right: `a|b|c` is `a|(b|c)`.
pub open spec fn or_of(alts: Seq<Tree>) -> Tree
    recommends
        alts.len() >= 1,
    decreases alts.len(),
{
    if alts.len() <= 1 {
        alts[0]
    } else {
        Tree::Or(Box::new(alts[0]), Box::new(or_of(alts.drop_first())))
    }
}

/// What the parser knows after a prefix of the pattern: for each open group,
/// outermost first, the alternatives and the terms it had when the group
/// opened; the finished alternatives and the terms of the current level; and
/// whether the last character was an unused backslash.
pub struct PState {
    pub outer: Seq<(Seq<Tree>, Seq<Tree>)>,
    pub alts: Seq<Tree>,
    pub seq: Seq<Tree>,
    pub escaped: bool,
}

/// Reads the character `c` at position `i`.
pub open spec fn step(st: PState, c: char, i: int) -> Result<PState, ParseError> {
    if st.escaped {
        if is_special(c) {
            Ok(PState { outer: st.outer, alts: st.alts, seq: st.seq.push(Tree::Char(c)), escaped: false })
        } else {
            Err(ParseError::InvalidEscape(i as usize, c))
        }
    } else if c == '\\' {
        Ok(PState { outer: st.outer, alts: st.alts, seq: st.seq, escaped: true })
    } else if c == '+' || c == '*' || c == '?' {
        if st.seq.len() == 0 {
            Err(ParseError::NoPrev(i as usize))
        } else {
            Ok(PState { outer: st.outer, alts: st.alts, seq: st.seq.drop_last().push(postfix(c, st.seq.last())), escaped: false })
        }
    } else if c == '(' {
        Ok(PState { outer: st.outer.push((st.alts, st.seq)), alts: Seq::empty(), seq: Seq::empty(), escaped: false })
    } else if c == ')' {
        if st.outer.len() == 0 {
            Err(ParseError::InvalidRightParen(i as usize))
        } else if st.seq.len() == 0 {
            Err(ParseError::Empty)
        } else {
            let group = or_of(st.alts.push(Tree::Concat(st.seq)));
            Ok(PState { outer: st.outer.drop_last(), alts: st.outer.last().0, seq: st.outer.last().1.push(group), escaped: false })
        }
    } else if c == '|' {
        if st.seq.len() == 0 {
            Err(ParseError::NoPrev(i as usize))
        } else {
            Ok(PState { outer: st.outer, alts: st.alts.push(Tree::Concat(st.seq)), seq: Seq::empty(), escaped: false })
        }
    } else {
        Ok(PState { outer: st.outer, alts: st.alts, seq: st.seq.push(atom(c)), escaped: false })
    }
}

/// The state after the first `n` characters of `s`, or the first error.
pub open spec fn prefix_state(s: Seq<char>, n: int) -> Result<PState, ParseError>
    decreases n,
{
    if n <= 0 {
        Ok(PState { outer: Seq::empty(), alts: Seq::empty(), seq: Seq::empty(), escaped: false })
    } else {
        match prefix_state(s, n - 1) {
            Ok(st) => step(st, s[n - 1], n - 1),
            Err(e) => Err(e),
        }
    }
}

/// The tree of a whole pattern of `len` characters, from the state after it.
pub open spec fn finish(st: PState, len: int) -> Result<Tree, ParseError> {
    if st.escaped {
        Err(ParseError::InvalidEscape((len - 1) as usize, '\\'))
    } else if st.outer.len() > 0 {
        Err(ParseError::NoRightParen)
    } else if st.seq.len() == 0 {
        Err(ParseError::Empty)
    } else {
        Ok(or_of(st.alts.push(Tree::Concat(st.seq))))
    }
}

/// The tree of the pattern `s`, or why it has none.
pub open spec fn parse_spec(s: Seq<char>) -> Result<Tree, ParseError> {
    match prefix_state(s, s.len() as int) {
        Ok(st) => finish(st, s.len() as int),
        Err(e) => Err(e),
    }
}

/// The model of the parser's working state.
pub open spec fn state_of(stack: Seq<(Vec<Ast>, Vec<Ast>)>, alts: Vec<Ast>, seq: Vec<Ast>, escaped: bool) -> PState {
    PState {
        outer: Seq::new(stack.len(), |k: int| (trees(stack[k].0), trees(stack[k].1))),
        alts: trees(alts),
        seq: trees(seq),
        escaped,
    }
}

/// Joins the alternatives `seq_or` into one tree, nested to the right.
fn fold_or(seq_or: Vec<Ast>) -> (r: Ast)
    requires
        seq_or@.len() >= 1,
    ensures
        r@ == or_of(trees(seq_or)),
{
    let ghost ts = trees(seq_or);
    let ghost n = seq_or@.len() as int;
    let ghost orig = seq_or@;
    proof {
        lemma_trees(seq_or);
    }
    let mut seq_or = seq_or;
    let last = seq_or.len() - 1;
    let mut ast = seq_or.remove(last);
    assert(ts.subrange(n - 1, n).len() == 1);
    while seq_or.len() > 0
        invariant
            ts.len() == n,
            orig.len() == n,
            forall|i: int| 0 <= i < n ==> #[trigger] ts[i] == orig[i]@,
            seq_or@.len() < n,
            seq_or@ == orig.subrange(0, seq_or@.len() as int),
            ast@ == or_of(ts.subrange(seq_or@.len() as int, n)),
        decreases seq_or@.len(),
    {
        let k = seq_or.len() - 1;
        let e = seq_or.remove(k);
        assert(ts.subrange(k as int, n).drop_first() =~= ts.subrange(k + 1, n));
        ast = Ast::Or(Box::new(e), Box::new(ast));
        assert(seq_or@ =~= orig.subrange(0, k as int));
    }
    assert(ts.subrange(0, n) =~= ts);
    ast
}

pub proof fn lemma_trees_push(v: Vec<Ast>, w: Vec<Ast>, x: Ast)
    requires
        w@ == v@.push(x),
    ensures
        trees(w) == trees(v).push(x@),
{
    lemma_trees(v);
    lemma_trees(w);
    assert(trees(w) =~= trees(v).push(x@));
}

pub proof fn lemma_trees_drop_last(v: Vec<Ast>, w: Vec<Ast>)
    requires
        v@.len() > 0,
        w@ == v@.drop_last(),
    ensures
        trees(w) == trees(v).drop_last(),
        trees(v).last() == v@.last()@,
{
    lemma_trees(v);
    lemma_trees(w);
    assert(trees(w) =~= trees(v).drop_last());
}

pub proof fn lemma_trees_empty(v: Vec<Ast>)
    requires
        v@.len() == 0,
    ensures
        trees(v) == Seq::<Tree>::empty(),
{
    lemma_trees(v);
    assert(trees(v) =~= Seq::<Tree>::empty());
}

pub proof fn lemma_error_stays(s: Seq<char>, k: int, m: int)
    requires
        0 <= k <= m,
        prefix_state(s, k) is Err,
    ensures
        prefix_state(s, m) == prefix_state(s, k),
    decreases m - k,
{
    if k < m {
        lemma_error_stays(s, k, m - 1);
    }
}

/// Whether `c` is one of the characters with a meaning of their own.
fn is_special_char(c: char) -> (b: bool)
    ensures
        b == is_special(c),
{
    c == '\\' || c == '(' || c == ')' || c == '|' || c == '+' || c == '*' || c == '?' || c == '.'
        || c == '^' || c == '$'
}

/// Parses the pattern `expr`.
pub fn parse(expr: &str) -> (r: Result<Ast, ParseError>)
    ensures
        match r {
            Ok(a) => parse_spec(expr@) == Ok::<Tree, ParseError>(a@),
            Err(e) => parse_spec(expr@) == Err::<Tree, ParseError>(e),
        },
{
    let chars = chars_of(expr);
    let mut stack: Vec<(Vec<Ast>, Vec<Ast>)> = Vec::new();
    let mut seq_or: Vec<Ast> = Vec::new();
    let mut seq: Vec<Ast> = Vec::new();
    let mut escaped = false;
    let mut i: usize = 0;
    proof {
        lemma_trees_empty(seq_or);
        lemma_trees_empty(seq);
        assert(state_of(stack@, seq_or, seq, escaped).outer =~= Seq::<(Seq<Tree>, Seq<Tree>)>::empty());
    }
    while i < chars.len()
        invariant
            chars@ == expr@,
            i <= chars.len(),
            escaped ==> i > 0,
            prefix_state(expr@, i as int) == Ok::<PState, ParseError>(state_of(stack@, seq_or, seq, escaped)),
        decreases chars.len() - i,
    {
        let c = chars[i];
        let ghost st = state_of(stack@, seq_or, seq, escaped);
        let ghost old_or = seq_or;
        let ghost old_seq = seq;
        if escaped {
            if is_special_char(c) {
                seq.push(Ast::Char(c));
                escaped = false;
                proof {
                    lemma_trees_push(old_seq, seq, Ast::Char(c));
                }
            } else {
                proof {
                    lemma_error_stays(expr@, i + 1, expr@.len() as int);
                }
                return Err(ParseError::InvalidEscape(i, c));
            }
        } else if c == '\\' {
            escaped = true;
        } else if c == '+' || c == '*' || c == '?' {
            match seq.pop() {
                Some(prev) => {
                    let ghost mid = seq;
                    let ast = if c == '+' {
                        Ast::Plus(Box::new(prev))
                    } else if c == '*' {
                        Ast::Star(Box::new(prev))
                    } else {
                        Ast::Question(Box::new(prev))
                    };
                    seq.push(ast);
                    proof {
                        lemma_trees_drop_last(old_seq, mid);
                        lemma_trees_push(mid, seq, ast);
                        assert(ast@ == postfix(c, st.seq.last()));
                    }
                },
                None => {
                    proof {
                        lemma_error_stays(expr@, i + 1, expr@.len() as int);
                    }
                    return Err(ParseError::NoPrev(i));
                },
            }
        } else if c == '(' {
            stack.push((seq_or, seq));
            seq_or = Vec::new();
            seq = Vec::new();
            proof {
                lemma_trees_empty(seq_or);
                lemma_trees_empty(seq);
                assert(state_of(stack@, seq_or, seq, escaped).outer =~= st.outer.push((st.alts, st.seq)));
            }
        } else if c == ')' {
            match stack.pop() {
                Some((prev_or, prev_seq)) => {
                    if seq.len() == 0 {
                        proof {
                            lemma_error_stays(expr@, i + 1, expr@.len() as int);
                        }
                        return Err(ParseError::Empty);
                    }
                    seq_or.push(Ast::Concat(seq));
                    proof {
                        lemma_trees_push(old_or, seq_or, Ast::Concat(old_seq));
                    }
                    let group = fold_or(seq_or);
                    seq_or = prev_or;
                    seq = prev_seq;
                    let ghost mid = seq;
                    seq.push(group);
                    proof {
                        lemma_trees_push(mid, seq, group);
                        assert(state_of(stack@, seq_or, seq, escaped).outer =~= st.outer.drop_last());
                        assert(st.outer.last() == (trees(prev_or), trees(prev_seq)));
                        assert(group@ == or_of(st.alts.push(Tree::Concat(st.seq))));
                    }
                },
                None => {
                    proof {
                        lemma_error_stays(expr@, i + 1, expr@.len() as int);
                    }
                    return Err(ParseError::InvalidRightParen(i));
                },
            }
        } else if c == '|' {
            if seq.len() == 0 {
                proof {
                    lemma_error_stays(expr@, i + 1, expr@.len() as int);
                }
                return Err(ParseError::NoPrev(i));
            }
            seq_or.push(Ast::Concat(seq));
            seq = Vec::new();
            proof {
                lemma_trees_push(old_or, seq_or, Ast::Concat(old_seq));
                lemma_trees_empty(seq);
            }
        } else {
            let a = if c == '.' {
                Ast::Dot
            } else if c == '^' {
                Ast::LineStart
            } else if c == '$' {
                Ast::LineEnd
            } else {
                Ast::Char(c)
            };
            seq.push(a);
            proof {
                lemma_trees_push(old_seq, seq, a);
                lemma_char_tree(c);
                assert(a@ == atom(c));
            }
        }
        assert(step(st, c, i as int) == Ok::<PState, ParseError>(state_of(stack@, seq_or, seq, escaped)));
        i = i + 1;
    }
    if escaped {
        return Err(ParseError::InvalidEscape(chars.len() - 1, '\\'));
    }
    if stack.len() > 0 {
        return Err(ParseError::NoRightParen);
    }
    if seq.len() == 0 {
        return Err(ParseError::Empty);
    }
    let ghost old_or = seq_or;
    let ghost old_seq = seq;
    seq_or.push(Ast::Concat(seq));
    proof {
        lemma_trees_push(old_or, seq_or, Ast::Concat(old_seq));
    }
    Ok(fold_or(seq_or))
}

} // verus!
