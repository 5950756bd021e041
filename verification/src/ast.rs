use vstd::prelude::*;
use crate::persistent::{type_map, types_clone, types_get, types_new, types_update};

verus! {

/// A type of the language.
#[derive(Debug, PartialEq, Eq, Hash)]
pub enum Type {
    Num,
    Bool,
    Unit,
    Fn(Box<Type>, Box<Type>),
    Tyvar(String),
}

/// The mathematical model of a [`Type`]: type variables are named by their characters.
pub enum SType {
    Num,
    Bool,
    Unit,
    Fn(Box<SType>, Box<SType>),
    Var(Seq<char>),
}

impl Type {
    pub open spec fn model(&self) -> SType
        decreases self,
    {
        match self {
            Type::Num => SType::Num,
            Type::Bool => SType::Bool,
            Type::Unit => SType::Unit,
            Type::Fn(a, b) => SType::Fn(Box::new((**a).model()), Box::new((**b).model())),
            Type::Tyvar(x) => SType::Var(x@),
        }
    }
}

impl View for Type {
    type V = SType;

    open spec fn view(&self) -> SType {
        self.model()
    }
}

/// A copy of `t` with the same model.
pub fn copy_type(t: &Type) -> (r: Type)
    ensures
        r@ == t@,
    decreases t,
{
    match t {
        Type::Num => Type::Num,
        Type::Bool => Type::Bool,
        Type::Unit => Type::Unit,
        Type::Fn(a, b) => Type::Fn(Box::new(copy_type(a)), Box::new(copy_type(b))),
        Type::Tyvar(x) => Type::Tyvar(x.clone()),
    }
}

impl Clone for Type {
    fn clone(&self) -> (r: Type)
        ensures
            r@ == self@,
    {
        copy_type(self)
    }
}

/// Structural equality of two types.
pub fn type_eq(a: &Type, b: &Type) -> (r: bool)
    ensures
        r == (a@ == b@),
    decreases a,
{
    match a {
        Type::Num => match b {
            Type::Num => true,
            _ => false,
        },
        Type::Bool => match b {
            Type::Bool => true,
            _ => false,
        },
        Type::Unit => match b {
            Type::Unit => true,
            _ => false,
        },
        Type::Fn(a1, a2) => match b {
            Type::Fn(b1, b2) => type_eq(a1, b1) && type_eq(a2, b2),
            _ => false,
        },
        Type::Tyvar(x) => match b {
            Type::Tyvar(y) => *x == *y,
            _ => false,
        },
    }
}


/// A binary operator.
#[derive(Debug, Clone, Copy, PartialEq, Eq)]
pub enum BinOp {
    Plus,
    Minus,
    Times,
    Div,
    Eq,
    Neq,
    Geq,
    Gt,
    Leq,
    Lt,
}

/// A position in the source text: the index of the first character and the
/// index one past the last.
pub type CodeLoc = (usize, usize);

/// A value together with the part of the source it was read from.
#[derive(Debug)]
pub struct Spanned<T> {
    pub inner: T,
    pub span: CodeLoc,
}

/// An expression as the parser produces it: a tree.  Number literals are kept
/// as their decimal text.
#[derive(Debug)]
pub enum PExpr {
    Var(String),
    Num(String),
    Bool(bool),
    Unit,
    If(Box<Spanned<PExpr>>, Box<Spanned<PExpr>>, Box<Spanned<PExpr>>),
    LetIn(Spanned<String>, Option<Type>, Box<Spanned<PExpr>>, Box<Spanned<PExpr>>),
    Fn(Spanned<String>, Option<Type>, Box<Spanned<PExpr>>),
    App(Box<Spanned<PExpr>>, Box<Spanned<PExpr>>),
    Sequence(Box<Spanned<PExpr>>, Box<Spanned<PExpr>>),
    Neg(Box<Spanned<PExpr>>),
    BinOp(Spanned<BinOp>, Box<Spanned<PExpr>>, Box<Spanned<PExpr>>),
}

/// A declaration at the top of a program: a definition (its name, its
/// optional type, its parameters with their optional types, and its body), a
/// recursive definition, or an expression.
#[derive(Debug)]
pub enum Decl {
    Let(Spanned<String>, Option<Type>, Vec<(Spanned<String>, Option<Type>)>, Box<Spanned<PExpr>>),
    LetRec(String, Type, Spanned<PExpr>),
    Expr(Spanned<PExpr>),
}

/// The model of a [`PExpr`]: names and literals by their characters, types
/// by their models, source positions kept.
pub enum SPExpr {
    Var(Seq<char>),
    Num(Seq<char>),
    Bool(bool),
    Unit,
    If(Box<Spanned<SPExpr>>, Box<Spanned<SPExpr>>, Box<Spanned<SPExpr>>),
    LetIn(Spanned<Seq<char>>, Option<SType>, Box<Spanned<SPExpr>>, Box<Spanned<SPExpr>>),
    Fn(Spanned<Seq<char>>, Option<SType>, Box<Spanned<SPExpr>>),
    App(Box<Spanned<SPExpr>>, Box<Spanned<SPExpr>>),
    Sequence(Box<Spanned<SPExpr>>, Box<Spanned<SPExpr>>),
    Neg(Box<Spanned<SPExpr>>),
    BinOp(Spanned<BinOp>, Box<Spanned<SPExpr>>, Box<Spanned<SPExpr>>),
}

/// The model of an expression with its position.
pub open spec fn pmodel(p: Spanned<PExpr>) -> Spanned<SPExpr>
    decreases p,
{
    Spanned {
        inner: match p.inner {
            PExpr::Var(x) => SPExpr::Var(x@),
            PExpr::Num(n) => SPExpr::Num(n@),
            PExpr::Bool(b) => SPExpr::Bool(b),
            PExpr::Unit => SPExpr::Unit,
            PExpr::If(a, b, c) => SPExpr::If(
                Box::new(pmodel(*a)),
                Box::new(pmodel(*b)),
                Box::new(pmodel(*c)),
            ),
            PExpr::LetIn(x, ty, a, b) => SPExpr::LetIn(
                Spanned { inner: x.inner@, span: x.span },
                opt_model(ty),
                Box::new(pmodel(*a)),
                Box::new(pmodel(*b)),
            ),
            PExpr::Fn(x, ty, a) => SPExpr::Fn(
                Spanned { inner: x.inner@, span: x.span },
                opt_model(ty),
                Box::new(pmodel(*a)),
            ),
            PExpr::App(a, b) => SPExpr::App(Box::new(pmodel(*a)), Box::new(pmodel(*b))),
            PExpr::Sequence(a, b) => SPExpr::Sequence(Box::new(pmodel(*a)), Box::new(pmodel(*b))),
            PExpr::Neg(a) => SPExpr::Neg(Box::new(pmodel(*a))),
            PExpr::BinOp(op, a, b) => SPExpr::BinOp(op, Box::new(pmodel(*a)), Box::new(pmodel(*b))),
        },
        span: p.span,
    }
}

/// The tree of a modelled expression, without positions.
pub open spec fn sp_term(p: Spanned<SPExpr>) -> Term
    decreases p,
{
    match p.inner {
        SPExpr::Var(x) => Term::Var(x),
        SPExpr::Num(n) => Term::Num(n),
        SPExpr::Bool(b) => Term::Bool(b),
        SPExpr::Unit => Term::Unit,
        SPExpr::If(a, b, c) => Term::If(
            Box::new(sp_term(*a)),
            Box::new(sp_term(*b)),
            Box::new(sp_term(*c)),
        ),
        SPExpr::LetIn(x, ty, a, b) => Term::LetIn(
            x.inner,
            ty,
            Box::new(sp_term(*a)),
            Box::new(sp_term(*b)),
        ),
        SPExpr::Fn(x, ty, a) => Term::Fn(x.inner, ty, Box::new(sp_term(*a))),
        SPExpr::App(a, b) => Term::App(Box::new(sp_term(*a)), Box::new(sp_term(*b))),
        SPExpr::Sequence(a, b) => Term::Sequence(Box::new(sp_term(*a)), Box::new(sp_term(*b))),
        SPExpr::Neg(a) => Term::Neg(Box::new(sp_term(*a))),
        SPExpr::BinOp(op, a, b) => Term::BinOp(op.inner, Box::new(sp_term(*a)), Box::new(sp_term(*b))),
    }
}

/// Forgetting the positions of the model gives the tree of the expression.
pub proof fn lemma_pmodel_term(p: Spanned<PExpr>)
    ensures
        sp_term(pmodel(p)) == p.inner.term(),
    decreases p,
{
    match p.inner {
        PExpr::If(a, b, c) => {
            lemma_pmodel_term(*a);
            lemma_pmodel_term(*b);
            lemma_pmodel_term(*c);
        },
        PExpr::LetIn(_, _, a, b) => {
            lemma_pmodel_term(*a);
            lemma_pmodel_term(*b);
        },
        PExpr::Fn(_, _, a) => {
            lemma_pmodel_term(*a);
        },
        PExpr::App(a, b) => {
            lemma_pmodel_term(*a);
            lemma_pmodel_term(*b);
        },
        PExpr::Sequence(a, b) => {
            lemma_pmodel_term(*a);
            lemma_pmodel_term(*b);
        },
        PExpr::Neg(a) => {
            lemma_pmodel_term(*a);
        },
        PExpr::BinOp(_, a, b) => {
            lemma_pmodel_term(*a);
            lemma_pmodel_term(*b);
        },
        _ => {},
    }
}

/// The index of an expression in an [`Ast`].
pub type ExprId = usize;

/// An expression node of an [`Ast`]; subexpressions are given by their index.
#[derive(Debug)]
pub enum Expr {
    Var(String),
    Num(String),
    Bool(bool),
    Unit,
    If(ExprId, ExprId, ExprId),
    LetIn(String, Option<Type>, ExprId, ExprId),
    Fn(String, Option<Type>, ExprId),
    App(ExprId, ExprId),
    Sequence(ExprId, ExprId),
    Neg(ExprId),
    BinOp(BinOp, ExprId, ExprId),
}

/// The mathematical model of an expression tree, without source positions.
pub enum Term {
    Var(Seq<char>),
    Num(Seq<char>),
    Bool(bool),
    Unit,
    If(Box<Term>, Box<Term>, Box<Term>),
    LetIn(Seq<char>, Option<SType>, Box<Term>, Box<Term>),
    Fn(Seq<char>, Option<SType>, Box<Term>),
    App(Box<Term>, Box<Term>),
    Sequence(Box<Term>, Box<Term>),
    Neg(Box<Term>),
    BinOp(BinOp, Box<Term>, Box<Term>),
}

pub open spec fn opt_model(t: Option<Type>) -> Option<SType> {
    match t {
        Some(t) => Some(t@),
        None => None,
    }
}

impl PExpr {
    /// The tree this expression denotes.
    pub open spec fn term(&self) -> Term
        decreases self,
    {
        match self {
            PExpr::Var(x) => Term::Var(x@),
            PExpr::Num(n) => Term::Num(n@),
            PExpr::Bool(b) => Term::Bool(*b),
            PExpr::Unit => Term::Unit,
            PExpr::If(a, b, c) => Term::If(
                Box::new(a.inner.term()),
                Box::new(b.inner.term()),
                Box::new(c.inner.term()),
            ),
            PExpr::LetIn(x, ty, a, b) => Term::LetIn(
                x.inner@,
                opt_model(*ty),
                Box::new(a.inner.term()),
                Box::new(b.inner.term()),
            ),
            PExpr::Fn(x, ty, a) => Term::Fn(x.inner@, opt_model(*ty), Box::new(a.inner.term())),
            PExpr::App(a, b) => Term::App(Box::new(a.inner.term()), Box::new(b.inner.term())),
            PExpr::Sequence(a, b) => Term::Sequence(Box::new(a.inner.term()), Box::new(b.inner.term())),
            PExpr::Neg(a) => Term::Neg(Box::new(a.inner.term())),
            PExpr::BinOp(op, a, b) => Term::BinOp(
                op.inner,
                Box::new(a.inner.term()),
                Box::new(b.inner.term()),
            ),
        }
    }

    /// The number of nodes of the tree.
    pub open spec fn size(&self) -> nat
        decreases self,
    {
        match self {
            PExpr::If(a, b, c) => 1 + a.inner.size() + b.inner.size() + c.inner.size(),
            PExpr::LetIn(_, _, a, b) => 1 + a.inner.size() + b.inner.size(),
            PExpr::Fn(_, _, a) => 1 + a.inner.size(),
            PExpr::App(a, b) => 1 + a.inner.size() + b.inner.size(),
            PExpr::Sequence(a, b) => 1 + a.inner.size() + b.inner.size(),
            PExpr::Neg(a) => 1 + a.inner.size(),
            PExpr::BinOp(_, a, b) => 1 + a.inner.size() + b.inner.size(),
            _ => 1,
        }
    }
}

/// Whether every subexpression index of node `i` is smaller than `i`.
pub open spec fn node_wf(e: Expr, i: int) -> bool {
    match e {
        Expr::If(a, b, c) => a < i && b < i && c < i,
        Expr::LetIn(_, _, a, b) => a < i && b < i,
        Expr::Fn(_, _, a) => a < i,
        Expr::App(a, b) => a < i && b < i,
        Expr::Sequence(a, b) => a < i && b < i,
        Expr::Neg(a) => a < i,
        Expr::BinOp(_, a, b) => a < i && b < i,
        _ => true,
    }
}

/// An arena is well formed when each node refers only to earlier nodes, so
/// that every index denotes a finite tree.
pub open spec fn exprs_wf(exprs: Seq<Expr>) -> bool {
    forall|i: int| 0 <= i < exprs.len() ==> #[trigger] node_wf(exprs[i], i)
}

/// The tree that index `id` denotes in `exprs`.
pub open spec fn term_at(exprs: Seq<Expr>, id: int) -> Term
    decreases id,
{
    if !(0 <= id < exprs.len()) || !node_wf(exprs[id], id) {
        Term::Unit
    } else {
        match exprs[id] {
            Expr::Var(x) => Term::Var(x@),
            Expr::Num(n) => Term::Num(n@),
            Expr::Bool(b) => Term::Bool(b),
            Expr::Unit => Term::Unit,
            Expr::If(a, b, c) => Term::If(
                Box::new(term_at(exprs, a as int)),
                Box::new(term_at(exprs, b as int)),
                Box::new(term_at(exprs, c as int)),
            ),
            Expr::LetIn(x, ty, a, b) => Term::LetIn(
                x@,
                opt_model(ty),
                Box::new(term_at(exprs, a as int)),
                Box::new(term_at(exprs, b as int)),
            ),
            Expr::Fn(x, ty, a) => Term::Fn(x@, opt_model(ty), Box::new(term_at(exprs, a as int))),
            Expr::App(a, b) => Term::App(
                Box::new(term_at(exprs, a as int)),
                Box::new(term_at(exprs, b as int)),
            ),
            Expr::Sequence(a, b) => Term::Sequence(
                Box::new(term_at(exprs, a as int)),
                Box::new(term_at(exprs, b as int)),
            ),
            Expr::Neg(a) => Term::Neg(Box::new(term_at(exprs, a as int))),
            Expr::BinOp(op, a, b) => Term::BinOp(
                op,
                Box::new(term_at(exprs, a as int)),
                Box::new(term_at(exprs, b as int)),
            ),
        }
    }
}

/// The positions of node `id` and of the nodes below it.
pub open spec fn subtree_spans(exprs: Seq<Expr>, spans: Seq<CodeLoc>, id: int) -> Set<CodeLoc>
    decreases id,
{
    if !(0 <= id < exprs.len()) || !node_wf(exprs[id], id) {
        Set::empty()
    } else {
        let here = set![spans[id]];
        match exprs[id] {
            Expr::If(a, b, c) => here + subtree_spans(exprs, spans, a as int) + subtree_spans(
                exprs,
                spans,
                b as int,
            ) + subtree_spans(exprs, spans, c as int),
            Expr::LetIn(_, _, a, b) => here + subtree_spans(exprs, spans, a as int) + subtree_spans(
                exprs,
                spans,
                b as int,
            ),
            Expr::Fn(_, _, a) => here + subtree_spans(exprs, spans, a as int),
            Expr::App(a, b) => here + subtree_spans(exprs, spans, a as int) + subtree_spans(
                exprs,
                spans,
                b as int,
            ),
            Expr::Sequence(a, b) => here + subtree_spans(exprs, spans, a as int) + subtree_spans(
                exprs,
                spans,
                b as int,
            ),
            Expr::Neg(a) => here + subtree_spans(exprs, spans, a as int),
            Expr::BinOp(_, a, b) => here + subtree_spans(exprs, spans, a as int) + subtree_spans(
                exprs,
                spans,
                b as int,
            ),
            _ => here,
        }
    }
}

/// The expressions of a program, each with its source position.
#[derive(Debug)]
pub struct Ast {
    pub exprs: Vec<Expr>,
    pub spans: Vec<CodeLoc>,
}

impl Ast {
    /// Both vectors have one entry per expression, and the arena is well formed.
    pub open spec fn wf(&self) -> bool {
        &&& self.exprs.len() == self.spans.len()
        &&& exprs_wf(self.exprs@)
    }

    pub fn new() -> (r: Ast)
        ensures
            r.exprs@.len() == 0,
            r.spans@.len() == 0,
            r.wf(),
    {
        Ast { exprs: Vec::new(), spans: Vec::new() }
    }

    /// Appends `e` with position `l` and returns its index.
    pub fn push(&mut self, e: Expr, l: CodeLoc) -> (id: ExprId)
        requires
            old(self).exprs.len() == old(self).spans.len(),
            old(self).exprs.len() < usize::MAX,
        ensures
            final(self).exprs@ == old(self).exprs@.push(e),
            final(self).spans@ == old(self).spans@.push(l),
            id == old(self).exprs.len(),
    {
        self.exprs.push(e);
        self.spans.push(l);
        self.exprs.len() - 1
    }
}


/// Whether `b` begins with all of `a`.
pub open spec fn extends<T>(a: Seq<T>, b: Seq<T>) -> bool {
    &&& a.len() <= b.len()
    &&& forall|k: int| 0 <= k < a.len() ==> #[trigger] b[k] == a[k]
}

/// The tree at an index depends only on the nodes up to that index, so it
/// stays the same when the arena grows.
pub proof fn lemma_term_at_extends(a: Seq<Expr>, b: Seq<Expr>, id: int)
    requires
        extends(a, b),
        0 <= id < a.len(),
    ensures
        term_at(b, id) == term_at(a, id),
    decreases id,
{
    assert(b[id] == a[id]);
    if node_wf(a[id], id) {
        match a[id] {
            Expr::If(x, y, z) => {
                lemma_term_at_extends(a, b, x as int);
                lemma_term_at_extends(a, b, y as int);
                lemma_term_at_extends(a, b, z as int);
            },
            Expr::LetIn(_, _, x, y) => {
                lemma_term_at_extends(a, b, x as int);
                lemma_term_at_extends(a, b, y as int);
            },
            Expr::Fn(_, _, x) => {
                lemma_term_at_extends(a, b, x as int);
            },
            Expr::App(x, y) => {
                lemma_term_at_extends(a, b, x as int);
                lemma_term_at_extends(a, b, y as int);
            },
            Expr::Sequence(x, y) => {
                lemma_term_at_extends(a, b, x as int);
                lemma_term_at_extends(a, b, y as int);
            },
            Expr::Neg(x) => {
                lemma_term_at_extends(a, b, x as int);
            },
            Expr::BinOp(_, x, y) => {
                lemma_term_at_extends(a, b, x as int);
                lemma_term_at_extends(a, b, y as int);
            },
            _ => {},
        }
    }
}

/// The number of nodes of `p`, or `None` when it exceeds `usize::MAX`.
pub fn expr_size(p: &PExpr) -> (r: Option<usize>)
    ensures
        match r {
            Some(n) => n == p.size(),
            None => p.size() > usize::MAX,
        },
    decreases p,
{
    let parts: Option<usize> = match p {
        PExpr::If(a, b, c) => match (expr_size(&a.inner), expr_size(&b.inner), expr_size(&c.inner)) {
            (Some(x), Some(y), Some(z)) => match x.checked_add(y) {
                Some(xy) => xy.checked_add(z),
                None => None,
            },
            _ => None,
        },
        PExpr::LetIn(_, _, a, b) | PExpr::App(a, b) | PExpr::Sequence(a, b) | PExpr::BinOp(_, a, b) => {
            match (expr_size(&a.inner), expr_size(&b.inner)) {
                (Some(x), Some(y)) => x.checked_add(y),
                _ => None,
            }
        },
        PExpr::Fn(_, _, a) | PExpr::Neg(a) => expr_size(&a.inner),
        _ => Some(0),
    };
    match parts {
        Some(n) => n.checked_add(1),
        None => None,
    }
}

/// Whether the nodes of `p` lie at `lo` and on in the arena, children before
/// parents and from left to right: the subexpressions of `p` in turn, each
/// laid out the same way, and then its root, at `lo + size - 1`.  Each node
/// holds the position of its expression.
pub open spec fn placed(exprs: Seq<Expr>, spans: Seq<CodeLoc>, lo: int, p: Spanned<PExpr>) -> bool
    decreases p,
{
    let id = lo + p.inner.size() - 1;
    &&& 0 <= lo
    &&& id < exprs.len()
    &&& id < spans.len()
    &&& spans[id] == p.span
    &&& match p.inner {
        PExpr::If(a, b, c) => {
            let lb = lo + a.inner.size();
            let lc = lb + b.inner.size();
            &&& exprs[id] matches Expr::If(x, y, z) && x == lb - 1 && y == lc - 1 && z == id - 1
            &&& placed(exprs, spans, lo, *a)
            &&& placed(exprs, spans, lb, *b)
            &&& placed(exprs, spans, lc, *c)
        },
        PExpr::LetIn(_, _, a, b) => {
            let lb = lo + a.inner.size();
            &&& exprs[id] matches Expr::LetIn(_, _, x, y) && x == lb - 1 && y == id - 1
            &&& placed(exprs, spans, lo, *a)
            &&& placed(exprs, spans, lb, *b)
        },
        PExpr::Fn(_, _, a) => {
            &&& exprs[id] matches Expr::Fn(_, _, x) && x == id - 1
            &&& placed(exprs, spans, lo, *a)
        },
        PExpr::App(a, b) => {
            let lb = lo + a.inner.size();
            &&& exprs[id] matches Expr::App(x, y) && x == lb - 1 && y == id - 1
            &&& placed(exprs, spans, lo, *a)
            &&& placed(exprs, spans, lb, *b)
        },
        PExpr::Sequence(a, b) => {
            let lb = lo + a.inner.size();
            &&& exprs[id] matches Expr::Sequence(x, y) && x == lb - 1 && y == id - 1
            &&& placed(exprs, spans, lo, *a)
            &&& placed(exprs, spans, lb, *b)
        },
        PExpr::Neg(a) => {
            &&& exprs[id] matches Expr::Neg(x) && x == id - 1
            &&& placed(exprs, spans, lo, *a)
        },
        PExpr::BinOp(_, a, b) => {
            let lb = lo + a.inner.size();
            &&& exprs[id] matches Expr::BinOp(_, x, y) && x == lb - 1 && y == id - 1
            &&& placed(exprs, spans, lo, *a)
            &&& placed(exprs, spans, lb, *b)
        },
        _ => true,
    }
}

/// The layout of an expression in an arena stays when the arena grows.
pub proof fn lemma_placed_extends(
    e0: Seq<Expr>,
    s0: Seq<CodeLoc>,
    e1: Seq<Expr>,
    s1: Seq<CodeLoc>,
    lo: int,
    p: Spanned<PExpr>,
)
    requires
        extends(e0, e1),
        extends(s0, s1),
        placed(e0, s0, lo, p),
    ensures
        placed(e1, s1, lo, p),
    decreases p,
{
    let id = lo + p.inner.size() - 1;
    assert(e1[id] == e0[id]);
    assert(s1[id] == s0[id]);
    match p.inner {
        PExpr::If(a, b, c) => {
            let lb = lo + a.inner.size();
            let lc = lb + b.inner.size();
            lemma_placed_extends(e0, s0, e1, s1, lo, *a);
            lemma_placed_extends(e0, s0, e1, s1, lb, *b);
            lemma_placed_extends(e0, s0, e1, s1, lc, *c);
        },
        PExpr::LetIn(_, _, a, b) | PExpr::App(a, b) | PExpr::Sequence(a, b) | PExpr::BinOp(_, a, b) => {
            lemma_placed_extends(e0, s0, e1, s1, lo, *a);
            lemma_placed_extends(e0, s0, e1, s1, lo + a.inner.size(), *b);
        },
        PExpr::Fn(_, _, a) | PExpr::Neg(a) => {
            lemma_placed_extends(e0, s0, e1, s1, lo, *a);
        },
        _ => {},
    }
}

/// Appends the nodes of `p` to the arena, children before parents and from
/// left to right, and returns the index of its root.  The nodes already there
/// are kept; each new node has the position of the expression it comes from.
pub fn lower(ast: &mut Ast, p: Spanned<PExpr>) -> (id: ExprId)
    requires
        old(ast).wf(),
        old(ast).exprs.len() + p.inner.size() <= usize::MAX,
    ensures
        final(ast).wf(),
        final(ast).exprs.len() == old(ast).exprs.len() + p.inner.size(),
        extends(old(ast).exprs@, final(ast).exprs@),
        extends(old(ast).spans@, final(ast).spans@),
        id == final(ast).exprs.len() - 1,
        term_at(final(ast).exprs@, id as int) == p.inner.term(),
        placed(final(ast).exprs@, final(ast).spans@, old(ast).exprs.len() as int, p),
    decreases p,
{
    let span = p.span;
    let ghost pg = p;
    // The arena after each lowered child, with the index at which its nodes start.
    let ghost mut kids: Seq<(Seq<Expr>, Seq<CodeLoc>, int)> = Seq::empty();
    let e = match p.inner {
        PExpr::Var(v) => Expr::Var(v),
        PExpr::Num(n) => Expr::Num(n),
        PExpr::Bool(b) => Expr::Bool(b),
        PExpr::Unit => Expr::Unit,
        PExpr::If(e1, e2, e3) => {
            let ghost lo1 = ast.exprs.len() as int;
            let id1 = lower(ast, *e1);
            proof { kids = kids.push((ast.exprs@, ast.spans@, lo1)); }
            let ghost lo2 = ast.exprs.len() as int;
            let id2 = lower(ast, *e2);
            proof { kids = kids.push((ast.exprs@, ast.spans@, lo2)); }
            let ghost lo3 = ast.exprs.len() as int;
            let id3 = lower(ast, *e3);
            proof { kids = kids.push((ast.exprs@, ast.spans@, lo3)); }
            Expr::If(id1, id2, id3)
        },
        PExpr::LetIn(v, ty, e1, e2) => {
            let ghost lo1 = ast.exprs.len() as int;
            let id1 = lower(ast, *e1);
            proof { kids = kids.push((ast.exprs@, ast.spans@, lo1)); }
            let ghost lo2 = ast.exprs.len() as int;
            let id2 = lower(ast, *e2);
            proof { kids = kids.push((ast.exprs@, ast.spans@, lo2)); }
            Expr::LetIn(v.inner, ty, id1, id2)
        },
        PExpr::Fn(v, ty, e1) => {
            let ghost lo1 = ast.exprs.len() as int;
            let id1 = lower(ast, *e1);
            proof { kids = kids.push((ast.exprs@, ast.spans@, lo1)); }
            Expr::Fn(v.inner, ty, id1)
        },
        PExpr::App(e1, e2) => {
            let ghost lo1 = ast.exprs.len() as int;
            let id1 = lower(ast, *e1);
            proof { kids = kids.push((ast.exprs@, ast.spans@, lo1)); }
            let ghost lo2 = ast.exprs.len() as int;
            let id2 = lower(ast, *e2);
            proof { kids = kids.push((ast.exprs@, ast.spans@, lo2)); }
            Expr::App(id1, id2)
        },
        PExpr::Sequence(e1, e2) => {
            let ghost lo1 = ast.exprs.len() as int;
            let id1 = lower(ast, *e1);
            proof { kids = kids.push((ast.exprs@, ast.spans@, lo1)); }
            let ghost lo2 = ast.exprs.len() as int;
            let id2 = lower(ast, *e2);
            proof { kids = kids.push((ast.exprs@, ast.spans@, lo2)); }
            Expr::Sequence(id1, id2)
        },
        PExpr::Neg(e1) => {
            let ghost lo1 = ast.exprs.len() as int;
            let id1 = lower(ast, *e1);
            proof { kids = kids.push((ast.exprs@, ast.spans@, lo1)); }
            Expr::Neg(id1)
        },
        PExpr::BinOp(op, e1, e2) => {
            let ghost lo1 = ast.exprs.len() as int;
            let id1 = lower(ast, *e1);
            proof { kids = kids.push((ast.exprs@, ast.spans@, lo1)); }
            let ghost lo2 = ast.exprs.len() as int;
            let id2 = lower(ast, *e2);
            proof { kids = kids.push((ast.exprs@, ast.spans@, lo2)); }
            Expr::BinOp(op.inner, id1, id2)
        },
    };
    let ghost eg = e;
    let id = ast.push(e, span);
    proof {
        assert(node_wf(eg, id as int));
        assert forall|k: int| 0 <= k < ast.exprs@.len() implies #[trigger] node_wf(ast.exprs@[k], k) by {
            if k < ast.exprs@.len() - 1 {
                assert(ast.exprs@[k] == ast.exprs@.drop_last()[k]);
            }
        }
        assert forall|j: int| 0 <= j < kids.len() implies extends(#[trigger] kids[j].0, ast.exprs@) && extends(kids[j].1, ast.spans@) by {
        }
        match pg.inner {
            PExpr::If(a, b, c) => {
                lemma_term_at_extends(kids[0].0, ast.exprs@, kids[0].0.len() - 1);
                lemma_term_at_extends(kids[1].0, ast.exprs@, kids[1].0.len() - 1);
                lemma_term_at_extends(kids[2].0, ast.exprs@, kids[2].0.len() - 1);
                lemma_placed_extends(kids[0].0, kids[0].1, ast.exprs@, ast.spans@, kids[0].2, *a);
                lemma_placed_extends(kids[1].0, kids[1].1, ast.exprs@, ast.spans@, kids[1].2, *b);
                lemma_placed_extends(kids[2].0, kids[2].1, ast.exprs@, ast.spans@, kids[2].2, *c);
            },
            PExpr::LetIn(_, _, a, b) | PExpr::App(a, b) | PExpr::Sequence(a, b) | PExpr::BinOp(_, a, b) => {
                lemma_term_at_extends(kids[0].0, ast.exprs@, kids[0].0.len() - 1);
                lemma_term_at_extends(kids[1].0, ast.exprs@, kids[1].0.len() - 1);
                lemma_placed_extends(kids[0].0, kids[0].1, ast.exprs@, ast.spans@, kids[0].2, *a);
                lemma_placed_extends(kids[1].0, kids[1].1, ast.exprs@, ast.spans@, kids[1].2, *b);
            },
            PExpr::Fn(_, _, a) | PExpr::Neg(a) => {
                lemma_term_at_extends(kids[0].0, ast.exprs@, kids[0].0.len() - 1);
                lemma_placed_extends(kids[0].0, kids[0].1, ast.exprs@, ast.spans@, kids[0].2, *a);
            },
            _ => {},
        }
    }
    id
}

/// The types of the variables in scope.
#[derive(Debug)]
pub struct TypeEnv {
    env: im::HashMap<String, Type>,
}

impl View for TypeEnv {
    type V = Map<Seq<char>, SType>;

    closed spec fn view(&self) -> Map<Seq<char>, SType> {
        type_map(self.env)
    }
}

impl Clone for TypeEnv {
    fn clone(&self) -> (r: Self)
        ensures
            r@ == self@,
    {
        TypeEnv { env: types_clone(&self.env) }
    }
}

impl TypeEnv {
    /// The environment with no variable.
    pub fn new() -> (r: Self)
        ensures
            r@ == Map::<Seq<char>, SType>::empty(),
    {
        TypeEnv { env: types_new() }
    }

    /// A new environment in which `s` has type `v`; `self` is unchanged.
    pub fn upd_env(&self, s: String, v: Type) -> (r: TypeEnv)
        ensures
            r@ == self@.insert(s@, v@),
    {
        TypeEnv { env: types_update(&self.env, s, v) }
    }

    /// The type of `s`, if it is in scope.
    pub fn get_env(&self, s: String) -> (r: Option<Type>)
        ensures
            r is Some <==> self@.contains_key(s@),
            r matches Some(t) ==> t@ == self@[s@],
    {
        match types_get(&self.env, &s) {
            Some(t) => Some(copy_type(t)),
            None => None,
        }
    }

    /// All bindings, as a map.
    pub fn get_env_map(&self) -> (r: im::HashMap<String, Type>)
        ensures
            type_map(r) == self@,
    {
        types_clone(&self.env)
    }
}

/// Reading a variable after binding it gives the bound type, and binding a
/// variable leaves the others as they were.
pub proof fn law_env_read_after_write(env: TypeEnv, s: String, v: Type, other: String)
    requires
        other@ != s@,
    ensures
        env@.insert(s@, v@).contains_key(s@),
        env@.insert(s@, v@)[s@] == v@,
        env@.insert(s@, v@).contains_key(other@) == env@.contains_key(other@),
        env@.contains_key(other@) ==> env@.insert(s@, v@)[other@] == env@[other@],
{
}

/// Why a program is rejected by the type checker.
#[derive(Debug, Clone, PartialEq)]
pub enum TypeError {
    UnboundVariable(String),
    TypeMismatch { expected: Type, found: Type },
    NotAFunction(Type),
}


/// A value of the continuation-passing form.  Number literals are kept as
/// their decimal text.
#[derive(Debug)]
pub enum Value {
    Var(String),
    Label(String),
    Num(String),
    String(String),
}

/// The model of a [`Value`].
pub enum SVal {
    Var(Seq<char>),
    Label(Seq<char>),
    Num(Seq<char>),
    Str(Seq<char>),
}

impl View for Value {
    type V = SVal;

    open spec fn view(&self) -> SVal {
        match self {
            Value::Var(x) => SVal::Var(x@),
            Value::Label(x) => SVal::Label(x@),
            Value::Num(x) => SVal::Num(x@),
            Value::String(x) => SVal::Str(x@),
        }
    }
}

/// The index of a value in a [`CpsAst`].
pub type ValueId = usize;

/// An expression of the continuation-passing form; values and subexpressions
/// are given by their index.
#[derive(Debug)]
pub enum CExpr {
    /// Calls a value with arguments.
    App(ValueId, Vec<ValueId>),
    /// Defines functions (name, parameters, body), then runs an expression.
    Fix(Vec<(ValueId, Vec<ValueId>, ExprId)>, ExprId),
    /// Applies an operator to arguments, binds the results and continues
    /// with one of the continuations.
    PrimOp(BinOp, Vec<ValueId>, Vec<ValueId>, Vec<ExprId>),
    Switch(ValueId, ExprId),
}

/// The model of a [`CExpr`] as a tree, with every value resolved.
pub enum SCExpr {
    App(SVal, Seq<SVal>),
    Fix(Seq<(SVal, Seq<SVal>, SCExpr)>, Box<SCExpr>),
    PrimOp(BinOp, Seq<SVal>, Seq<SVal>, Seq<SCExpr>),
    Switch(SVal, Box<SCExpr>),
}

/// The expressions and values of a program in continuation-passing form,
/// each with its source position.
#[derive(Debug)]
pub struct CpsAst {
    pub exprs: Vec<CExpr>,
    pub spans: Vec<CodeLoc>,
    pub vals: Vec<Value>,
    pub val_spans: Vec<CodeLoc>,
}

/// The value with index `v`.
pub open spec fn val_at(vals: Seq<Value>, v: int) -> SVal {
    vals[v]@
}

/// The values with the indices `vs`.
pub open spec fn vals_at(vals: Seq<Value>, vs: Seq<usize>) -> Seq<SVal> {
    vs.map_values(|v: usize| vals[v as int]@)
}

/// Whether node `i` refers only to earlier nodes and to existing values.
pub open spec fn cnode_wf(e: CExpr, i: int, nvals: int) -> bool {
    match e {
        CExpr::App(f, xs) => f < nvals && forall|j: int| 0 <= j < xs@.len() ==> #[trigger] xs@[j] < nvals,
        CExpr::Fix(fs, body) => body < i && forall|j: int|
            0 <= j < fs@.len() ==> {
                &&& (#[trigger] fs@[j]).0 < nvals
                &&& fs@[j].2 < i
                &&& forall|l: int| 0 <= l < fs@[j].1@.len() ==> #[trigger] fs@[j].1@[l] < nvals
            },
        CExpr::PrimOp(_, ins, outs, cs) => {
            &&& forall|j: int| 0 <= j < ins@.len() ==> #[trigger] ins@[j] < nvals
            &&& forall|j: int| 0 <= j < outs@.len() ==> #[trigger] outs@[j] < nvals
            &&& forall|j: int| 0 <= j < cs@.len() ==> #[trigger] cs@[j] < i
        },
        CExpr::Switch(v, c) => v < nvals && c < i,
    }
}

/// More values keep a node well formed.
pub proof fn lemma_cnode_wf_mono(e: CExpr, i: int, n: int, m: int)
    requires
        cnode_wf(e, i, n),
        n <= m,
    ensures
        cnode_wf(e, i, m),
{
    match e {
        CExpr::Fix(fs, body) => {
            assert forall|j: int| 0 <= j < fs@.len() implies {
                &&& (#[trigger] fs@[j]).0 < m
                &&& fs@[j].2 < i
                &&& forall|l: int| 0 <= l < fs@[j].1@.len() ==> #[trigger] fs@[j].1@[l] < m
            } by {
                assert(fs@[j].0 < n);
                assert forall|l: int| 0 <= l < fs@[j].1@.len() implies #[trigger] fs@[j].1@[l]
                    < m by {
                    assert(fs@[j].1@[l] < n);
                }
            }
        },
        _ => {},
    }
}

/// A tree standing for a malformed index.
pub open spec fn bad_tree() -> SCExpr {
    SCExpr::App(SVal::Num(Seq::empty()), Seq::empty())
}

/// The tree that index `id` denotes.
pub open spec fn cexpr_at(exprs: Seq<CExpr>, vals: Seq<Value>, id: int) -> SCExpr
    decreases id + 1, 0int,
{
    if !(0 <= id < exprs.len()) || !cnode_wf(exprs[id], id, vals.len() as int) {
        bad_tree()
    } else {
        match exprs[id] {
            CExpr::App(f, xs) => SCExpr::App(val_at(vals, f as int), vals_at(vals, xs@)),
            CExpr::Fix(fs, body) => SCExpr::Fix(
                funs_at(exprs, vals, fs@, id),
                Box::new(cexpr_at(exprs, vals, body as int)),
            ),
            CExpr::PrimOp(op, ins, outs, cs) => SCExpr::PrimOp(
                op,
                vals_at(vals, ins@),
                vals_at(vals, outs@),
                conts_at(exprs, vals, cs@, id),
            ),
            CExpr::Switch(v, c) => SCExpr::Switch(
                val_at(vals, v as int),
                Box::new(cexpr_at(exprs, vals, c as int)),
            ),
        }
    }
}

/// The functions `fs` of the node `id`, as trees.
pub open spec fn funs_at(
    exprs: Seq<CExpr>,
    vals: Seq<Value>,
    fs: Seq<(usize, Vec<usize>, usize)>,
    id: int,
) -> Seq<(SVal, Seq<SVal>, SCExpr)>
    decreases id, fs.len(),
{
    if fs.len() == 0 {
        Seq::empty()
    } else {
        let f = fs.last();
        funs_at(exprs, vals, fs.drop_last(), id).push(
            (
                val_at(vals, f.0 as int),
                vals_at(vals, f.1@),
                if f.2 < id {
                    cexpr_at(exprs, vals, f.2 as int)
                } else {
                    bad_tree()
                },
            ),
        )
    }
}

/// The continuations `cs` of the node `id`, as trees.
pub open spec fn conts_at(exprs: Seq<CExpr>, vals: Seq<Value>, cs: Seq<usize>, id: int) -> Seq<
    SCExpr,
>
    decreases id, cs.len(),
{
    if cs.len() == 0 {
        Seq::empty()
    } else {
        let c = cs.last();
        conts_at(exprs, vals, cs.drop_last(), id).push(
            if c < id {
                cexpr_at(exprs, vals, c as int)
            } else {
                bad_tree()
            },
        )
    }
}

/// Whether the code generator can print node `e`: function names and
/// parameters are variables, and an operation with other than two
/// continuations has a result variable and a continuation.
pub open spec fn cnode_printable(e: CExpr, vals: Seq<Value>) -> bool {
    match e {
        CExpr::Fix(fs, _) => forall|j: int|
            0 <= j < fs@.len() ==> {
                &&& vals[(#[trigger] fs@[j]).0 as int] is Var
                &&& forall|l: int|
                    0 <= l < fs@[j].1@.len() ==> vals[#[trigger] fs@[j].1@[l] as int] is Var
            },
        CExpr::PrimOp(_, _, outs, cs) => cs@.len() == 2 || (cs@.len() >= 1 && outs@.len() >= 1
            && vals[outs@[0] as int] is Var),
        _ => true,
    }
}

/// Every node of the arena can be printed.
pub open spec fn printable(c: CpsAst) -> bool {
    forall|i: int| 0 <= i < c.exprs@.len() ==> #[trigger] cnode_printable(c.exprs@[i], c.vals@)
}

/// Whether node `id` and every node reachable from it are well formed and
/// can be printed.
pub open spec fn printable_at(exprs: Seq<CExpr>, vals: Seq<Value>, id: int) -> bool
    decreases id,
{
    &&& 0 <= id < exprs.len()
    &&& cnode_wf(exprs[id], id, vals.len() as int)
    &&& cnode_printable(exprs[id], vals)
    &&& match exprs[id] {
        CExpr::Fix(fs, body) => printable_at(exprs, vals, body as int) && forall|j: int|
            0 <= j < fs@.len() ==> printable_at(exprs, vals, (#[trigger] fs@[j]).2 as int),
        CExpr::PrimOp(_, _, _, cs) => forall|j: int|
            0 <= j < cs@.len() ==> printable_at(exprs, vals, #[trigger] cs@[j] as int),
        CExpr::Switch(_, c) => printable_at(exprs, vals, c as int),
        _ => true,
    }
}

/// In a well-formed arena whose nodes can all be printed, every node can be
/// printed with all it reaches.
pub proof fn lemma_printable_at(c: CpsAst, id: int)
    requires
        c.wf(),
        printable(c),
        0 <= id < c.exprs@.len(),
    ensures
        printable_at(c.exprs@, c.vals@, id),
    decreases id,
{
    let e = c.exprs@[id];
    assert(cnode_wf(e, id, c.vals@.len() as int));
    assert(cnode_printable(e, c.vals@));
    match e {
        CExpr::Fix(fs, body) => {
            lemma_printable_at(c, body as int);
            assert forall|j: int| 0 <= j < fs@.len() implies printable_at(
                c.exprs@,
                c.vals@,
                (#[trigger] fs@[j]).2 as int,
            ) by {
                lemma_printable_at(c, fs@[j].2 as int);
            }
        },
        CExpr::PrimOp(_, _, _, cs) => {
            assert forall|j: int| 0 <= j < cs@.len() implies printable_at(
                c.exprs@,
                c.vals@,
                #[trigger] cs@[j] as int,
            ) by {
                lemma_printable_at(c, cs@[j] as int);
            }
        },
        CExpr::Switch(_, k) => {
            lemma_printable_at(c, k as int);
        },
        _ => {},
    }
}

/// Appending a value keeps every node printable.
pub proof fn lemma_printable_push_val(a: CpsAst, b: CpsAst, v: Value)
    requires
        a.wf(),
        printable(a),
        b.exprs@ == a.exprs@,
        b.vals@ == a.vals@.push(v),
    ensures
        printable(b),
{
    assert forall|i: int| 0 <= i < b.exprs@.len() implies #[trigger] cnode_printable(
        b.exprs@[i],
        b.vals@,
    ) by {
        let e = a.exprs@[i];
        assert(cnode_printable(e, a.vals@));
        assert(cnode_wf(e, i, a.vals@.len() as int));
        match e {
            CExpr::Fix(fs, _) => {
                assert forall|j: int| 0 <= j < fs@.len() implies {
                    &&& b.vals@[(#[trigger] fs@[j]).0 as int] is Var
                    &&& forall|l: int|
                        0 <= l < fs@[j].1@.len() ==> b.vals@[#[trigger] fs@[j].1@[l] as int] is Var
                } by {
                    assert(b.vals@[fs@[j].0 as int] == a.vals@[fs@[j].0 as int]);
                    assert forall|l: int| 0 <= l < fs@[j].1@.len() implies b.vals@[
                        #[trigger] fs@[j].1@[l] as int
                    ] is Var by {
                        assert(b.vals@[fs@[j].1@[l] as int] == a.vals@[fs@[j].1@[l] as int]);
                    }
                }
            },
            CExpr::PrimOp(_, _, outs, cs) => {
                if cs@.len() != 2 {
                    assert(b.vals@[outs@[0] as int] == a.vals@[outs@[0] as int]);
                }
            },
            _ => {},
        }
    }
}

/// Appending a printable node keeps every node printable.
pub proof fn lemma_printable_push(a: CpsAst, b: CpsAst, e: CExpr)
    requires
        printable(a),
        cnode_printable(e, a.vals@),
        b.exprs@ == a.exprs@.push(e),
        b.vals@ == a.vals@,
    ensures
        printable(b),
{
    assert forall|i: int| 0 <= i < b.exprs@.len() implies #[trigger] cnode_printable(
        b.exprs@[i],
        b.vals@,
    ) by {
        if i < a.exprs@.len() {
            assert(b.exprs@[i] == a.exprs@[i]);
        }
    }
}

impl CpsAst {
    /// One position per expression and per value, and every node well formed.
    pub open spec fn wf(&self) -> bool {
        &&& self.exprs.len() == self.spans.len()
        &&& self.vals.len() == self.val_spans.len()
        &&& forall|i: int|
            0 <= i < self.exprs@.len() ==> #[trigger] cnode_wf(
                self.exprs@[i],
                i,
                self.vals@.len() as int,
            )
    }

    pub fn new() -> (r: CpsAst)
        ensures
            r.exprs@.len() == 0,
            r.spans@.len() == 0,
            r.vals@.len() == 0,
            r.val_spans@.len() == 0,
            r.wf(),
    {
        CpsAst { exprs: Vec::new(), spans: Vec::new(), vals: Vec::new(), val_spans: Vec::new() }
    }

    /// Appends the expression `e` with position `l` and returns its index.
    pub fn push(&mut self, e: CExpr, l: CodeLoc) -> (id: ExprId)
        requires
            old(self).exprs.len() == old(self).spans.len(),
            old(self).exprs.len() < usize::MAX,
        ensures
            final(self).exprs@ == old(self).exprs@.push(e),
            final(self).spans@ == old(self).spans@.push(l),
            final(self).vals@ == old(self).vals@,
            final(self).val_spans@ == old(self).val_spans@,
            id == old(self).exprs.len(),
            old(self).wf() && cnode_wf(e, old(self).exprs.len() as int, old(self).vals.len() as int)
                ==> final(self).wf(),
            printable(*old(self)) && cnode_printable(e, old(self).vals@) ==> printable(*final(self)),
    {
        let ghost s0 = *self;
        let ghost e0 = e;
        self.exprs.push(e);
        self.spans.push(l);
        proof {
            if printable(s0) && cnode_printable(e0, s0.vals@) {
                lemma_printable_push(s0, *self, e0);
            }
        }
        self.exprs.len() - 1
    }

    /// Appends the value `e` with position `l` and returns its index.
    pub fn push_val(&mut self, e: Value, l: CodeLoc) -> (id: ValueId)
        requires
            old(self).vals.len() == old(self).val_spans.len(),
            old(self).vals.len() < usize::MAX,
        ensures
            final(self).vals@ == old(self).vals@.push(e),
            final(self).val_spans@ == old(self).val_spans@.push(l),
            final(self).exprs@ == old(self).exprs@,
            final(self).spans@ == old(self).spans@,
            id == old(self).vals.len(),
            old(self).wf() ==> final(self).wf(),
            old(self).wf() && printable(*old(self)) ==> printable(*final(self)),
    {
        let ghost s0 = *self;
        let ghost e0 = e;
        self.vals.push(e);
        self.val_spans.push(l);
        proof {
            if old(self).wf() {
                assert forall|i: int| 0 <= i < self.exprs@.len() implies #[trigger] cnode_wf(
                    self.exprs@[i],
                    i,
                    self.vals@.len() as int,
                ) by {
                    lemma_cnode_wf_mono(
                        old(self).exprs@[i],
                        i,
                        old(self).vals@.len() as int,
                        self.vals@.len() as int,
                    );
                }
                if printable(s0) {
                    lemma_printable_push_val(s0, *self, e0);
                }
            }
        }
        self.vals.len() - 1
    }
}

} // verus!
