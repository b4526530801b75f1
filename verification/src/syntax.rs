//! Abstract syntax of snake programs: surface expressions (`Exp`) and
//! sequential expressions in A-normal form (`SeqExp`), both annotated, and
//! the passes that re-annotate them.
use vstd::prelude::*;
use crate::view_eq::ViewEq;
use crate::list::{List, assoc};
use crate::text::{dec_text, hex_digit, nat_to_string};

verus! {

/* Programs */

#[derive(Clone, Debug, PartialEq, Eq)]
pub struct Prog<E, Ann> {
    pub funs: Vec<FunDecl<E, Ann>>,
    pub main: E,
    pub ann: Ann,
}

#[derive(Clone, Debug, PartialEq, Eq)]
pub struct FunDecl<E, Ann> {
    pub name: String,
    pub parameters: Vec<String>,
    pub body: E,
    pub ann: Ann,
}

pub type SurfProg<Ann> = Prog<Exp<Ann>, Ann>;
pub type SurfFunDecl<Ann> = FunDecl<Exp<Ann>, Ann>;
pub type SeqProg<Ann> = Prog<SeqExp<Ann>, Ann>;
pub type SeqFunDecl<Ann> = FunDecl<SeqExp<Ann>, Ann>;

/* Expressions */

#[derive(Debug, PartialEq, Eq)]
pub enum Exp<Ann> {
    Num(i64, Ann),
    Bool(bool, Ann),
    Var(String, Ann),
    Prim1(Prim1, Box<Exp<Ann>>, Ann),
    Prim2(Prim2, Box<Exp<Ann>>, Box<Exp<Ann>>, Ann),
    Let {
        /// the new bindings, in order
        bindings: Vec<(String, Exp<Ann>)>,
        /// the expression in which the new variables are bound
        body: Box<Exp<Ann>>,
        ann: Ann,
    },
    If {
        cond: Box<Exp<Ann>>,
        thn: Box<Exp<Ann>>,
        els: Box<Exp<Ann>>,
        ann: Ann,
    },
    Call(String, Vec<Exp<Ann>>, Ann),
}

#[derive(Copy, Clone, Debug, PartialEq, Eq, Structural)]
pub enum Prim1 {
    Add1,
    Sub1,
    Not,
    Print,
    IsBool,
    IsNum,
    PrintStack,
}

#[derive(Copy, Clone, Debug, PartialEq, Eq, Structural)]
pub enum Prim2 {
    Add,
    Sub,
    Mul,
    And,
    Or,
    Lt,
    Gt,
    Le,
    Ge,
    Eq,
    Neq,
}

/* Sequential expressions */

#[derive(Clone, Debug, PartialEq, Eq)]
pub enum ImmExp {
    Num(i64),
    Bool(bool),
    Var(String),
}

#[derive(Debug, PartialEq, Eq)]
pub enum SeqExp<Ann> {
    Imm(ImmExp, Ann),
    Prim1(Prim1, ImmExp, Ann),
    Prim2(Prim2, ImmExp, ImmExp, Ann),
    Let {
        var: String,
        bound_exp: Box<SeqExp<Ann>>,
        body: Box<SeqExp<Ann>>,
        ann: Ann,
    },
    If {
        cond: ImmExp,
        thn: Box<SeqExp<Ann>>,
        els: Box<SeqExp<Ann>>,
        ann: Ann,
    },
    Call(String, Vec<ImmExp>, Ann),
}

/* Annotations, in the order in which `map_ann` visits them: the
   sub-expressions first, left to right, then the node itself. */

pub open spec fn exp_anns<A>(e: Exp<A>) -> Seq<A>
    decreases e,
{
    match e {
        Exp::Num(_, a) => seq![a],
        Exp::Bool(_, a) => seq![a],
        Exp::Var(_, a) => seq![a],
        Exp::Prim1(_, e1, a) => exp_anns(*e1).push(a),
        Exp::Prim2(_, e1, e2, a) => (exp_anns(*e1) + exp_anns(*e2)).push(a),
        Exp::Let { bindings, body, ann } => (binds_anns(bindings@) + exp_anns(*body)).push(ann),
        Exp::If { cond, thn, els, ann } => (exp_anns(*cond) + exp_anns(*thn) + exp_anns(*els)).push(ann),
        Exp::Call(_, args, a) => args_anns(args@).push(a),
    }
}

pub open spec fn binds_anns<A>(bs: Seq<(String, Exp<A>)>) -> Seq<A>
    decreases bs,
{
    if bs.len() == 0 {
        Seq::empty()
    } else {
        binds_anns(bs.drop_last()) + exp_anns(bs.last().1)
    }
}

pub open spec fn args_anns<A>(es: Seq<Exp<A>>) -> Seq<A>
    decreases es,
{
    if es.len() == 0 {
        Seq::empty()
    } else {
        args_anns(es.drop_last()) + exp_anns(es.last())
    }
}

/// Two expressions that differ at most in their annotations.
pub open spec fn same_shape<A, B>(e1: Exp<A>, e2: Exp<B>) -> bool
    decreases e1,
{
    match (e1, e2) {
        (Exp::Num(n1, _), Exp::Num(n2, _)) => n1 == n2,
        (Exp::Bool(b1, _), Exp::Bool(b2, _)) => b1 == b2,
        (Exp::Var(x1, _), Exp::Var(x2, _)) => x1@ == x2@,
        (Exp::Prim1(p1, a1, _), Exp::Prim1(p2, a2, _)) => p1 == p2 && same_shape(*a1, *a2),
        (Exp::Prim2(p1, a1, b1, _), Exp::Prim2(p2, a2, b2, _)) =>
            p1 == p2 && same_shape(*a1, *a2) && same_shape(*b1, *b2),
        (Exp::Let { bindings: bs1, body: b1, .. }, Exp::Let { bindings: bs2, body: b2, .. }) =>
            same_shape_binds(bs1@, bs2@) && same_shape(*b1, *b2),
        (Exp::If { cond: c1, thn: t1, els: e1, .. }, Exp::If { cond: c2, thn: t2, els: e2, .. }) =>
            same_shape(*c1, *c2) && same_shape(*t1, *t2) && same_shape(*e1, *e2),
        (Exp::Call(f1, as1, _), Exp::Call(f2, as2, _)) => f1@ == f2@ && same_shape_args(as1@, as2@),
        _ => false,
    }
}

pub open spec fn same_shape_binds<A, B>(bs1: Seq<(String, Exp<A>)>, bs2: Seq<(String, Exp<B>)>) -> bool
    decreases bs1,
{
    if bs1.len() == 0 {
        bs2.len() == 0
    } else {
        &&& bs2.len() == bs1.len()
        &&& same_shape_binds(bs1.drop_last(), bs2.drop_last())
        &&& bs1.last().0@ == bs2.last().0@
        &&& same_shape(bs1.last().1, bs2.last().1)
    }
}

pub open spec fn same_shape_args<A, B>(es1: Seq<Exp<A>>, es2: Seq<Exp<B>>) -> bool
    decreases es1,
{
    if es1.len() == 0 {
        es2.len() == 0
    } else {
        &&& es2.len() == es1.len()
        &&& same_shape_args(es1.drop_last(), es2.drop_last())
        &&& same_shape(es1.last(), es2.last())
    }
}

/// Each annotation of `bs` is one that `f` may return for the matching
/// annotation of `as_`.
pub open spec fn mapped_by<A, B, F: Fn(&A) -> B>(as_: Seq<A>, bs: Seq<B>, f: F) -> bool {
    &&& as_.len() == bs.len()
    &&& forall|i: int| 0 <= i < as_.len() ==> f.ensures((&as_[i],), #[trigger] bs[i])
}

pub proof fn lemma_mapped_concat<A, B, F: Fn(&A) -> B>(a1: Seq<A>, b1: Seq<B>, a2: Seq<A>, b2: Seq<B>, f: F)
    requires
        mapped_by(a1, b1, f),
        mapped_by(a2, b2, f),
    ensures
        mapped_by(a1 + a2, b1 + b2, f),
{
    assert forall|i: int| 0 <= i < (a1 + a2).len() implies f.ensures((&(a1 + a2)[i],), #[trigger] (b1 + b2)[i]) by {
        if i < a1.len() {
            assert((a1 + a2)[i] == a1[i]);
            assert((b1 + b2)[i] == b1[i]);
        } else {
            assert((a1 + a2)[i] == a2[i - a1.len()]);
            assert((b1 + b2)[i] == b2[i - a1.len()]);
        }
    }
}

pub proof fn lemma_mapped_push<A, B, F: Fn(&A) -> B>(a1: Seq<A>, b1: Seq<B>, a: A, b: B, f: F)
    requires
        mapped_by(a1, b1, f),
        f.ensures((&a,), b),
    ensures
        mapped_by(a1.push(a), b1.push(b), f),
{
    assert forall|i: int| 0 <= i < a1.push(a).len() implies f.ensures((&a1.push(a)[i],), #[trigger] b1.push(b)[i]) by {
        if i < a1.len() {
            assert(a1.push(a)[i] == a1[i]);
        }
    }
}

/// Shapes compose: an expression of the shape of one of the shape of `e1`
/// has the shape of `e1`.
pub proof fn lemma_same_shape_trans<A, B, C>(e1: Exp<A>, e2: Exp<B>, e3: Exp<C>)
    requires
        same_shape(e1, e2),
        same_shape(e2, e3),
    ensures
        same_shape(e1, e3),
    decreases e1,
{
    match (e1, e2, e3) {
        (Exp::Prim1(_, a1, _), Exp::Prim1(_, a2, _), Exp::Prim1(_, a3, _)) => {
            lemma_same_shape_trans(*a1, *a2, *a3);
        },
        (Exp::Prim2(_, a1, b1, _), Exp::Prim2(_, a2, b2, _), Exp::Prim2(_, a3, b3, _)) => {
            lemma_same_shape_trans(*a1, *a2, *a3);
            lemma_same_shape_trans(*b1, *b2, *b3);
        },
        (Exp::Let { bindings: bs1, body: b1, .. }, Exp::Let { bindings: bs2, body: b2, .. }, Exp::Let { bindings: bs3, body: b3, .. }) => {
            lemma_same_shape_binds_trans(bs1@, bs2@, bs3@);
            lemma_same_shape_trans(*b1, *b2, *b3);
        },
        (Exp::If { cond: c1, thn: t1, els: f1, .. }, Exp::If { cond: c2, thn: t2, els: f2, .. }, Exp::If { cond: c3, thn: t3, els: f3, .. }) => {
            lemma_same_shape_trans(*c1, *c2, *c3);
            lemma_same_shape_trans(*t1, *t2, *t3);
            lemma_same_shape_trans(*f1, *f2, *f3);
        },
        (Exp::Call(_, as1, _), Exp::Call(_, as2, _), Exp::Call(_, as3, _)) => {
            lemma_same_shape_args_trans(as1@, as2@, as3@);
        },
        _ => {},
    }
}

proof fn lemma_same_shape_binds_trans<A, B, C>(bs1: Seq<(String, Exp<A>)>, bs2: Seq<(String, Exp<B>)>, bs3: Seq<(String, Exp<C>)>)
    requires
        same_shape_binds(bs1, bs2),
        same_shape_binds(bs2, bs3),
    ensures
        same_shape_binds(bs1, bs3),
    decreases bs1,
{
    if bs1.len() > 0 {
        lemma_same_shape_binds_trans(bs1.drop_last(), bs2.drop_last(), bs3.drop_last());
        lemma_same_shape_trans(bs1.last().1, bs2.last().1, bs3.last().1);
    }
}

proof fn lemma_same_shape_args_trans<A, B, C>(es1: Seq<Exp<A>>, es2: Seq<Exp<B>>, es3: Seq<Exp<C>>)
    requires
        same_shape_args(es1, es2),
        same_shape_args(es2, es3),
    ensures
        same_shape_args(es1, es3),
    decreases es1,
{
    if es1.len() > 0 {
        lemma_same_shape_args_trans(es1.drop_last(), es2.drop_last(), es3.drop_last());
        lemma_same_shape_trans(es1.last(), es2.last(), es3.last());
    }
}

/// Mapping the annotations with a function that returns its argument
/// changes none of them: with the shape kept (as `map_ann` ensures), the
/// expression reads the same.
pub proof fn lemma_map_identity<A, F: Fn(&A) -> A>(as_: Seq<A>, bs: Seq<A>, f: F)
    requires
        mapped_by(as_, bs, f),
        forall|a: A, b: A| #[trigger] f.ensures((&a,), b) ==> b == a,
    ensures
        bs == as_,
{
    assert forall|i: int| 0 <= i < as_.len() implies bs[i] == as_[i] by {
        assert(f.ensures((&as_[i],), bs[i]));
    }
    assert(bs =~= as_);
}

/// `c` is what `g` may return for something that `f` may return for `a`.
pub open spec fn composed<A, B, C, F: Fn(&A) -> B, G: Fn(&B) -> C>(f: F, g: G, a: A, c: C) -> bool {
    exists|b: B| #[trigger] f.ensures((&a,), b) && g.ensures((&b,), c)
}

/// Mapping with `f` then with `g` maps each annotation by `f` followed by
/// `g`; the shapes compose by `lemma_same_shape_trans`.
pub proof fn lemma_map_compose<A, B, C, F: Fn(&A) -> B, G: Fn(&B) -> C>(as_: Seq<A>, bs: Seq<B>, cs: Seq<C>, f: F, g: G)
    requires
        mapped_by(as_, bs, f),
        mapped_by(bs, cs, g),
    ensures
        cs.len() == as_.len(),
        forall|i: int| 0 <= i < as_.len() ==> #[trigger] composed(f, g, as_[i], cs[i]),
{
    assert forall|i: int| 0 <= i < as_.len() implies #[trigger] composed(f, g, as_[i], cs[i]) by {
        assert(f.ensures((&as_[i],), bs[i]));
        assert(g.ensures((&bs[i],), cs[i]));
    }
}

impl<Ann> Exp<Ann> {
    /// The annotation of the node itself.
    pub open spec fn spec_ann(self) -> Ann {
        match self {
            Exp::Num(_, a) => a,
            Exp::Bool(_, a) => a,
            Exp::Var(_, a) => a,
            Exp::Prim1(_, _, a) => a,
            Exp::Prim2(_, _, _, a) => a,
            Exp::Let { ann, .. } => ann,
            Exp::If { ann, .. } => ann,
            Exp::Call(_, _, a) => a,
        }
    }

    /// The annotation of the node itself.
    pub fn ann_ref(&self) -> (a: &Ann)
        ensures
            *a == self.spec_ann(),
    {
        match self {
            Exp::Num(_, a) => a,
            Exp::Bool(_, a) => a,
            Exp::Var(_, a) => a,
            Exp::Prim1(_, _, a) => a,
            Exp::Prim2(_, _, _, a) => a,
            Exp::Let { ann: a, .. } => a,
            Exp::If { ann: a, .. } => a,
            Exp::Call(_, _, a) => a,
        }
    }

    /// A copy of the annotation of the node itself.
    pub fn ann(&self) -> (a: Ann)
        where
            Ann: Copy,
        ensures
            a == self.spec_ann(),
    {
        *self.ann_ref()
    }

    /// The expression with the annotation of the node itself replaced.
    pub open spec fn with_ann(self, b: Ann) -> Exp<Ann> {
        match self {
            Exp::Num(n, _) => Exp::Num(n, b),
            Exp::Bool(x, _) => Exp::Bool(x, b),
            Exp::Var(x, _) => Exp::Var(x, b),
            Exp::Prim1(op, e, _) => Exp::Prim1(op, e, b),
            Exp::Prim2(op, e1, e2, _) => Exp::Prim2(op, e1, e2, b),
            Exp::Let { bindings, body, .. } => Exp::Let { bindings, body, ann: b },
            Exp::If { cond, thn, els, .. } => Exp::If { cond, thn, els, ann: b },
            Exp::Call(f, args, _) => Exp::Call(f, args, b),
        }
    }

    /// The annotation of the node itself, to be changed in place.
    pub fn ann_mut(&mut self) -> (a: &mut Ann)
        ensures
            *a == old(self).spec_ann(),
            *final(self) == old(self).with_ann(*final(a)),
    {
        match self {
            Exp::Num(_, a) => a,
            Exp::Bool(_, a) => a,
            Exp::Var(_, a) => a,
            Exp::Prim1(_, _, a) => a,
            Exp::Prim2(_, _, _, a) => a,
            Exp::Let { ann: a, .. } => a,
            Exp::If { ann: a, .. } => a,
            Exp::Call(_, _, a) => a,
        }
    }

    /// Applies `f` to every annotation, sub-expressions before the node.
    #[verifier::loop_isolation(false)]
    pub fn map_ann<Ann2, F>(&self, f: &F) -> (r: Exp<Ann2>)
        where
            F: Fn(&Ann) -> Ann2,
        requires
            forall|a: &Ann| #[trigger] f.requires((a,)),
        ensures
            same_shape(*self, r),
            mapped_by(exp_anns(*self), exp_anns(r), *f),
        decreases self,
    {
        match self {
            Exp::Num(n, a) => {
                let b = f(a);
                proof { lemma_mapped_push(Seq::empty(), Seq::empty(), *a, b, *f); }
                Exp::Num(*n, b)
            },
            Exp::Bool(x, a) => {
                let b = f(a);
                proof { lemma_mapped_push(Seq::empty(), Seq::empty(), *a, b, *f); }
                Exp::Bool(*x, b)
            },
            Exp::Var(s, a) => {
                let b = f(a);
                proof { lemma_mapped_push(Seq::empty(), Seq::empty(), *a, b, *f); }
                Exp::Var(s.clone(), b)
            },
            Exp::Prim1(op, e, a) => {
                let e2 = e.map_ann(f);
                let b = f(a);
                proof { lemma_mapped_push(exp_anns(**e), exp_anns(e2), *a, b, *f); }
                Exp::Prim1(*op, Box::new(e2), b)
            },
            Exp::Prim2(op, e1, e2, a) => {
                let r1 = e1.map_ann(f);
                let r2 = e2.map_ann(f);
                let b = f(a);
                proof {
                    lemma_mapped_concat(exp_anns(**e1), exp_anns(r1), exp_anns(**e2), exp_anns(r2), *f);
                    lemma_mapped_push(exp_anns(**e1) + exp_anns(**e2), exp_anns(r1) + exp_anns(r2), *a, b, *f);
                }
                Exp::Prim2(*op, Box::new(r1), Box::new(r2), b)
            },
            Exp::Let { bindings, body, ann } => {
                let mut nb: Vec<(String, Exp<Ann2>)> = Vec::new();
                let mut i: usize = 0;
                while i < bindings.len()
                    invariant
                        i <= bindings@.len(),
                        nb@.len() == i,
                        forall|a: &Ann| #[trigger] f.requires((a,)),
                        same_shape_binds(bindings@.subrange(0, i as int), nb@),
                        mapped_by(binds_anns(bindings@.subrange(0, i as int)), binds_anns(nb@), *f),
                    decreases bindings@.len() - i,
                {
                    let (x, e) = &bindings[i];
                    let r = e.map_ann(f);
                    let ghost before = nb@;
                    nb.push((x.clone(), r));
                    proof {
                        let pre = bindings@.subrange(0, i as int);
                        let post = bindings@.subrange(0, i + 1);
                        assert(post.drop_last() =~= pre);
                        assert(nb@.drop_last() =~= before);
                        lemma_mapped_concat(binds_anns(pre), binds_anns(before), exp_anns(*e), exp_anns(r), *f);
                    }
                    i = i + 1;
                }
                proof { assert(bindings@.subrange(0, bindings@.len() as int) =~= bindings@); }
                let rb = body.map_ann(f);
                let b = f(ann);
                proof {
                    lemma_mapped_concat(binds_anns(bindings@), binds_anns(nb@), exp_anns(**body), exp_anns(rb), *f);
                    lemma_mapped_push(binds_anns(bindings@) + exp_anns(**body), binds_anns(nb@) + exp_anns(rb), *ann, b, *f);
                }
                Exp::Let { bindings: nb, body: Box::new(rb), ann: b }
            },
            Exp::If { cond, thn, els, ann } => {
                let c = cond.map_ann(f);
                let t = thn.map_ann(f);
                let e = els.map_ann(f);
                let b = f(ann);
                proof {
                    lemma_mapped_concat(exp_anns(**cond), exp_anns(c), exp_anns(**thn), exp_anns(t), *f);
                    lemma_mapped_concat(exp_anns(**cond) + exp_anns(**thn), exp_anns(c) + exp_anns(t), exp_anns(**els), exp_anns(e), *f);
                    lemma_mapped_push(exp_anns(**cond) + exp_anns(**thn) + exp_anns(**els), exp_anns(c) + exp_anns(t) + exp_anns(e), *ann, b, *f);
                }
                Exp::If { cond: Box::new(c), thn: Box::new(t), els: Box::new(e), ann: b }
            },
            Exp::Call(fun, args, ann) => {
                let mut na: Vec<Exp<Ann2>> = Vec::new();
                let mut i: usize = 0;
                while i < args.len()
                    invariant
                        i <= args@.len(),
                        na@.len() == i,
                        forall|a: &Ann| #[trigger] f.requires((a,)),
                        same_shape_args(args@.subrange(0, i as int), na@),
                        mapped_by(args_anns(args@.subrange(0, i as int)), args_anns(na@), *f),
                    decreases args@.len() - i,
                {
                    let r = args[i].map_ann(f);
                    let ghost before = na@;
                    na.push(r);
                    proof {
                        let pre = args@.subrange(0, i as int);
                        let post = args@.subrange(0, i + 1);
                        assert(post.drop_last() =~= pre);
                        assert(na@.drop_last() =~= before);
                        lemma_mapped_concat(args_anns(pre), args_anns(before), exp_anns(args@[i as int]), exp_anns(r), *f);
                    }
                    i = i + 1;
                }
                proof { assert(args@.subrange(0, args@.len() as int) =~= args@); }
                let b = f(ann);
                proof {
                    lemma_mapped_push(args_anns(args@), args_anns(na@), *ann, b, *f);
                }
                Exp::Call(fun.clone(), na, b)
            },
        }
    }
}


pub open spec fn seq_anns<A>(e: SeqExp<A>) -> Seq<A>
    decreases e,
{
    match e {
        SeqExp::Imm(_, a) => seq![a],
        SeqExp::Prim1(_, _, a) => seq![a],
        SeqExp::Prim2(_, _, _, a) => seq![a],
        SeqExp::Let { bound_exp, body, ann, .. } => (seq_anns(*bound_exp) + seq_anns(*body)).push(ann),
        SeqExp::If { thn, els, ann, .. } => (seq_anns(*thn) + seq_anns(*els)).push(ann),
        SeqExp::Call(_, _, a) => seq![a],
    }
}

pub open spec fn imm_same(i1: ImmExp, i2: ImmExp) -> bool {
    match (i1, i2) {
        (ImmExp::Num(n1), ImmExp::Num(n2)) => n1 == n2,
        (ImmExp::Bool(b1), ImmExp::Bool(b2)) => b1 == b2,
        (ImmExp::Var(x1), ImmExp::Var(x2)) => x1@ == x2@,
        _ => false,
    }
}

pub open spec fn imms_same(is1: Seq<ImmExp>, is2: Seq<ImmExp>) -> bool {
    &&& is1.len() == is2.len()
    &&& forall|k: int| 0 <= k < is1.len() ==> imm_same(#[trigger] is1[k], is2[k])
}

/// Two sequential expressions that differ at most in their annotations.
pub open spec fn seq_same_shape<A, B>(e1: SeqExp<A>, e2: SeqExp<B>) -> bool
    decreases e1,
{
    match (e1, e2) {
        (SeqExp::Imm(i1, _), SeqExp::Imm(i2, _)) => imm_same(i1, i2),
        (SeqExp::Prim1(p1, i1, _), SeqExp::Prim1(p2, i2, _)) => p1 == p2 && imm_same(i1, i2),
        (SeqExp::Prim2(p1, i1, j1, _), SeqExp::Prim2(p2, i2, j2, _)) =>
            p1 == p2 && imm_same(i1, i2) && imm_same(j1, j2),
        (SeqExp::Let { var: v1, bound_exp: b1, body: d1, .. }, SeqExp::Let { var: v2, bound_exp: b2, body: d2, .. }) =>
            v1@ == v2@ && seq_same_shape(*b1, *b2) && seq_same_shape(*d1, *d2),
        (SeqExp::If { cond: c1, thn: t1, els: e1, .. }, SeqExp::If { cond: c2, thn: t2, els: e2, .. }) =>
            imm_same(c1, c2) && seq_same_shape(*t1, *t2) && seq_same_shape(*e1, *e2),
        (SeqExp::Call(f1, as1, _), SeqExp::Call(f2, as2, _)) => f1@ == f2@ && imms_same(as1@, as2@),
        _ => false,
    }
}

/// A copy of an immediate.
pub fn copy_imm(i: &ImmExp) -> (r: ImmExp)
    ensures
        imm_same(*i, r),
        r == *i,
{
    match i {
        ImmExp::Num(n) => ImmExp::Num(*n),
        ImmExp::Bool(b) => ImmExp::Bool(*b),
        ImmExp::Var(x) => ImmExp::Var(x.clone()),
    }
}

/// A copy of a list of immediates.
pub fn copy_imms(is: &Vec<ImmExp>) -> (r: Vec<ImmExp>)
    ensures
        imms_same(is@, r@),
        r@ == is@,
{
    let mut r: Vec<ImmExp> = Vec::new();
    let mut k: usize = 0;
    while k < is.len()
        invariant
            k <= is@.len(),
            r@ == is@.subrange(0, k as int),
        decreases is@.len() - k,
    {
        r.push(copy_imm(&is[k]));
        proof { assert(r@ =~= is@.subrange(0, k + 1)); }
        k = k + 1;
    }
    proof { assert(r@ =~= is@); }
    r
}

impl<Ann> SeqExp<Ann> {
    /// The annotation of the node itself.
    pub open spec fn spec_ann(self) -> Ann {
        match self {
            SeqExp::Imm(_, a) => a,
            SeqExp::Prim1(_, _, a) => a,
            SeqExp::Prim2(_, _, _, a) => a,
            SeqExp::Let { ann, .. } => ann,
            SeqExp::If { ann, .. } => ann,
            SeqExp::Call(_, _, a) => a,
        }
    }

    /// The annotation of the node itself.
    pub fn ann_ref(&self) -> (a: &Ann)
        ensures
            *a == self.spec_ann(),
    {
        match self {
            SeqExp::Imm(_, a) => a,
            SeqExp::Prim1(_, _, a) => a,
            SeqExp::Prim2(_, _, _, a) => a,
            SeqExp::Let { ann: a, .. } => a,
            SeqExp::If { ann: a, .. } => a,
            SeqExp::Call(_, _, a) => a,
        }
    }

    /// A copy of the annotation of the node itself.
    pub fn ann(&self) -> (a: Ann)
        where
            Ann: Copy,
        ensures
            a == self.spec_ann(),
    {
        *self.ann_ref()
    }

    /// Applies `f` to every annotation, sub-expressions before the node.
    pub fn map_ann<Ann2, F>(&self, f: &F) -> (r: SeqExp<Ann2>)
        where
            F: Fn(&Ann) -> Ann2,
        requires
            forall|a: &Ann| #[trigger] f.requires((a,)),
        ensures
            seq_same_shape(*self, r),
            mapped_by(seq_anns(*self), seq_anns(r), *f),
        decreases self,
    {
        match self {
            SeqExp::Imm(imm, a) => {
                let b = f(a);
                proof { lemma_mapped_push(Seq::empty(), Seq::empty(), *a, b, *f); }
                SeqExp::Imm(copy_imm(imm), b)
            },
            SeqExp::Prim1(op, imm, a) => {
                let b = f(a);
                proof { lemma_mapped_push(Seq::empty(), Seq::empty(), *a, b, *f); }
                SeqExp::Prim1(*op, copy_imm(imm), b)
            },
            SeqExp::Prim2(op, imm1, imm2, a) => {
                let b = f(a);
                proof { lemma_mapped_push(Seq::empty(), Seq::empty(), *a, b, *f); }
                SeqExp::Prim2(*op, copy_imm(imm1), copy_imm(imm2), b)
            },
            SeqExp::Let { var, bound_exp, body, ann } => {
                let rb = bound_exp.map_ann(f);
                let rd = body.map_ann(f);
                let b = f(ann);
                proof {
                    lemma_mapped_concat(seq_anns(**bound_exp), seq_anns(rb), seq_anns(**body), seq_anns(rd), *f);
                    lemma_mapped_push(seq_anns(**bound_exp) + seq_anns(**body), seq_anns(rb) + seq_anns(rd), *ann, b, *f);
                }
                SeqExp::Let { var: var.clone(), bound_exp: Box::new(rb), body: Box::new(rd), ann: b }
            },
            SeqExp::If { cond, thn, els, ann } => {
                let rt = thn.map_ann(f);
                let re = els.map_ann(f);
                let b = f(ann);
                proof {
                    lemma_mapped_concat(seq_anns(**thn), seq_anns(rt), seq_anns(**els), seq_anns(re), *f);
                    lemma_mapped_push(seq_anns(**thn) + seq_anns(**els), seq_anns(rt) + seq_anns(re), *ann, b, *f);
                }
                SeqExp::If { cond: copy_imm(cond), thn: Box::new(rt), els: Box::new(re), ann: b }
            },
            SeqExp::Call(fun, args, a) => {
                let b = f(a);
                proof { lemma_mapped_push(Seq::empty(), Seq::empty(), *a, b, *f); }
                SeqExp::Call(fun.clone(), copy_imms(args), b)
            },
        }
    }
}


/// A copy of a list of names.
pub fn copy_strings(v: &Vec<String>) -> (r: Vec<String>)
    ensures
        r@ == v@,
{
    let mut r: Vec<String> = Vec::new();
    let mut k: usize = 0;
    while k < v.len()
        invariant
            k <= v@.len(),
            r@ == v@.subrange(0, k as int),
        decreases v@.len() - k,
    {
        r.push(v[k].clone());
        proof { assert(r@ =~= v@.subrange(0, k + 1)); }
        k = k + 1;
    }
    proof { assert(r@ =~= v@); }
    r
}

/* Programs over surface expressions */

pub open spec fn fun_anns<A>(d: FunDecl<Exp<A>, A>) -> Seq<A> {
    exp_anns(d.body).push(d.ann)
}

pub open spec fn funs_anns<A>(fs: Seq<FunDecl<Exp<A>, A>>) -> Seq<A>
    decreases fs.len(),
{
    if fs.len() == 0 { Seq::empty() } else { funs_anns(fs.drop_last()) + fun_anns(fs.last()) }
}

pub open spec fn prog_anns<A>(p: Prog<Exp<A>, A>) -> Seq<A> {
    (funs_anns(p.funs@) + exp_anns(p.main)).push(p.ann)
}

pub open spec fn fun_same_shape<A, B>(d1: FunDecl<Exp<A>, A>, d2: FunDecl<Exp<B>, B>) -> bool {
    &&& d1.name@ == d2.name@
    &&& d1.parameters@ == d2.parameters@
    &&& same_shape(d1.body, d2.body)
}

pub open spec fn prog_same_shape<A, B>(p1: Prog<Exp<A>, A>, p2: Prog<Exp<B>, B>) -> bool {
    &&& p1.funs@.len() == p2.funs@.len()
    &&& forall|k: int| 0 <= k < p1.funs@.len() ==> fun_same_shape(#[trigger] p1.funs@[k], p2.funs@[k])
    &&& same_shape(p1.main, p2.main)
}

/// Program shapes compose, as expression shapes do.
pub proof fn lemma_prog_same_shape_trans<A, B, C>(p1: Prog<Exp<A>, A>, p2: Prog<Exp<B>, B>, p3: Prog<Exp<C>, C>)
    requires
        prog_same_shape(p1, p2),
        prog_same_shape(p2, p3),
    ensures
        prog_same_shape(p1, p3),
{
    assert forall|k: int| 0 <= k < p1.funs@.len() implies fun_same_shape(#[trigger] p1.funs@[k], p3.funs@[k]) by {
        assert(fun_same_shape(p1.funs@[k], p2.funs@[k]));
        assert(fun_same_shape(p2.funs@[k], p3.funs@[k]));
        lemma_same_shape_trans(p1.funs@[k].body, p2.funs@[k].body, p3.funs@[k].body);
    }
    lemma_same_shape_trans(p1.main, p2.main, p3.main);
}

/// Identity law of `Prog::map_ann`: mapping a program's annotations with a
/// function that returns its argument gives a program of the same shape
/// (names, parameters, number of functions, expressions) with the same
/// annotations, in order.
pub proof fn lemma_prog_map_identity<A, F: Fn(&A) -> A>(p: Prog<Exp<A>, A>, r: Prog<Exp<A>, A>, f: F)
    requires
        prog_same_shape(p, r),
        mapped_by(prog_anns(p), prog_anns(r), f),
        forall|a: A, b: A| #[trigger] f.ensures((&a,), b) ==> b == a,
    ensures
        prog_same_shape(p, r),
        prog_anns(r) == prog_anns(p),
{
    lemma_map_identity(prog_anns(p), prog_anns(r), f);
}

/// Composition law of `Prog::map_ann`: mapping with `f` and then with `g`
/// gives a program of the shape of the first whose annotations are mapped
/// by `f` followed by `g`.
pub proof fn lemma_prog_map_compose<A, B, C, F: Fn(&A) -> B, G: Fn(&B) -> C>(
    p: Prog<Exp<A>, A>, r1: Prog<Exp<B>, B>, r2: Prog<Exp<C>, C>, f: F, g: G)
    requires
        prog_same_shape(p, r1),
        mapped_by(prog_anns(p), prog_anns(r1), f),
        prog_same_shape(r1, r2),
        mapped_by(prog_anns(r1), prog_anns(r2), g),
    ensures
        prog_same_shape(p, r2),
        prog_anns(r2).len() == prog_anns(p).len(),
        forall|i: int| 0 <= i < prog_anns(p).len() ==> #[trigger] composed(f, g, prog_anns(p)[i], prog_anns(r2)[i]),
{
    lemma_prog_same_shape_trans(p, r1, r2);
    lemma_map_compose(prog_anns(p), prog_anns(r1), prog_anns(r2), f, g);
}

impl<Ann> FunDecl<Exp<Ann>, Ann> {
    pub fn map_ann<Ann2, F>(&self, f: &F) -> (r: FunDecl<Exp<Ann2>, Ann2>)
        where
            F: Fn(&Ann) -> Ann2,
        requires
            forall|a: &Ann| #[trigger] f.requires((a,)),
        ensures
            fun_same_shape(*self, r),
            mapped_by(fun_anns(*self), fun_anns(r), *f),
    {
        let body = self.body.map_ann(f);
        let ann = f(&self.ann);
        proof { lemma_mapped_push(exp_anns(self.body), exp_anns(body), self.ann, ann, *f); }
        FunDecl { name: self.name.clone(), parameters: copy_strings(&self.parameters), body, ann }
    }
}

impl<Ann> Prog<Exp<Ann>, Ann> {
    pub fn map_ann<Ann2, F>(&self, f: &F) -> (r: Prog<Exp<Ann2>, Ann2>)
        where
            F: Fn(&Ann) -> Ann2,
        requires
            forall|a: &Ann| #[trigger] f.requires((a,)),
        ensures
            prog_same_shape(*self, r),
            mapped_by(prog_anns(*self), prog_anns(r), *f),
    {
        let mut funs: Vec<FunDecl<Exp<Ann2>, Ann2>> = Vec::new();
        let mut k: usize = 0;
        while k < self.funs.len()
            invariant
                k <= self.funs@.len(),
                funs@.len() == k,
                forall|a: &Ann| #[trigger] f.requires((a,)),
                forall|j: int| 0 <= j < k ==> fun_same_shape(#[trigger] self.funs@[j], funs@[j]),
                mapped_by(funs_anns(self.funs@.subrange(0, k as int)), funs_anns(funs@), *f),
            decreases self.funs@.len() - k,
        {
            let d = self.funs[k].map_ann(f);
            let ghost before = funs@;
            funs.push(d);
            proof {
                assert(self.funs@.subrange(0, k + 1).drop_last() =~= self.funs@.subrange(0, k as int));
                assert(funs@.drop_last() =~= before);
                lemma_mapped_concat(funs_anns(self.funs@.subrange(0, k as int)), funs_anns(before),
                    fun_anns(self.funs@[k as int]), fun_anns(d), *f);
            }
            k = k + 1;
        }
        proof { assert(self.funs@.subrange(0, self.funs@.len() as int) =~= self.funs@); }
        let main = self.main.map_ann(f);
        let ann = f(&self.ann);
        proof {
            lemma_mapped_concat(funs_anns(self.funs@), funs_anns(funs@), exp_anns(self.main), exp_anns(main), *f);
            lemma_mapped_push(funs_anns(self.funs@) + exp_anns(self.main), funs_anns(funs@) + exp_anns(main), self.ann, ann, *f);
        }
        Prog { funs, main, ann }
    }
}

/* Programs over sequential expressions */

pub open spec fn sfun_anns<A>(d: FunDecl<SeqExp<A>, A>) -> Seq<A> {
    seq_anns(d.body).push(d.ann)
}

pub open spec fn sfuns_anns<A>(fs: Seq<FunDecl<SeqExp<A>, A>>) -> Seq<A>
    decreases fs.len(),
{
    if fs.len() == 0 { Seq::empty() } else { sfuns_anns(fs.drop_last()) + sfun_anns(fs.last()) }
}

pub open spec fn sprog_anns<A>(p: Prog<SeqExp<A>, A>) -> Seq<A> {
    (sfuns_anns(p.funs@) + seq_anns(p.main)).push(p.ann)
}

pub open spec fn sfun_same_shape<A, O, B, P>(d1: FunDecl<SeqExp<A>, O>, d2: FunDecl<SeqExp<B>, P>) -> bool {
    &&& d1.name@ == d2.name@
    &&& d1.parameters@ == d2.parameters@
    &&& seq_same_shape(d1.body, d2.body)
}

pub open spec fn sprog_same_shape<A, O, B, P>(p1: Prog<SeqExp<A>, O>, p2: Prog<SeqExp<B>, P>) -> bool {
    &&& p1.funs@.len() == p2.funs@.len()
    &&& forall|k: int| 0 <= k < p1.funs@.len() ==> sfun_same_shape(#[trigger] p1.funs@[k], p2.funs@[k])
    &&& seq_same_shape(p1.main, p2.main)
}

impl<Ann> FunDecl<SeqExp<Ann>, Ann> {
    pub fn map_ann<Ann2, F>(&self, f: &F) -> (r: FunDecl<SeqExp<Ann2>, Ann2>)
        where
            F: Fn(&Ann) -> Ann2,
        requires
            forall|a: &Ann| #[trigger] f.requires((a,)),
        ensures
            sfun_same_shape(*self, r),
            mapped_by(sfun_anns(*self), sfun_anns(r), *f),
    {
        let body = self.body.map_ann(f);
        let ann = f(&self.ann);
        proof { lemma_mapped_push(seq_anns(self.body), seq_anns(body), self.ann, ann, *f); }
        FunDecl { name: self.name.clone(), parameters: copy_strings(&self.parameters), body, ann }
    }
}

impl<AnnInner, AnnOuter> FunDecl<SeqExp<AnnInner>, AnnOuter> {
    /// Applies `f` to the annotations of the body only.
    pub fn map_ann_inner<AnnInner2, F>(&self, f: &F) -> (r: FunDecl<SeqExp<AnnInner2>, AnnOuter>)
        where
            F: Fn(&AnnInner) -> AnnInner2,
            AnnOuter: Copy,
        requires
            forall|a: &AnnInner| #[trigger] f.requires((a,)),
        ensures
            sfun_same_shape(*self, r),
            mapped_by(seq_anns(self.body), seq_anns(r.body), *f),
            r.ann == self.ann,
    {
        let body = self.body.map_ann(f);
        FunDecl { name: self.name.clone(), parameters: copy_strings(&self.parameters), body, ann: self.ann }
    }
}

impl<Ann> Prog<SeqExp<Ann>, Ann> {
    pub fn map_ann<Ann2, F>(&self, f: &F) -> (r: Prog<SeqExp<Ann2>, Ann2>)
        where
            F: Fn(&Ann) -> Ann2,
        requires
            forall|a: &Ann| #[trigger] f.requires((a,)),
        ensures
            sprog_same_shape(*self, r),
            mapped_by(sprog_anns(*self), sprog_anns(r), *f),
    {
        let mut funs: Vec<FunDecl<SeqExp<Ann2>, Ann2>> = Vec::new();
        let mut k: usize = 0;
        while k < self.funs.len()
            invariant
                k <= self.funs@.len(),
                funs@.len() == k,
                forall|a: &Ann| #[trigger] f.requires((a,)),
                forall|j: int| 0 <= j < k ==> sfun_same_shape(#[trigger] self.funs@[j], funs@[j]),
                mapped_by(sfuns_anns(self.funs@.subrange(0, k as int)), sfuns_anns(funs@), *f),
            decreases self.funs@.len() - k,
        {
            let d = self.funs[k].map_ann(f);
            let ghost before = funs@;
            funs.push(d);
            proof {
                assert(self.funs@.subrange(0, k + 1).drop_last() =~= self.funs@.subrange(0, k as int));
                assert(funs@.drop_last() =~= before);
                lemma_mapped_concat(sfuns_anns(self.funs@.subrange(0, k as int)), sfuns_anns(before),
                    sfun_anns(self.funs@[k as int]), sfun_anns(d), *f);
            }
            k = k + 1;
        }
        proof { assert(self.funs@.subrange(0, self.funs@.len() as int) =~= self.funs@); }
        let main = self.main.map_ann(f);
        let ann = f(&self.ann);
        proof {
            lemma_mapped_concat(sfuns_anns(self.funs@), sfuns_anns(funs@), seq_anns(self.main), seq_anns(main), *f);
            lemma_mapped_push(sfuns_anns(self.funs@) + seq_anns(self.main), sfuns_anns(funs@) + seq_anns(main), self.ann, ann, *f);
        }
        Prog { funs, main, ann }
    }
}

impl<AnnInner, AnnOuter> Prog<SeqExp<AnnInner>, AnnOuter> {
    /// Applies `f` to the annotations of the bodies and of `main` only.
    pub fn map_ann_inner<AnnInner2, F>(&self, f: &F) -> (r: Prog<SeqExp<AnnInner2>, AnnOuter>)
        where
            F: Fn(&AnnInner) -> AnnInner2,
            AnnOuter: Copy,
        requires
            forall|a: &AnnInner| #[trigger] f.requires((a,)),
        ensures
            sprog_same_shape(*self, r),
            forall|k: int| 0 <= k < self.funs@.len() ==> {
                &&& mapped_by(seq_anns(#[trigger] self.funs@[k].body), seq_anns(r.funs@[k].body), *f)
                &&& r.funs@[k].ann == self.funs@[k].ann
            },
            mapped_by(seq_anns(self.main), seq_anns(r.main), *f),
            r.ann == self.ann,
    {
        let mut funs: Vec<FunDecl<SeqExp<AnnInner2>, AnnOuter>> = Vec::new();
        let mut k: usize = 0;
        while k < self.funs.len()
            invariant
                k <= self.funs@.len(),
                funs@.len() == k,
                forall|a: &AnnInner| #[trigger] f.requires((a,)),
                forall|j: int| 0 <= j < k ==> {
                    &&& sfun_same_shape(#[trigger] self.funs@[j], funs@[j])
                    &&& mapped_by(seq_anns(self.funs@[j].body), seq_anns(funs@[j].body), *f)
                    &&& funs@[j].ann == self.funs@[j].ann
                },
            decreases self.funs@.len() - k,
        {
            let d = self.funs[k].map_ann_inner(f);
            funs.push(d);
            k = k + 1;
        }
        let main = self.main.map_ann(f);
        Prog { funs, main, ann: self.ann }
    }
}

/* Tagging: numbering the annotations in visiting order */

/// `s` numbers its positions from `start` on.
pub open spec fn consecutive(s: Seq<u32>, start: int) -> bool {
    forall|i: int| 0 <= i < s.len() ==> #[trigger] s[i] == start + i
}

pub proof fn lemma_consecutive_concat(s1: Seq<u32>, s2: Seq<u32>, start: int)
    requires
        consecutive(s1, start),
        consecutive(s2, start + s1.len()),
    ensures
        consecutive(s1 + s2, start),
{
    assert forall|i: int| 0 <= i < (s1 + s2).len() implies #[trigger] (s1 + s2)[i] == start + i by {
        if i < s1.len() {
            assert((s1 + s2)[i] == s1[i]);
        } else {
            assert((s1 + s2)[i] == s2[i - s1.len()]);
        }
    }
}

pub proof fn lemma_consecutive_push(s1: Seq<u32>, x: u32, start: int)
    requires
        consecutive(s1, start),
        x == start + s1.len(),
    ensures
        consecutive(s1.push(x), start),
{
    assert forall|i: int| 0 <= i < s1.push(x).len() implies #[trigger] s1.push(x)[i] == start + i by {
        if i < s1.len() {
            assert(s1.push(x)[i] == s1[i]);
        }
    }
}

/// The next tag, counting up.
fn take_tag(next: &mut u32) -> (t: u32)
    requires
        *old(next) < u32::MAX,
    ensures
        t == *old(next),
        *final(next) == *old(next) + 1,
{
    let t = *next;
    *next = t + 1;
    t
}

/// Numbers the annotations of `e` in visiting order, from `next` on.
#[verifier::loop_isolation(false)]
fn tag_exp<A>(e: &Exp<A>, next: &mut u32) -> (r: Exp<u32>)
    requires
        *old(next) + exp_anns(*e).len() <= u32::MAX,
    ensures
        same_shape(*e, r),
        exp_anns(r).len() == exp_anns(*e).len(),
        consecutive(exp_anns(r), *old(next) as int),
        *final(next) == *old(next) + exp_anns(*e).len(),
    decreases e,
{
    let ghost start = *next as int;
    match e {
        Exp::Num(n, _) => {
            let t = take_tag(next);
            proof { lemma_consecutive_push(Seq::empty(), t, start); }
            Exp::Num(*n, t)
        },
        Exp::Bool(b, _) => {
            let t = take_tag(next);
            proof { lemma_consecutive_push(Seq::empty(), t, start); }
            Exp::Bool(*b, t)
        },
        Exp::Var(x, _) => {
            let t = take_tag(next);
            proof { lemma_consecutive_push(Seq::empty(), t, start); }
            Exp::Var(x.clone(), t)
        },
        Exp::Prim1(op, e1, _) => {
            let r1 = tag_exp(e1, next);
            let t = take_tag(next);
            proof { lemma_consecutive_push(exp_anns(r1), t, start); }
            Exp::Prim1(*op, Box::new(r1), t)
        },
        Exp::Prim2(op, e1, e2, _) => {
            let r1 = tag_exp(e1, next);
            let r2 = tag_exp(e2, next);
            let t = take_tag(next);
            proof {
                lemma_consecutive_concat(exp_anns(r1), exp_anns(r2), start);
                lemma_consecutive_push(exp_anns(r1) + exp_anns(r2), t, start);
            }
            Exp::Prim2(*op, Box::new(r1), Box::new(r2), t)
        },
        Exp::Let { bindings, body, .. } => {
            let mut nb: Vec<(String, Exp<u32>)> = Vec::new();
            let mut i: usize = 0;
            while i < bindings.len()
                invariant
                    i <= bindings@.len(),
                    nb@.len() == i,
                    same_shape_binds(bindings@.subrange(0, i as int), nb@),
                    binds_anns(nb@).len() == binds_anns(bindings@.subrange(0, i as int)).len(),
                    consecutive(binds_anns(nb@), start),
                    *next == start + binds_anns(nb@).len(),
                    start + binds_anns(bindings@).len() + exp_anns(**body).len() + 1 <= u32::MAX,
                decreases bindings@.len() - i,
            {
                proof {
                    let pre = bindings@.subrange(0, i as int);
                    assert(bindings@.subrange(0, i + 1).drop_last() =~= pre);
                    lemma_binds_anns_prefix(bindings@, i as int);
                }
                let (x, e1) = &bindings[i];
                let r = tag_exp(e1, next);
                let ghost before = nb@;
                nb.push((x.clone(), r));
                proof {
                    assert(nb@.drop_last() =~= before);
                    lemma_consecutive_concat(binds_anns(before), exp_anns(r), start);
                }
                i = i + 1;
            }
            proof { assert(bindings@.subrange(0, bindings@.len() as int) =~= bindings@); }
            let rb = tag_exp(body, next);
            let t = take_tag(next);
            proof {
                lemma_consecutive_concat(binds_anns(nb@), exp_anns(rb), start);
                lemma_consecutive_push(binds_anns(nb@) + exp_anns(rb), t, start);
            }
            Exp::Let { bindings: nb, body: Box::new(rb), ann: t }
        },
        Exp::If { cond, thn, els, .. } => {
            let c = tag_exp(cond, next);
            let th = tag_exp(thn, next);
            let el = tag_exp(els, next);
            let t = take_tag(next);
            proof {
                lemma_consecutive_concat(exp_anns(c), exp_anns(th), start);
                lemma_consecutive_concat(exp_anns(c) + exp_anns(th), exp_anns(el), start);
                lemma_consecutive_push(exp_anns(c) + exp_anns(th) + exp_anns(el), t, start);
            }
            Exp::If { cond: Box::new(c), thn: Box::new(th), els: Box::new(el), ann: t }
        },
        Exp::Call(fun, args, _) => {
            let mut na: Vec<Exp<u32>> = Vec::new();
            let mut i: usize = 0;
            while i < args.len()
                invariant
                    i <= args@.len(),
                    na@.len() == i,
                    same_shape_args(args@.subrange(0, i as int), na@),
                    args_anns(na@).len() == args_anns(args@.subrange(0, i as int)).len(),
                    consecutive(args_anns(na@), start),
                    *next == start + args_anns(na@).len(),
                    start + args_anns(args@).len() + 1 <= u32::MAX,
                decreases args@.len() - i,
            {
                proof {
                    assert(args@.subrange(0, i + 1).drop_last() =~= args@.subrange(0, i as int));
                    lemma_args_anns_prefix(args@, i as int);
                }
                let r = tag_exp(&args[i], next);
                let ghost before = na@;
                na.push(r);
                proof {
                    assert(na@.drop_last() =~= before);
                    lemma_consecutive_concat(args_anns(before), exp_anns(r), start);
                }
                i = i + 1;
            }
            proof { assert(args@.subrange(0, args@.len() as int) =~= args@); }
            let t = take_tag(next);
            proof { lemma_consecutive_push(args_anns(na@), t, start); }
            Exp::Call(fun.clone(), na, t)
        },
    }
}

/// The annotations of a prefix of the bindings, then of the next one, come
/// to no more than those of all the bindings.
proof fn lemma_binds_anns_prefix<A>(bs: Seq<(String, Exp<A>)>, i: int)
    requires
        0 <= i < bs.len(),
    ensures
        binds_anns(bs.subrange(0, i)).len() + exp_anns(bs[i].1).len() <= binds_anns(bs).len(),
    decreases bs.len(),
{
    if i == bs.len() - 1 {
        assert(bs.drop_last() =~= bs.subrange(0, i));
    } else {
        lemma_binds_anns_prefix(bs.drop_last(), i);
        assert(bs.drop_last().subrange(0, i) =~= bs.subrange(0, i));
    }
}

proof fn lemma_args_anns_prefix<A>(es: Seq<Exp<A>>, i: int)
    requires
        0 <= i < es.len(),
    ensures
        args_anns(es.subrange(0, i)).len() + exp_anns(es[i]).len() <= args_anns(es).len(),
    decreases es.len(),
{
    if i == es.len() - 1 {
        assert(es.drop_last() =~= es.subrange(0, i));
    } else {
        lemma_args_anns_prefix(es.drop_last(), i);
        assert(es.drop_last().subrange(0, i) =~= es.subrange(0, i));
    }
}

proof fn lemma_funs_anns_prefix<A>(fs: Seq<FunDecl<Exp<A>, A>>, i: int)
    requires
        0 <= i < fs.len(),
    ensures
        funs_anns(fs.subrange(0, i)).len() + fun_anns(fs[i]).len() <= funs_anns(fs).len(),
    decreases fs.len(),
{
    if i == fs.len() - 1 {
        assert(fs.drop_last() =~= fs.subrange(0, i));
    } else {
        lemma_funs_anns_prefix(fs.drop_last(), i);
        assert(fs.drop_last().subrange(0, i) =~= fs.subrange(0, i));
    }
}

/// Numbers every annotation of the program, in visiting order, from 0:
/// each node gets a tag of its own.
pub fn tag_prog<Ann>(p: &SurfProg<Ann>) -> (r: SurfProg<u32>)
    requires
        prog_anns(*p).len() <= u32::MAX,
    ensures
        prog_same_shape(*p, r),
        prog_anns(r).len() == prog_anns(*p).len(),
        consecutive(prog_anns(r), 0),
{
    let mut next: u32 = 0;
    let mut funs: Vec<FunDecl<Exp<u32>, u32>> = Vec::new();
    let mut k: usize = 0;
    while k < p.funs.len()
        invariant
            k <= p.funs@.len(),
            funs@.len() == k,
            prog_anns(*p).len() <= u32::MAX,
            forall|j: int| 0 <= j < k ==> fun_same_shape(#[trigger] p.funs@[j], funs@[j]),
            funs_anns(funs@).len() == funs_anns(p.funs@.subrange(0, k as int)).len(),
            consecutive(funs_anns(funs@), 0),
            next == funs_anns(funs@).len(),
        decreases p.funs@.len() - k,
    {
        proof {
            assert(p.funs@.subrange(0, k + 1).drop_last() =~= p.funs@.subrange(0, k as int));
            lemma_funs_anns_prefix(p.funs@, k as int);
        }
        let d = &p.funs[k];
        let body = tag_exp(&d.body, &mut next);
        let t = take_tag(&mut next);
        let nd = FunDecl { name: d.name.clone(), parameters: copy_strings(&d.parameters), body, ann: t };
        let ghost before = funs@;
        proof {
            lemma_consecutive_push(exp_anns(nd.body), t, funs_anns(before).len() as int);
        }
        funs.push(nd);
        proof {
            assert(funs@.drop_last() =~= before);
            lemma_consecutive_concat(funs_anns(before), fun_anns(nd), 0);
        }
        k = k + 1;
    }
    proof { assert(p.funs@.subrange(0, p.funs@.len() as int) =~= p.funs@); }
    let main = tag_exp(&p.main, &mut next);
    let t = take_tag(&mut next);
    proof {
        lemma_consecutive_concat(funs_anns(funs@), exp_anns(main), 0);
        lemma_consecutive_push(funs_anns(funs@) + exp_anns(main), t, 0);
    }
    Prog { funs, main, ann: t }
}

/// Numbers the annotations of `e` in visiting order, from `next` on.
fn tag_seq<A>(e: &SeqExp<A>, next: &mut u32) -> (r: SeqExp<u32>)
    requires
        *old(next) + seq_anns(*e).len() <= u32::MAX,
    ensures
        seq_same_shape(*e, r),
        seq_anns(r).len() == seq_anns(*e).len(),
        consecutive(seq_anns(r), *old(next) as int),
        *final(next) == *old(next) + seq_anns(*e).len(),
    decreases e,
{
    let ghost start = *next as int;
    match e {
        SeqExp::Imm(imm, _) => {
            let t = take_tag(next);
            proof { lemma_consecutive_push(Seq::empty(), t, start); }
            SeqExp::Imm(copy_imm(imm), t)
        },
        SeqExp::Prim1(op, imm, _) => {
            let t = take_tag(next);
            proof { lemma_consecutive_push(Seq::empty(), t, start); }
            SeqExp::Prim1(*op, copy_imm(imm), t)
        },
        SeqExp::Prim2(op, i1, i2, _) => {
            let t = take_tag(next);
            proof { lemma_consecutive_push(Seq::empty(), t, start); }
            SeqExp::Prim2(*op, copy_imm(i1), copy_imm(i2), t)
        },
        SeqExp::Let { var, bound_exp, body, .. } => {
            let rb = tag_seq(bound_exp, next);
            let rd = tag_seq(body, next);
            let t = take_tag(next);
            proof {
                lemma_consecutive_concat(seq_anns(rb), seq_anns(rd), start);
                lemma_consecutive_push(seq_anns(rb) + seq_anns(rd), t, start);
            }
            SeqExp::Let { var: var.clone(), bound_exp: Box::new(rb), body: Box::new(rd), ann: t }
        },
        SeqExp::If { cond, thn, els, .. } => {
            let rt = tag_seq(thn, next);
            let re = tag_seq(els, next);
            let t = take_tag(next);
            proof {
                lemma_consecutive_concat(seq_anns(rt), seq_anns(re), start);
                lemma_consecutive_push(seq_anns(rt) + seq_anns(re), t, start);
            }
            SeqExp::If { cond: copy_imm(cond), thn: Box::new(rt), els: Box::new(re), ann: t }
        },
        SeqExp::Call(fun, args, _) => {
            let t = take_tag(next);
            proof { lemma_consecutive_push(Seq::empty(), t, start); }
            SeqExp::Call(fun.clone(), copy_imms(args), t)
        },
    }
}

proof fn lemma_sfuns_anns_prefix<A>(fs: Seq<FunDecl<SeqExp<A>, A>>, i: int)
    requires
        0 <= i < fs.len(),
    ensures
        sfuns_anns(fs.subrange(0, i)).len() + sfun_anns(fs[i]).len() <= sfuns_anns(fs).len(),
    decreases fs.len(),
{
    if i == fs.len() - 1 {
        assert(fs.drop_last() =~= fs.subrange(0, i));
    } else {
        lemma_sfuns_anns_prefix(fs.drop_last(), i);
        assert(fs.drop_last().subrange(0, i) =~= fs.subrange(0, i));
    }
}

/// Numbers every annotation of the program, in visiting order, from 0.
pub fn tag_sprog<Ann>(p: &SeqProg<Ann>) -> (r: SeqProg<u32>)
    requires
        sprog_anns(*p).len() <= u32::MAX,
    ensures
        sprog_same_shape(*p, r),
        sprog_anns(r).len() == sprog_anns(*p).len(),
        consecutive(sprog_anns(r), 0),
{
    let mut next: u32 = 0;
    let mut funs: Vec<FunDecl<SeqExp<u32>, u32>> = Vec::new();
    let mut k: usize = 0;
    while k < p.funs.len()
        invariant
            k <= p.funs@.len(),
            funs@.len() == k,
            sprog_anns(*p).len() <= u32::MAX,
            forall|j: int| 0 <= j < k ==> sfun_same_shape(#[trigger] p.funs@[j], funs@[j]),
            sfuns_anns(funs@).len() == sfuns_anns(p.funs@.subrange(0, k as int)).len(),
            consecutive(sfuns_anns(funs@), 0),
            next == sfuns_anns(funs@).len(),
        decreases p.funs@.len() - k,
    {
        proof {
            assert(p.funs@.subrange(0, k + 1).drop_last() =~= p.funs@.subrange(0, k as int));
            lemma_sfuns_anns_prefix(p.funs@, k as int);
        }
        let d = &p.funs[k];
        let body = tag_seq(&d.body, &mut next);
        let t = take_tag(&mut next);
        let nd = FunDecl { name: d.name.clone(), parameters: copy_strings(&d.parameters), body, ann: t };
        let ghost before = funs@;
        proof {
            lemma_consecutive_push(seq_anns(nd.body), t, sfuns_anns(before).len() as int);
        }
        funs.push(nd);
        proof {
            assert(funs@.drop_last() =~= before);
            lemma_consecutive_concat(sfuns_anns(before), sfun_anns(nd), 0);
        }
        k = k + 1;
    }
    proof { assert(p.funs@.subrange(0, p.funs@.len() as int) =~= p.funs@); }
    let main = tag_seq(&p.main, &mut next);
    let t = take_tag(&mut next);
    proof {
        lemma_consecutive_concat(sfuns_anns(funs@), seq_anns(main), 0);
        lemma_consecutive_push(sfuns_anns(funs@) + seq_anns(main), t, 0);
    }
    Prog { funs, main, ann: t }
}

/// `r` pairs each annotation of `orig` (by view) with its number, counting
/// from `start`.
pub open spec fn paired<A: View>(r: Seq<(A, u32)>, orig: Seq<A>, start: int) -> bool {
    &&& r.len() == orig.len()
    &&& forall|i: int| 0 <= i < r.len() ==> (#[trigger] r[i]).0@ == orig[i]@ && r[i].1 == start + i
}

/// The first components of `r` are, by view, the elements of `orig`.
pub open spec fn same_views<A: View>(r: Seq<(A, u32)>, orig: Seq<A>) -> bool {
    &&& r.len() == orig.len()
    &&& forall|i: int| 0 <= i < r.len() ==> (#[trigger] r[i]).0@ == orig[i]@
}

proof fn lemma_paired_concat<A: View>(r1: Seq<(A, u32)>, o1: Seq<A>, r2: Seq<(A, u32)>, o2: Seq<A>, start: int)
    requires
        paired(r1, o1, start),
        paired(r2, o2, start + o1.len()),
    ensures
        paired(r1 + r2, o1 + o2, start),
{
    assert forall|i: int| 0 <= i < (r1 + r2).len() implies (#[trigger] (r1 + r2)[i]).0@ == (o1 + o2)[i]@
        && (r1 + r2)[i].1 == start + i by {
        if i < r1.len() {
            assert((r1 + r2)[i] == r1[i]);
            assert((o1 + o2)[i] == o1[i]);
        } else {
            assert((r1 + r2)[i] == r2[i - r1.len()]);
            assert((o1 + o2)[i] == o2[i - r1.len()]);
        }
    }
}

proof fn lemma_paired_one<A: View>(x: (A, u32), a: A, start: int)
    requires
        x.0@ == a@,
        x.1 == start,
    ensures
        paired(seq![x], seq![a], start),
{
}

/// Pairs every annotation of `e` with its number in visiting order, from
/// `next` on.
fn pair_tag_seq<A: ViewEq>(e: &SeqExp<A>, next: &mut u32) -> (r: SeqExp<(A, u32)>)
    requires
        *old(next) + seq_anns(*e).len() <= u32::MAX,
    ensures
        seq_same_shape(*e, r),
        paired(seq_anns(r), seq_anns(*e), *old(next) as int),
        *final(next) == *old(next) + seq_anns(*e).len(),
    decreases e,
{
    let ghost start = *next as int;
    match e {
        SeqExp::Imm(imm, a) => {
            let t = take_tag(next);
            let x = (a.copy_view(), t);
            proof { lemma_paired_one(x, *a, start); }
            SeqExp::Imm(copy_imm(imm), x)
        },
        SeqExp::Prim1(op, imm, a) => {
            let t = take_tag(next);
            let x = (a.copy_view(), t);
            proof { lemma_paired_one(x, *a, start); }
            SeqExp::Prim1(*op, copy_imm(imm), x)
        },
        SeqExp::Prim2(op, i1, i2, a) => {
            let t = take_tag(next);
            let x = (a.copy_view(), t);
            proof { lemma_paired_one(x, *a, start); }
            SeqExp::Prim2(*op, copy_imm(i1), copy_imm(i2), x)
        },
        SeqExp::Let { var, bound_exp, body, ann } => {
            let rb = pair_tag_seq(bound_exp, next);
            let rd = pair_tag_seq(body, next);
            let t = take_tag(next);
            let x = (ann.copy_view(), t);
            proof {
                lemma_paired_concat(seq_anns(rb), seq_anns(**bound_exp), seq_anns(rd), seq_anns(**body), start);
                lemma_paired_one(x, *ann, t as int);
                lemma_paired_concat(seq_anns(rb) + seq_anns(rd), seq_anns(**bound_exp) + seq_anns(**body),
                    seq![x], seq![*ann], start);
                assert((seq_anns(rb) + seq_anns(rd)).push(x) =~= seq_anns(rb) + seq_anns(rd) + seq![x]);
                assert((seq_anns(**bound_exp) + seq_anns(**body)).push(*ann) =~= seq_anns(**bound_exp) + seq_anns(**body) + seq![*ann]);
            }
            SeqExp::Let { var: var.clone(), bound_exp: Box::new(rb), body: Box::new(rd), ann: x }
        },
        SeqExp::If { cond, thn, els, ann } => {
            let rt = pair_tag_seq(thn, next);
            let re = pair_tag_seq(els, next);
            let t = take_tag(next);
            let x = (ann.copy_view(), t);
            proof {
                lemma_paired_concat(seq_anns(rt), seq_anns(**thn), seq_anns(re), seq_anns(**els), start);
                lemma_paired_one(x, *ann, t as int);
                lemma_paired_concat(seq_anns(rt) + seq_anns(re), seq_anns(**thn) + seq_anns(**els),
                    seq![x], seq![*ann], start);
                assert((seq_anns(rt) + seq_anns(re)).push(x) =~= seq_anns(rt) + seq_anns(re) + seq![x]);
                assert((seq_anns(**thn) + seq_anns(**els)).push(*ann) =~= seq_anns(**thn) + seq_anns(**els) + seq![*ann]);
            }
            SeqExp::If { cond: copy_imm(cond), thn: Box::new(rt), els: Box::new(re), ann: x }
        },
        SeqExp::Call(fun, args, a) => {
            let t = take_tag(next);
            let x = (a.copy_view(), t);
            proof { lemma_paired_one(x, *a, start); }
            SeqExp::Call(fun.clone(), copy_imms(args), x)
        },
    }
}

/// The annotations of the function bodies, one function after another.
pub open spec fn bodies_anns<A, O>(fs: Seq<FunDecl<SeqExp<A>, O>>) -> Seq<A>
    decreases fs.len(),
{
    if fs.len() == 0 { Seq::empty() } else { bodies_anns(fs.drop_last()) + seq_anns(fs.last().body) }
}

proof fn lemma_bodies_anns_prefix<A, O>(fs: Seq<FunDecl<SeqExp<A>, O>>, i: int)
    requires
        0 <= i < fs.len(),
    ensures
        bodies_anns(fs.subrange(0, i)).len() + seq_anns(fs[i].body).len() <= bodies_anns(fs).len(),
    decreases fs.len(),
{
    if i == fs.len() - 1 {
        assert(fs.drop_last() =~= fs.subrange(0, i));
    } else {
        lemma_bodies_anns_prefix(fs.drop_last(), i);
        assert(fs.drop_last().subrange(0, i) =~= fs.subrange(0, i));
    }
}

/// Pairs every annotation inside the bodies and `main` with its number in
/// visiting order, from 0; the annotations of the functions and of the
/// program stay as they are.
pub fn add_tag_sprog<Ann1, Ann2>(p: &Prog<SeqExp<Ann1>, Ann2>) -> (r: Prog<SeqExp<(Ann1, u32)>, Ann2>)
    where
        Ann1: ViewEq,
        Ann2: Copy,
    requires
        bodies_anns(p.funs@).len() + seq_anns(p.main).len() <= u32::MAX,
    ensures
        sprog_same_shape(*p, r),
        paired(bodies_anns(r.funs@) + seq_anns(r.main), bodies_anns(p.funs@) + seq_anns(p.main), 0),
        forall|k: int| 0 <= k < p.funs@.len() ==> (#[trigger] r.funs@[k]).ann == p.funs@[k].ann,
        forall|k: int| 0 <= k < p.funs@.len() ==> same_views(seq_anns((#[trigger] r.funs@[k]).body), seq_anns(p.funs@[k].body)),
        same_views(seq_anns(r.main), seq_anns(p.main)),
        r.ann == p.ann,
{
    let mut next: u32 = 0;
    let mut funs: Vec<FunDecl<SeqExp<(Ann1, u32)>, Ann2>> = Vec::new();
    let mut k: usize = 0;
    while k < p.funs.len()
        invariant
            k <= p.funs@.len(),
            funs@.len() == k,
            bodies_anns(p.funs@).len() + seq_anns(p.main).len() <= u32::MAX,
            forall|j: int| 0 <= j < k ==> sfun_same_shape(#[trigger] p.funs@[j], funs@[j]),
            forall|j: int| 0 <= j < k ==> (#[trigger] funs@[j]).ann == p.funs@[j].ann,
            forall|j: int| 0 <= j < k ==> same_views(seq_anns((#[trigger] funs@[j]).body), seq_anns(p.funs@[j].body)),
            paired(bodies_anns(funs@), bodies_anns(p.funs@.subrange(0, k as int)), 0),
            next == bodies_anns(funs@).len(),
        decreases p.funs@.len() - k,
    {
        proof {
            assert(p.funs@.subrange(0, k + 1).drop_last() =~= p.funs@.subrange(0, k as int));
            lemma_bodies_anns_prefix(p.funs@, k as int);
        }
        let d = &p.funs[k];
        let body = pair_tag_seq(&d.body, &mut next);
        let nd = FunDecl { name: d.name.clone(), parameters: copy_strings(&d.parameters), body, ann: d.ann };
        let ghost before = funs@;
        funs.push(nd);
        proof {
            assert(funs@.drop_last() =~= before);
            lemma_paired_concat(bodies_anns(before), bodies_anns(p.funs@.subrange(0, k as int)),
                seq_anns(nd.body), seq_anns(d.body), 0);
        }
        k = k + 1;
    }
    proof { assert(p.funs@.subrange(0, p.funs@.len() as int) =~= p.funs@); }
    let main = pair_tag_seq(&p.main, &mut next);
    proof {
        lemma_paired_concat(bodies_anns(funs@), bodies_anns(p.funs@), seq_anns(main), seq_anns(p.main), 0);
    }
    Prog { funs, main, ann: p.ann }
}

/* Unique names */

/// The name that a `let` of `var` tagged `tag` gets: `var_tag`.
pub open spec fn fresh_name(var: Seq<char>, tag: u32) -> Seq<char> {
    var + "_"@ + dec_text(tag as nat)
}

/// The renaming in force: the name bound nearest the front.
pub open spec fn env_lookup(env: Seq<(Seq<char>, Seq<char>)>, x: Seq<char>) -> Option<Seq<char>>
    decreases env.len(),
{
    if env.len() == 0 {
        None
    } else if env[0].0 == x {
        Some(env[0].1)
    } else {
        env_lookup(env.drop_first(), x)
    }
}

pub open spec fn renamed(env: Seq<(Seq<char>, Seq<char>)>, x: Seq<char>) -> Seq<char> {
    match env_lookup(env, x) {
        Some(n) => n,
        None => x,
    }
}

pub open spec fn imm_renamed(i: ImmExp, env: Seq<(Seq<char>, Seq<char>)>, r: ImmExp) -> bool {
    match (i, r) {
        (ImmExp::Var(x), ImmExp::Var(y)) => y@ == renamed(env, x@),
        (ImmExp::Var(_), _) => false,
        _ => r == i,
    }
}

/// `r` is `e` with each `let`-bound variable `x` tagged `t` renamed to
/// `x_t`, its uses renamed with it, under the renaming `env` for the names
/// bound outside `e`.
pub open spec fn uniquified(e: SeqExp<u32>, env: Seq<(Seq<char>, Seq<char>)>, r: SeqExp<u32>) -> bool
    decreases e,
{
    match (e, r) {
        (SeqExp::Imm(i, a), SeqExp::Imm(j, b)) => a == b && imm_renamed(i, env, j),
        (SeqExp::Prim1(p, i, a), SeqExp::Prim1(q, j, b)) => p == q && a == b && imm_renamed(i, env, j),
        (SeqExp::Prim2(p, i1, i2, a), SeqExp::Prim2(q, j1, j2, b)) =>
            p == q && a == b && imm_renamed(i1, env, j1) && imm_renamed(i2, env, j2),
        (SeqExp::Let { var, bound_exp, body, ann }, SeqExp::Let { var: v2, bound_exp: b2, body: d2, ann: a2 }) => {
            &&& a2 == ann
            &&& v2@ == fresh_name(var@, ann)
            &&& uniquified(*bound_exp, env, *b2)
            &&& uniquified(*body, seq![(var@, fresh_name(var@, ann))] + env, *d2)
        },
        (SeqExp::If { cond, thn, els, ann }, SeqExp::If { cond: c2, thn: t2, els: e2, ann: a2 }) => {
            &&& a2 == ann
            &&& imm_renamed(cond, env, c2)
            &&& uniquified(*thn, env, *t2)
            &&& uniquified(*els, env, *e2)
        },
        (SeqExp::Call(f, args, a), SeqExp::Call(g, args2, b)) => {
            &&& f@ == g@
            &&& a == b
            &&& args2@.len() == args@.len()
            &&& forall|k: int| 0 <= k < args@.len() ==> imm_renamed(#[trigger] args@[k], env, args2@[k])
        },
        _ => false,
    }
}

/// The views of the pairs of a renaming list.
pub open spec fn env_views(l: Seq<(String, String)>) -> Seq<(Seq<char>, Seq<char>)> {
    l.map_values(|p: (String, String)| (p.0@, p.1@))
}

proof fn lemma_env_lookup(l: Seq<(String, String)>, x: Seq<char>)
    ensures
        assoc(l, x) == env_lookup(env_views(l), x),
    decreases l.len(),
{
    if l.len() > 0 {
        assert(env_views(l.drop_first()) =~= env_views(l).drop_first());
        lemma_env_lookup(l.drop_first(), x);
    }
}

fn uniquify_names_imm(i: &ImmExp, env: &List<(String, String)>) -> (r: ImmExp)
    ensures
        imm_renamed(*i, env_views(env.as_seq()), r),
{
    match i {
        ImmExp::Var(s) => {
            proof { lemma_env_lookup(env.as_seq(), s@); }
            match env.lookup(s.clone()) {
                None => ImmExp::Var(s.clone()),
                Some(new_name) => ImmExp::Var(new_name),
            }
        },
        _ => copy_imm(i),
    }
}

/// `var_tag`.
fn make_fresh_name(var: &String, tag: u32) -> (s: String)
    ensures
        s@ == fresh_name(var@, tag),
{
    let mut s = var.clone();
    s.append("_");
    s.append(nat_to_string(tag as u64).as_str());
    s
}

fn uniquify_names_exp(e: &SeqExp<u32>, env: &List<(String, String)>) -> (r: SeqExp<u32>)
    ensures
        uniquified(*e, env_views(env.as_seq()), r),
    decreases e,
{
    match e {
        SeqExp::Imm(i, ann) => SeqExp::Imm(uniquify_names_imm(i, env), *ann),
        SeqExp::If { cond, thn, els, ann } => SeqExp::If {
            cond: uniquify_names_imm(cond, env),
            thn: Box::new(uniquify_names_exp(thn, env)),
            els: Box::new(uniquify_names_exp(els, env)),
            ann: *ann,
        },
        SeqExp::Let { var, bound_exp, body, ann } => {
            let new_name = make_fresh_name(var, *ann);
            let bound = uniquify_names_exp(bound_exp, env);
            let inner = env.share().cons((var.clone(), new_name.clone()));
            proof {
                assert(env_views(inner.as_seq()) =~= seq![(var@, fresh_name(var@, *ann))] + env_views(env.as_seq()));
            }
            let body2 = uniquify_names_exp(body, &inner);
            SeqExp::Let { var: new_name, bound_exp: Box::new(bound), body: Box::new(body2), ann: *ann }
        },
        SeqExp::Call(f, args, ann) => {
            let mut na: Vec<ImmExp> = Vec::new();
            let mut k: usize = 0;
            while k < args.len()
                invariant
                    k <= args@.len(),
                    na@.len() == k,
                    forall|j: int| 0 <= j < k ==> imm_renamed(#[trigger] args@[j], env_views(env.as_seq()), na@[j]),
                decreases args@.len() - k,
            {
                na.push(uniquify_names_imm(&args[k], env));
                k = k + 1;
            }
            SeqExp::Call(f.clone(), na, *ann)
        },
        SeqExp::Prim1(op, i, ann) => SeqExp::Prim1(*op, uniquify_names_imm(i, env), *ann),
        SeqExp::Prim2(op, i1, i2, ann) => SeqExp::Prim2(
            *op,
            uniquify_names_imm(i1, env),
            uniquify_names_imm(i2, env),
            *ann,
        ),
    }
}

/// Renames every `let`-bound variable `x` tagged `t` to `x_t`, in each
/// function body and in `main`; names, parameters and annotations of the
/// functions stay.
pub fn uniquify_names(p: &SeqProg<u32>) -> (r: SeqProg<u32>)
    ensures
        r.funs@.len() == p.funs@.len(),
        forall|k: int| 0 <= k < p.funs@.len() ==> {
            &&& (#[trigger] r.funs@[k]).name@ == p.funs@[k].name@
            &&& r.funs@[k].parameters@ == p.funs@[k].parameters@
            &&& r.funs@[k].ann == p.funs@[k].ann
            &&& uniquified(p.funs@[k].body, Seq::empty(), r.funs@[k].body)
        },
        uniquified(p.main, Seq::empty(), r.main),
        r.ann == p.ann,
{
    let empty: List<(String, String)> = List::empty();
    proof { assert(env_views(empty.as_seq()) =~= Seq::<(Seq<char>, Seq<char>)>::empty()); }
    let mut funs: Vec<FunDecl<SeqExp<u32>, u32>> = Vec::new();
    let mut k: usize = 0;
    while k < p.funs.len()
        invariant
            k <= p.funs@.len(),
            funs@.len() == k,
            env_views(empty.as_seq()) == Seq::<(Seq<char>, Seq<char>)>::empty(),
            forall|j: int| 0 <= j < k ==> {
                &&& (#[trigger] funs@[j]).name@ == p.funs@[j].name@
                &&& funs@[j].parameters@ == p.funs@[j].parameters@
                &&& funs@[j].ann == p.funs@[j].ann
                &&& uniquified(p.funs@[j].body, Seq::empty(), funs@[j].body)
            },
        decreases p.funs@.len() - k,
    {
        let f = &p.funs[k];
        funs.push(FunDecl {
            name: f.name.clone(),
            parameters: copy_strings(&f.parameters),
            body: uniquify_names_exp(&f.body, &empty),
            ann: f.ann,
        });
        k = k + 1;
    }
    let main = uniquify_names_exp(&p.main, &empty);
    Prog { funs, main, ann: p.ann }
}

proof fn lemma_dec_text_digits(n: nat)
    ensures
        dec_text(n).len() >= 1,
        n >= 10 ==> dec_text(n).len() >= 2,
        forall|i: int| 0 <= i < dec_text(n).len() ==> #[trigger] dec_text(n)[i] != '_',
    decreases n,
{
    if n >= 10 {
        lemma_dec_text_digits(n / 10);
        let d = dec_text(n / 10);
        assert forall|i: int| 0 <= i < dec_text(n).len() implies #[trigger] dec_text(n)[i] != '_' by {
            if i < d.len() {
                assert(dec_text(n)[i] == d[i]);
            }
        }
    }
}

/// Distinct numbers have distinct decimal texts.
pub proof fn lemma_dec_text_injective(n: nat, m: nat)
    requires
        dec_text(n) == dec_text(m),
    ensures
        n == m,
    decreases n,
{
    lemma_dec_text_digits(n);
    lemma_dec_text_digits(m);
    if n >= 10 && m >= 10 {
        let dn = dec_text(n);
        assert(dn.last() == hex_digit(n % 10));
        assert(dec_text(m).last() == hex_digit(m % 10));
        assert(n % 10 == m % 10);
        assert(dec_text(n / 10) =~= dn.drop_last());
        assert(dec_text(m / 10) =~= dec_text(m).drop_last());
        lemma_dec_text_injective(n / 10, m / 10);
    } else if n < 10 && m < 10 {
        assert(dec_text(n)[0] == hex_digit(n));
        assert(dec_text(m)[0] == hex_digit(m));
    }
}

/// Distinct variables, or distinct tags, give distinct fresh names: the
/// name `x_t` determines both `x` and `t`.
pub proof fn lemma_fresh_name_injective(v1: Seq<char>, t1: u32, v2: Seq<char>, t2: u32)
    requires
        fresh_name(v1, t1) == fresh_name(v2, t2),
    ensures
        v1 == v2,
        t1 == t2,
{
    reveal_strlit("_");
    let s = fresh_name(v1, t1);
    let d1 = dec_text(t1 as nat);
    let d2 = dec_text(t2 as nat);
    lemma_dec_text_digits(t1 as nat);
    lemma_dec_text_digits(t2 as nat);
    let a1 = v1 + "_"@;
    let a2 = v2 + "_"@;
    assert("_"@ =~= seq!['_']);
    assert(s == a1 + d1);
    assert(s == a2 + d2);
    assert(a1.len() == v1.len() + 1);
    assert(a2.len() == v2.len() + 1);
    assert(s[v1.len() as int] == a1[v1.len() as int]);
    assert(s[v2.len() as int] == a2[v2.len() as int]);
    assert(s[v1.len() as int] == '_');
    assert(s[v2.len() as int] == '_');
    if v1.len() < v2.len() {
        assert(s[v2.len() as int] == d1[v2.len() as int - a1.len()]);
    } else if v2.len() < v1.len() {
        assert(s[v1.len() as int] == d2[v1.len() as int - a2.len()]);
    }
    assert(v1 =~= s.subrange(0, v1.len() as int));
    assert(v2 =~= s.subrange(0, v2.len() as int));
    assert(d1 =~= s.subrange(v1.len() as int + 1, s.len() as int));
    assert(d2 =~= s.subrange(v2.len() as int + 1, s.len() as int));
    lemma_dec_text_injective(t1 as nat, t2 as nat);
}

/* Renaming makes the names bound by lets distinct */

/// The names that the `let`s of `e` bind, in visiting order.
pub open spec fn let_binders<A>(e: SeqExp<A>) -> Seq<Seq<char>>
    decreases e,
{
    match e {
        SeqExp::Let { var, bound_exp, body, .. } => let_binders(*bound_exp) + let_binders(*body) + seq![var@],
        SeqExp::If { thn, els, .. } => let_binders(*thn) + let_binders(*els),
        _ => Seq::empty(),
    }
}

/// The annotations of the `let`s of `e`, in visiting order.
pub open spec fn let_tags<A>(e: SeqExp<A>) -> Seq<A>
    decreases e,
{
    match e {
        SeqExp::Let { bound_exp, body, ann, .. } => let_tags(*bound_exp) + let_tags(*body) + seq![ann],
        SeqExp::If { thn, els, .. } => let_tags(*thn) + let_tags(*els),
        _ => Seq::empty(),
    }
}

proof fn lemma_no_dup_split<A>(a: Seq<A>, b: Seq<A>)
    requires
        (a + b).no_duplicates(),
    ensures
        a.no_duplicates(),
        b.no_duplicates(),
        forall|x: A| a.contains(x) ==> !b.contains(x),
{
    let s = a + b;
    assert forall|i: int, j: int| 0 <= i < a.len() && 0 <= j < a.len() && i != j implies a[i] != a[j] by {
        assert(s[i] == a[i] && s[j] == a[j]);
    }
    assert forall|i: int, j: int| 0 <= i < b.len() && 0 <= j < b.len() && i != j implies b[i] != b[j] by {
        assert(s[a.len() + i] == b[i] && s[a.len() + j] == b[j]);
    }
    assert forall|x: A| a.contains(x) implies !b.contains(x) by {
        let i = choose|i: int| 0 <= i < a.len() && a[i] == x;
        if b.contains(x) {
            let j = choose|j: int| 0 <= j < b.len() && b[j] == x;
            assert(s[i] == x && s[a.len() + j] == x);
        }
    }
}

proof fn lemma_no_dup_join<A>(a: Seq<A>, b: Seq<A>)
    requires
        a.no_duplicates(),
        b.no_duplicates(),
        forall|x: A| a.contains(x) ==> !b.contains(x),
    ensures
        (a + b).no_duplicates(),
{
    let s = a + b;
    assert forall|i: int, j: int| 0 <= i < s.len() && 0 <= j < s.len() && i != j implies s[i] != s[j] by {
        if i < a.len() && j >= a.len() {
            assert(a.contains(s[i]));
            assert(s[j] == b[j - a.len()]);
            assert(b.contains(s[j]));
        } else if j < a.len() && i >= a.len() {
            assert(a.contains(s[j]));
            assert(s[i] == b[i - a.len()]);
            assert(b.contains(s[i]));
        } else if i < a.len() {
            assert(s[i] == a[i] && s[j] == a[j]);
        } else {
            assert(s[i] == b[i - a.len()] && s[j] == b[j - a.len()]);
        }
    }
}

/// The tags of the `let`s are among the annotations, and distinct when
/// the annotations are.
proof fn lemma_let_tags<A>(e: SeqExp<A>)
    ensures
        forall|t: A| let_tags(e).contains(t) ==> seq_anns(e).contains(t),
        seq_anns(e).no_duplicates() ==> let_tags(e).no_duplicates(),
    decreases e,
{
    match e {
        SeqExp::Let { bound_exp, body, ann, .. } => {
            lemma_let_tags(*bound_exp);
            lemma_let_tags(*body);
            let ab = seq_anns(*bound_exp);
            let ad = seq_anns(*body);
            let tb = let_tags(*bound_exp);
            let td = let_tags(*body);
            assert(seq_anns(e) == ab + ad + seq![ann]);
            assert forall|t: A| let_tags(e).contains(t) implies seq_anns(e).contains(t) by {
                let i = choose|i: int| 0 <= i < let_tags(e).len() && let_tags(e)[i] == t;
                if i < tb.len() {
                    assert(tb[i] == t);
                    assert(tb.contains(t));
                    let j = choose|j: int| 0 <= j < ab.len() && ab[j] == t;
                    assert(seq_anns(e)[j] == t);
                } else if i < tb.len() + td.len() {
                    assert(td[i - tb.len()] == t);
                    assert(td.contains(t));
                    let j = choose|j: int| 0 <= j < ad.len() && ad[j] == t;
                    assert(seq_anns(e)[ab.len() + j] == t);
                } else {
                    assert(seq_anns(e)[(ab.len() + ad.len()) as int] == t);
                }
            }
            if seq_anns(e).no_duplicates() {
                lemma_no_dup_split(ab + ad, seq![ann]);
                lemma_no_dup_split(ab, ad);
                assert forall|x: A| tb.contains(x) implies !td.contains(x) by {
                    assert(ab.contains(x));
                }
                lemma_no_dup_join(tb, td);
                assert forall|x: A| (tb + td).contains(x) implies !seq![ann].contains(x) by {
                    let i = choose|i: int| 0 <= i < (tb + td).len() && (tb + td)[i] == x;
                    if i < tb.len() {
                        assert(tb[i] == x);
                        assert(tb.contains(x));
                        assert((ab + ad).contains(x)) by {
                            let j = choose|j: int| 0 <= j < ab.len() && ab[j] == x;
                            assert((ab + ad)[j] == x);
                        }
                    } else {
                        assert(td[i - tb.len()] == x);
                        assert(td.contains(x));
                        assert((ab + ad).contains(x)) by {
                            let j = choose|j: int| 0 <= j < ad.len() && ad[j] == x;
                            assert((ab + ad)[ab.len() + j] == x);
                        }
                    }
                    if seq![ann].contains(x) {
                        assert(seq![ann][0] == x);
                    }
                }
                lemma_no_dup_join(tb + td, seq![ann]);
            }
        },
        SeqExp::If { thn, els, ann, .. } => {
            lemma_let_tags(*thn);
            lemma_let_tags(*els);
            let at = seq_anns(*thn);
            let ae = seq_anns(*els);
            let tt = let_tags(*thn);
            let te = let_tags(*els);
            assert(seq_anns(e) == at + ae + seq![ann]);
            assert forall|t: A| let_tags(e).contains(t) implies seq_anns(e).contains(t) by {
                let i = choose|i: int| 0 <= i < let_tags(e).len() && let_tags(e)[i] == t;
                if i < tt.len() {
                    assert(tt[i] == t);
                    assert(tt.contains(t));
                    let j = choose|j: int| 0 <= j < at.len() && at[j] == t;
                    assert(seq_anns(e)[j] == t);
                } else {
                    assert(te[i - tt.len()] == t);
                    assert(te.contains(t));
                    let j = choose|j: int| 0 <= j < ae.len() && ae[j] == t;
                    assert(seq_anns(e)[at.len() + j] == t);
                }
            }
            if seq_anns(e).no_duplicates() {
                lemma_no_dup_split(at + ae, seq![ann]);
                lemma_no_dup_split(at, ae);
                assert forall|x: A| tt.contains(x) implies !te.contains(x) by {
                    assert(at.contains(x));
                }
                lemma_no_dup_join(tt, te);
            }
        },
        _ => {},
    }
}

/// Renaming gives the `i`-th `let` of `e`, binding `x` with tag `t`, the
/// name `x_t`.
proof fn lemma_binders_renamed(e: SeqExp<u32>, env: Seq<(Seq<char>, Seq<char>)>, r: SeqExp<u32>)
    requires
        uniquified(e, env, r),
    ensures
        let_binders(r).len() == let_tags(e).len(),
        let_binders(e).len() == let_tags(e).len(),
        forall|i: int| 0 <= i < let_binders(r).len() ==>
            #[trigger] let_binders(r)[i] == fresh_name(let_binders(e)[i], let_tags(e)[i]),
    decreases e,
{
    match (e, r) {
        (SeqExp::Let { var, bound_exp, body, ann }, SeqExp::Let { bound_exp: b2, body: d2, .. }) => {
            lemma_binders_renamed(*bound_exp, env, *b2);
            lemma_binders_renamed(*body, seq![(var@, fresh_name(var@, ann))] + env, *d2);
            let nb = let_binders(*b2).len();
            let nd = let_binders(*d2).len();
            assert forall|i: int| 0 <= i < let_binders(r).len() implies
                #[trigger] let_binders(r)[i] == fresh_name(let_binders(e)[i], let_tags(e)[i]) by {
                if i < nb {
                    assert(let_binders(r)[i] == let_binders(*b2)[i]);
                    assert(let_binders(e)[i] == let_binders(*bound_exp)[i]);
                    assert(let_tags(e)[i] == let_tags(*bound_exp)[i]);
                } else if i < nb + nd {
                    assert(let_binders(r)[i] == let_binders(*d2)[i - nb]);
                    assert(let_binders(e)[i] == let_binders(*body)[i - nb]);
                    assert(let_tags(e)[i] == let_tags(*body)[i - nb]);
                }
            }
        },
        (SeqExp::If { thn, els, .. }, SeqExp::If { thn: t2, els: e2, .. }) => {
            lemma_binders_renamed(*thn, env, *t2);
            lemma_binders_renamed(*els, env, *e2);
            let nt = let_binders(*t2).len();
            assert forall|i: int| 0 <= i < let_binders(r).len() implies
                #[trigger] let_binders(r)[i] == fresh_name(let_binders(e)[i], let_tags(e)[i]) by {
                if i < nt {
                    assert(let_binders(r)[i] == let_binders(*t2)[i]);
                    assert(let_binders(e)[i] == let_binders(*thn)[i]);
                    assert(let_tags(e)[i] == let_tags(*thn)[i]);
                } else {
                    assert(let_binders(r)[i] == let_binders(*e2)[i - nt]);
                    assert(let_binders(e)[i] == let_binders(*els)[i - nt]);
                    assert(let_tags(e)[i] == let_tags(*els)[i - nt]);
                }
            }
        },
        _ => {},
    }
}

/// When the nodes of an expression carry distinct tags, renaming leaves no
/// two of its `let`s binding the same name.
pub proof fn lemma_binders_distinct(e: SeqExp<u32>, env: Seq<(Seq<char>, Seq<char>)>, r: SeqExp<u32>)
    requires
        uniquified(e, env, r),
        seq_anns(e).no_duplicates(),
    ensures
        let_binders(r).no_duplicates(),
{
    lemma_binders_renamed(e, env, r);
    lemma_let_tags(e);
    let b = let_binders(r);
    assert forall|i: int, j: int| 0 <= i < b.len() && 0 <= j < b.len() && i != j implies b[i] != b[j] by {
        if b[i] == b[j] {
            lemma_fresh_name_injective(let_binders(e)[i], let_tags(e)[i], let_binders(e)[j], let_tags(e)[j]);
        }
    }
}

/// Consecutive tags are distinct.
pub proof fn lemma_consecutive_distinct(s: Seq<u32>, start: int)
    requires
        consecutive(s, start),
    ensures
        s.no_duplicates(),
{
    assert forall|i: int, j: int| 0 <= i < s.len() && 0 <= j < s.len() && i != j implies s[i] != s[j] by {
        assert(s[i] == start + i && s[j] == start + j);
    }
}


proof fn lemma_bodies_distinct_anns<A>(fs: Seq<FunDecl<SeqExp<A>, A>>)
    requires
        sfuns_anns(fs).no_duplicates(),
    ensures
        forall|k: int| 0 <= k < fs.len() ==> seq_anns((#[trigger] fs[k]).body).no_duplicates(),
    decreases fs.len(),
{
    if fs.len() > 0 {
        let init = fs.drop_last();
        lemma_no_dup_split(sfuns_anns(init), sfun_anns(fs.last()));
        lemma_bodies_distinct_anns(init);
        assert(sfun_anns(fs.last()) =~= seq_anns(fs.last().body) + seq![fs.last().ann]);
        lemma_no_dup_split(seq_anns(fs.last().body), seq![fs.last().ann]);
        assert forall|k: int| 0 <= k < fs.len() implies seq_anns((#[trigger] fs[k]).body).no_duplicates() by {
            if k < fs.len() - 1 {
                assert(fs[k] == init[k]);
            } else {
                assert(fs[k] == fs.last());
            }
        }
    }
}

/// After numbering a program and renaming, no two `let`s of a function
/// body, or of `main`, bind the same name.
pub proof fn lemma_program_binders_distinct(s2: SeqProg<u32>, s3: SeqProg<u32>)
    requires
        consecutive(sprog_anns(s2), 0),
        s3.funs@.len() == s2.funs@.len(),
        forall|k: int| 0 <= k < s2.funs@.len() ==> uniquified((#[trigger] s2.funs@[k]).body, Seq::empty(), s3.funs@[k].body),
        uniquified(s2.main, Seq::empty(), s3.main),
    ensures
        forall|k: int| 0 <= k < s3.funs@.len() ==> let_binders((#[trigger] s3.funs@[k]).body).no_duplicates(),
        let_binders(s3.main).no_duplicates(),
{
    lemma_consecutive_distinct(sprog_anns(s2), 0);
    let all = sfuns_anns(s2.funs@) + seq_anns(s2.main);
    assert(sprog_anns(s2) =~= all + seq![s2.ann]);
    lemma_no_dup_split(all, seq![s2.ann]);
    lemma_no_dup_split(sfuns_anns(s2.funs@), seq_anns(s2.main));
    lemma_bodies_distinct_anns(s2.funs@);
    assert forall|k: int| 0 <= k < s3.funs@.len() implies let_binders((#[trigger] s3.funs@[k]).body).no_duplicates() by {
        lemma_binders_distinct(s2.funs@[k].body, Seq::empty(), s3.funs@[k].body);
    }
    lemma_binders_distinct(s2.main, Seq::empty(), s3.main);
}

} // verus!
