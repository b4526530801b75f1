//! Translation of surface expressions into sequential (A-normal) form:
//! every operand of a primitive, condition and call argument becomes an
//! immediate, complex ones being bound first to fresh `#`-names.
use vstd::prelude::*;
use crate::syntax::{Exp, ImmExp, SeqExp, Prog, FunDecl, SurfProg, SeqProg, copy_strings, same_shape, same_shape_binds, same_shape_args};
use crate::text::{dec_text, nat_to_string};

verus! {

/// Every `let` of `e` binds at least one name.
pub open spec fn lets_nonempty<A>(e: Exp<A>) -> bool
    decreases e,
{
    match e {
        Exp::Num(..) | Exp::Bool(..) | Exp::Var(..) => true,
        Exp::Prim1(_, e1, _) => lets_nonempty(*e1),
        Exp::Prim2(_, e1, e2, _) => lets_nonempty(*e1) && lets_nonempty(*e2),
        Exp::Let { bindings, body, .. } => bindings@.len() > 0 && binds_nonempty(bindings@) && lets_nonempty(*body),
        Exp::If { cond, thn, els, .. } => lets_nonempty(*cond) && lets_nonempty(*thn) && lets_nonempty(*els),
        Exp::Call(_, args, _) => args_nonempty(args@),
    }
}

pub open spec fn binds_nonempty<A>(bs: Seq<(String, Exp<A>)>) -> bool
    decreases bs,
{
    if bs.len() == 0 { true } else { binds_nonempty(bs.drop_last()) && lets_nonempty(bs.last().1) }
}

pub open spec fn args_nonempty<A>(es: Seq<Exp<A>>) -> bool
    decreases es,
{
    if es.len() == 0 { true } else { args_nonempty(es.drop_last()) && lets_nonempty(es.last()) }
}

/// Expressions of the same shape have the same `let`s.
pub proof fn lemma_same_shape_lets<A, B>(e1: Exp<A>, e2: Exp<B>)
    requires
        same_shape(e1, e2),
        lets_nonempty(e1),
    ensures
        lets_nonempty(e2),
    decreases e1,
{
    match (e1, e2) {
        (Exp::Prim1(_, a1, _), Exp::Prim1(_, a2, _)) => {
            lemma_same_shape_lets(*a1, *a2);
        },
        (Exp::Prim2(_, a1, b1, _), Exp::Prim2(_, a2, b2, _)) => {
            lemma_same_shape_lets(*a1, *a2);
            lemma_same_shape_lets(*b1, *b2);
        },
        (Exp::Let { bindings: bs1, body: b1, .. }, Exp::Let { bindings: bs2, body: b2, .. }) => {
            lemma_same_shape_binds_lets(bs1@, bs2@);
            lemma_same_shape_lets(*b1, *b2);
        },
        (Exp::If { cond: c1, thn: t1, els: f1, .. }, Exp::If { cond: c2, thn: t2, els: f2, .. }) => {
            lemma_same_shape_lets(*c1, *c2);
            lemma_same_shape_lets(*t1, *t2);
            lemma_same_shape_lets(*f1, *f2);
        },
        (Exp::Call(_, as1, _), Exp::Call(_, as2, _)) => {
            lemma_same_shape_args_lets(as1@, as2@);
        },
        _ => {},
    }
}

proof fn lemma_same_shape_binds_lets<A, B>(bs1: Seq<(String, Exp<A>)>, bs2: Seq<(String, Exp<B>)>)
    requires
        same_shape_binds(bs1, bs2),
        binds_nonempty(bs1),
    ensures
        binds_nonempty(bs2),
        bs2.len() == bs1.len(),
    decreases bs1,
{
    if bs1.len() > 0 {
        lemma_same_shape_binds_lets(bs1.drop_last(), bs2.drop_last());
        lemma_same_shape_lets(bs1.last().1, bs2.last().1);
    }
}

proof fn lemma_same_shape_args_lets<A, B>(es1: Seq<Exp<A>>, es2: Seq<Exp<B>>)
    requires
        same_shape_args(es1, es2),
        args_nonempty(es1),
    ensures
        args_nonempty(es2),
    decreases es1,
{
    if es1.len() > 0 {
        lemma_same_shape_args_lets(es1.drop_last(), es2.drop_last());
        lemma_same_shape_lets(es1.last(), es2.last());
    }
}

proof fn lemma_binds_nonempty<A>(bs: Seq<(String, Exp<A>)>, i: int)
    requires
        binds_nonempty(bs),
        0 <= i < bs.len(),
    ensures
        lets_nonempty(bs[i].1),
    decreases bs.len(),
{
    if i < bs.len() - 1 {
        lemma_binds_nonempty(bs.drop_last(), i);
    }
}

proof fn lemma_args_nonempty<A>(es: Seq<Exp<A>>, i: int)
    requires
        args_nonempty(es),
        0 <= i < es.len(),
    ensures
        lets_nonempty(es[i]),
    decreases es.len(),
{
    if i < es.len() - 1 {
        lemma_args_nonempty(es.drop_last(), i);
    }
}

/// Numbers, booleans and variables are immediate.
pub open spec fn is_imm(e: Exp<u32>) -> bool {
    e is Num || e is Bool || e is Var
}

/// `i` is the immediate that the immediate expression `e` stands for.
pub open spec fn imm_for(e: Exp<u32>, i: ImmExp) -> bool {
    match (e, i) {
        (Exp::Num(n, _), ImmExp::Num(m)) => n == m,
        (Exp::Bool(b, _), ImmExp::Bool(c)) => b == c,
        (Exp::Var(x, _), ImmExp::Var(y)) => x@ == y@,
        _ => false,
    }
}

pub open spec fn var_named(i: ImmExp, name: Seq<char>) -> bool {
    i matches ImmExp::Var(x) && x@ == name
}

pub open spec fn prim1_name(tag: u32) -> Seq<char> { "#prim1_"@ + dec_text(tag as nat) }
pub open spec fn prim2_name1(tag: u32) -> Seq<char> { "#prim2_1_"@ + dec_text(tag as nat) }
pub open spec fn prim2_name2(tag: u32) -> Seq<char> { "#prim2_2_"@ + dec_text(tag as nat) }
pub open spec fn if_name(tag: u32) -> Seq<char> { "#if_"@ + dec_text(tag as nat) }
pub open spec fn call_name(tag: u32, i: int) -> Seq<char> {
    "#call_"@ + dec_text(tag as nat) + "_"@ + dec_text(i as nat)
}

/// The immediate that stands for argument `i` of a call tagged `tag`:
/// itself when immediate, else the `#call_` name that the `let` before the
/// call binds to its value.
pub open spec fn arg_imm(e: Exp<u32>, tag: u32, i: int, imm: ImmExp) -> bool {
    if is_imm(e) { imm_for(e, imm) } else { var_named(imm, call_name(tag, i)) }
}

/// `r` is the sequential form of `e`.
pub open spec fn sequentialized(e: Exp<u32>, r: SeqExp<()>) -> bool
    decreases e, 0int,
{
    match e {
        Exp::Num(..) | Exp::Bool(..) | Exp::Var(..) => r matches SeqExp::Imm(i, _) && imm_for(e, i),
        Exp::Prim1(op, e1, ann) => if is_imm(*e1) {
            r matches SeqExp::Prim1(op2, i, _) && op2 == op && imm_for(*e1, i)
        } else {
            &&& r matches SeqExp::Let { var, bound_exp, body, .. }
            &&& r->var@ == prim1_name(ann)
            &&& sequentialized(*e1, *r->bound_exp)
            &&& *r->Let_body matches SeqExp::Prim1(op2, i, _) && op2 == op && var_named(i, prim1_name(ann))
        },
        Exp::Prim2(op, e1, e2, ann) => if is_imm(*e1) && is_imm(*e2) {
            r matches SeqExp::Prim2(op2, i1, i2, _) && op2 == op && imm_for(*e1, i1) && imm_for(*e2, i2)
        } else if is_imm(*e1) {
            &&& r matches SeqExp::Let { .. }
            &&& r->var@ == prim2_name1(ann)
            &&& sequentialized(*e2, *r->bound_exp)
            &&& *r->Let_body matches SeqExp::Prim2(op2, i1, i2, _) && op2 == op && imm_for(*e1, i1)
                && var_named(i2, prim2_name1(ann))
        } else if is_imm(*e2) {
            &&& r matches SeqExp::Let { .. }
            &&& r->var@ == prim2_name1(ann)
            &&& sequentialized(*e1, *r->bound_exp)
            &&& *r->Let_body matches SeqExp::Prim2(op2, i1, i2, _) && op2 == op
                && var_named(i1, prim2_name1(ann)) && imm_for(*e2, i2)
        } else {
            &&& r matches SeqExp::Let { .. }
            &&& r->var@ == prim2_name1(ann)
            &&& sequentialized(*e1, *r->bound_exp)
            &&& *r->Let_body matches SeqExp::Let { .. }
            &&& r->Let_body->var@ == prim2_name2(ann)
            &&& sequentialized(*e2, *r->Let_body->bound_exp)
            &&& *r->Let_body->Let_body matches SeqExp::Prim2(op2, i1, i2, _) && op2 == op
                && var_named(i1, prim2_name1(ann)) && var_named(i2, prim2_name2(ann))
        },
        Exp::Let { bindings, body, .. } => {
            &&& bindings@.len() > 0
            &&& let_chain(bindings@, 0, r)
            &&& sequentialized(*body, chain_body(bindings@, 0, r))
        },
        Exp::If { cond, thn, els, ann } => {
            &&& r matches SeqExp::Let { .. }
            &&& r->var@ == if_name(ann)
            &&& sequentialized(*cond, *r->bound_exp)
            &&& *r->Let_body matches SeqExp::If { cond: c, thn: t, els: f, .. }
            &&& var_named(r->Let_body->cond, if_name(ann))
            &&& sequentialized(*thn, *r->Let_body->thn)
            &&& sequentialized(*els, *r->Let_body->els)
        },
        Exp::Call(name, args, ann) => call_chain(args@, name@, ann, 0, r),
    }
}

/// `r` binds the bindings of `bs` from `k` on, one `let` each, in order.
pub open spec fn let_chain(bs: Seq<(String, Exp<u32>)>, k: int, r: SeqExp<()>) -> bool
    decreases bs, bs.len() - k,
{
    if 0 <= k < bs.len() {
        &&& r matches SeqExp::Let { .. }
        &&& r->var@ == bs[k].0@
        &&& sequentialized(bs[k].1, *r->bound_exp)
        &&& (k == bs.len() - 1 || let_chain(bs, k + 1, *r->Let_body))
    } else {
        false
    }
}

/// The body of the innermost `let` of a chain.
pub open spec fn chain_body(bs: Seq<(String, Exp<u32>)>, k: int, r: SeqExp<()>) -> SeqExp<()>
    decreases bs.len() - k,
{
    if k >= bs.len() - 1 {
        *r->Let_body
    } else {
        chain_body(bs, k + 1, *r->Let_body)
    }
}

/// `r` binds the complex arguments of `args` from `k` on, in order, then
/// makes the call with immediates.
pub open spec fn call_chain(args: Seq<Exp<u32>>, name: Seq<char>, tag: u32, k: int, r: SeqExp<()>) -> bool
    decreases args, args.len() - k,
{
    if k >= args.len() {
        &&& r matches SeqExp::Call(f, imms, _)
        &&& f@ == name
        &&& imms@.len() == args.len()
        &&& forall|i: int| 0 <= i < args.len() ==> arg_imm(#[trigger] args[i], tag, i, imms@[i])
    } else if k < 0 {
        false
    } else if is_imm(args[k]) {
        call_chain(args, name, tag, k + 1, r)
    } else {
        &&& r matches SeqExp::Let { .. }
        &&& r->var@ == call_name(tag, k)
        &&& sequentialized(args[k], *r->bound_exp)
        &&& call_chain(args, name, tag, k + 1, *r->Let_body)
    }
}

/// The last operation of a sequential expression: where its `let`s lead.
pub open spec fn final_op<A>(r: SeqExp<A>) -> SeqExp<A>
    decreases r,
{
    match r {
        SeqExp::Let { body, .. } => final_op(*body),
        _ => r,
    }
}

/// Some `let` on the way from `r` to its last operation binds `x`.
pub open spec fn chain_binds<A>(r: SeqExp<A>, x: Seq<char>) -> bool
    decreases r,
{
    match r {
        SeqExp::Let { var, body, .. } => var@ == x || chain_binds(*body, x),
        _ => false,
    }
}

/// Where the last operation of `r` runs, `x` holds the value of the
/// sequential form of `e`: the innermost `let` of the way that binds `x`
/// binds it to that form.
pub open spec fn chain_value(r: SeqExp<()>, x: Seq<char>, e: Exp<u32>) -> bool
    decreases r,
{
    match r {
        SeqExp::Let { var, bound_exp, body, .. } =>
            if chain_binds(*body, x) { chain_value(*body, x, e) } else { var@ == x && sequentialized(e, *bound_exp) },
        _ => false,
    }
}

/// The immediate `i` stands, in the last operation of `r`, for the operand
/// `e`: `e` itself when immediate, else a name holding its value.
pub open spec fn operand_of(e: Exp<u32>, i: ImmExp, r: SeqExp<()>) -> bool {
    if is_imm(e) { imm_for(e, i) } else { i matches ImmExp::Var(x) && chain_value(r, x@, e) }
}

proof fn lemma_call_name_injective(tag: u32, i: int, j: int)
    requires
        0 <= i,
        0 <= j,
        call_name(tag, i) == call_name(tag, j),
    ensures
        i == j,
{
    let pre = "#call_"@ + dec_text(tag as nat) + "_"@;
    assert(call_name(tag, i) == pre + dec_text(i as nat));
    assert(call_name(tag, j) == pre + dec_text(j as nat));
    assert(dec_text(i as nat) =~= call_name(tag, i).subrange(pre.len() as int, call_name(tag, i).len() as int));
    assert(dec_text(j as nat) =~= call_name(tag, j).subrange(pre.len() as int, call_name(tag, j).len() as int));
    crate::syntax::lemma_dec_text_injective(i as nat, j as nat);
}

/// The names that the chain of a call binds from argument `k` on are those
/// of its complex arguments from `k` on.
proof fn lemma_call_chain_binds(args: Seq<Exp<u32>>, name: Seq<char>, tag: u32, k: int, r: SeqExp<()>, x: Seq<char>)
    requires
        0 <= k,
        call_chain(args, name, tag, k, r),
        chain_binds(r, x),
    ensures
        exists|j: int| k <= j < args.len() && x == call_name(tag, j),
    decreases args.len() - k,
{
    if k < args.len() {
        if is_imm(args[k]) {
            lemma_call_chain_binds(args, name, tag, k + 1, r, x);
        } else if r->var@ != x {
            lemma_call_chain_binds(args, name, tag, k + 1, *r->Let_body, x);
        }
    }
}

proof fn lemma_call_chain_operands(args: Seq<Exp<u32>>, name: Seq<char>, tag: u32, k: int, r: SeqExp<()>)
    requires
        0 <= k <= args.len(),
        call_chain(args, name, tag, k, r),
    ensures
        final_op(r) matches SeqExp::Call(g, imms, _) && g@ == name && imms@.len() == args.len()
            && (forall|i: int| 0 <= i < args.len() ==> arg_imm(args[i], tag, i, #[trigger] imms@[i]))
            && forall|i: int| k <= i < args.len() ==> operand_of(args[i], #[trigger] imms@[i], r),
    decreases args.len() - k,
{
    if k >= args.len() {
        assert(final_op(r) == r);
    } else if is_imm(args[k]) {
        lemma_call_chain_operands(args, name, tag, k + 1, r);
    } else {
        let body = *r->Let_body;
        lemma_call_chain_operands(args, name, tag, k + 1, body);
        match final_op(r) {
            SeqExp::Call(g, imms, _) => {
                assert forall|i: int| k <= i < args.len() implies operand_of(args[i], #[trigger] imms@[i], r) by {
                    if i == k {
                        assert(arg_imm(args[i], tag, i, imms@[i]));
                        if chain_binds(body, call_name(tag, k)) {
                            lemma_call_chain_binds(args, name, tag, k + 1, body, call_name(tag, k));
                            let j = choose|j: int| k + 1 <= j < args.len() && call_name(tag, k) == call_name(tag, j);
                            lemma_call_name_injective(tag, k, j);
                        }
                    } else {
                        assert(operand_of(args[i], imms@[i], body));
                        if !is_imm(args[i]) {
                            let x = imms@[i]->Var_0@;
                            assert(chain_value(body, x, args[i]));
                            assert(chain_binds(body, x)) by {
                                lemma_chain_value_binds(body, x, args[i]);
                            }
                        }
                    }
                }
            },
            _ => {},
        }
    }
}

proof fn lemma_chain_value_binds(r: SeqExp<()>, x: Seq<char>, e: Exp<u32>)
    requires
        chain_value(r, x, e),
    ensures
        chain_binds(r, x),
    decreases r,
{
    match r {
        SeqExp::Let { body, .. } => {
            if chain_binds(*body, x) {
            }
        },
        _ => {},
    }
}

/// `r` after going down `k` nested `let` bodies.
pub open spec fn descend<A>(r: SeqExp<A>, k: nat) -> SeqExp<A>
    decreases k,
{
    if k == 0 { r } else { descend(*r->Let_body, (k - 1) as nat) }
}

proof fn lemma_let_chain_descend(bs: Seq<(String, Exp<u32>)>, k: int, r: SeqExp<()>, j: nat)
    requires
        0 <= k < bs.len(),
        let_chain(bs, k, r),
        k + j < bs.len(),
    ensures
        descend(r, j) matches SeqExp::Let { var, bound_exp, .. } && var@ == bs[k + j].0@ && sequentialized(bs[k + j].1, *bound_exp),
        k + j == bs.len() - 1 ==> *descend(r, j)->Let_body == chain_body(bs, k, r),
    decreases j,
{
    if j > 0 {
        lemma_let_chain_descend(bs, k + 1, *r->Let_body, (j - 1) as nat);
    }
}

/// Sequentializing a `let` keeps its bindings in order: going down the
/// result, the `k`-th nested `let` binds the `k`-th name to the sequential
/// form of the `k`-th bound expression, and after all of them comes the
/// sequential form of the body.
pub proof fn lemma_sequentialized_let_order(e: Exp<u32>, r: SeqExp<()>)
    requires
        sequentialized(e, r),
        e is Let,
    ensures
        forall|k: nat| k < e->bindings@.len() ==> (#[trigger] descend(r, k) matches SeqExp::Let { var, bound_exp, .. }
            && var@ == e->bindings@[k as int].0@ && sequentialized(e->bindings@[k as int].1, *bound_exp)),
        sequentialized(*e->Let_body, descend(r, e->bindings@.len())),
{
    let bs = e->bindings@;
    assert forall|k: nat| k < bs.len() implies (#[trigger] descend(r, k) matches SeqExp::Let { var, bound_exp, .. }
        && var@ == bs[k as int].0@ && sequentialized(bs[k as int].1, *bound_exp)) by {
        lemma_let_chain_descend(bs, 0, r, k);
    }
    let n = bs.len();
    lemma_let_chain_descend(bs, 0, r, (n - 1) as nat);
    lemma_descend_step(r, (n - 1) as nat);
}

proof fn lemma_descend_step<A>(r: SeqExp<A>, k: nat)
    ensures
        descend(r, k + 1) == descend(*descend(r, k)->Let_body, 0),
    decreases k,
{
    if k > 0 {
        lemma_descend_step(*r->Let_body, (k - 1) as nat);
    }
}

/// Sequentialization keeps each operation and the order of its operands:
/// the last operation of the sequential form of a primitive, a condition
/// or a call is that primitive, condition or call, whose operands stand,
/// in their order, for the original operands (each itself or a name
/// holding its sequential form; a condition always through a name), and
/// whose branches are the sequential forms of the original branches.
pub proof fn lemma_sequentialized_operands(e: Exp<u32>, r: SeqExp<()>)
    requires
        sequentialized(e, r),
    ensures
        e matches Exp::Prim1(op, e1, _) ==> (final_op(r) matches SeqExp::Prim1(op2, a, _) && op2 == op && operand_of(*e1, a, r)),
        e matches Exp::Prim2(op, e1, e2, _) ==> (final_op(r) matches SeqExp::Prim2(op2, a, b, _) && op2 == op
            && operand_of(*e1, a, r) && operand_of(*e2, b, r)),
        e matches Exp::If { cond, thn, els, .. } ==> (final_op(r) matches SeqExp::If { cond: c, thn: t, els: f, .. }
            && c matches ImmExp::Var(x) && chain_value(r, x@, *cond) && sequentialized(*thn, *t) && sequentialized(*els, *f)),
        e matches Exp::Call(name, args, _) ==> (final_op(r) matches SeqExp::Call(g, imms, _) && g@ == name@
            && imms@.len() == args@.len() && forall|i: int| 0 <= i < args@.len() ==> operand_of(args@[i], #[trigger] imms@[i], r)),
{
    reveal_with_fuel(final_op, 3);
    reveal_with_fuel(chain_binds, 3);
    reveal_with_fuel(chain_value, 3);
    match e {
        Exp::Prim1(_, e1, ann) => {
            if !is_imm(*e1) {
                assert(final_op(r) == *r->Let_body);
            } else {
                assert(final_op(r) == r);
            }
        },
        Exp::Prim2(_, e1, e2, ann) => {
            if is_imm(*e1) && is_imm(*e2) {
                assert(final_op(r) == r);
            } else if is_imm(*e1) || is_imm(*e2) {
                assert(final_op(r) == *r->Let_body);
            } else {
                reveal_strlit("#prim2_1_");
                reveal_strlit("#prim2_2_");
                assert(prim2_name1(ann)[7] != prim2_name2(ann)[7]);
                assert(final_op(r) == *r->Let_body->Let_body);
            }
        },
        Exp::If { .. } => {
            assert(final_op(r) == *r->Let_body);
        },
        Exp::Call(name, args, ann) => {
            lemma_call_chain_operands(args@, name@, ann, 0, r);
        },
        _ => {},
    }
}

/// The immediate for an immediate expression.
fn imm_of(e: &Exp<u32>) -> (r: Option<ImmExp>)
    ensures
        r is Some <==> is_imm(*e),
        r matches Some(i) ==> imm_for(*e, i),
{
    match e {
        Exp::Num(n, _) => Some(ImmExp::Num(*n)),
        Exp::Bool(b, _) => Some(ImmExp::Bool(*b)),
        Exp::Var(v, _) => Some(ImmExp::Var(v.clone())),
        _ => None,
    }
}

/// `prefix` followed by the decimal digits of `tag`.
fn tagged(prefix: &str, tag: u32) -> (s: String)
    ensures
        s@ == prefix@ + dec_text(tag as nat),
{
    let mut s = String::from_str(prefix);
    s.append(nat_to_string(tag as u64).as_str());
    s
}

fn var_imm(name: &String) -> (i: ImmExp)
    ensures
        var_named(i, name@),
{
    ImmExp::Var(name.clone())
}

fn make_call_name(tag: u32, i: usize) -> (s: String)
    ensures
        s@ == call_name(tag, i as int),
{
    let mut s = tagged("#call_", tag);
    s.append("_");
    s.append(nat_to_string(i as u64).as_str());
    s
}

/// The sequential form of an expression whose `let`s bind names.
#[verifier::loop_isolation(false)]
fn sequentialize(e: &Exp<u32>) -> (r: SeqExp<()>)
    requires
        lets_nonempty(*e),
    ensures
        sequentialized(*e, r),
    decreases e,
{
    match e {
        Exp::Num(n, _) => SeqExp::Imm(ImmExp::Num(*n), ()),
        Exp::Bool(b, _) => SeqExp::Imm(ImmExp::Bool(*b), ()),
        Exp::Var(v, _) => SeqExp::Imm(ImmExp::Var(v.clone()), ()),
        Exp::Prim1(prim1, e1, ann) => match imm_of(e1) {
            Some(i) => SeqExp::Prim1(*prim1, i, ()),
            None => {
                let s_e1 = sequentialize(e1);
                let name = tagged("#prim1_", *ann);
                SeqExp::Let {
                    var: name.clone(),
                    bound_exp: Box::new(s_e1),
                    body: Box::new(SeqExp::Prim1(*prim1, var_imm(&name), ())),
                    ann: (),
                }
            },
        },
        Exp::Prim2(prim2, e1, e2, ann) => match (imm_of(e1), imm_of(e2)) {
            (Some(i1), Some(i2)) => SeqExp::Prim2(*prim2, i1, i2, ()),
            (Some(i1), None) => {
                let name2 = tagged("#prim2_1_", *ann);
                let s_e2 = sequentialize(e2);
                SeqExp::Let {
                    var: name2.clone(),
                    bound_exp: Box::new(s_e2),
                    body: Box::new(SeqExp::Prim2(*prim2, i1, var_imm(&name2), ())),
                    ann: (),
                }
            },
            (None, Some(i2)) => {
                let name1 = tagged("#prim2_1_", *ann);
                let s_e1 = sequentialize(e1);
                SeqExp::Let {
                    var: name1.clone(),
                    bound_exp: Box::new(s_e1),
                    body: Box::new(SeqExp::Prim2(*prim2, var_imm(&name1), i2, ())),
                    ann: (),
                }
            },
            (None, None) => {
                let s_e1 = sequentialize(e1);
                let s_e2 = sequentialize(e2);
                let name1 = tagged("#prim2_1_", *ann);
                let name2 = tagged("#prim2_2_", *ann);
                SeqExp::Let {
                    var: name1.clone(),
                    bound_exp: Box::new(s_e1),
                    body: Box::new(SeqExp::Let {
                        var: name2.clone(),
                        bound_exp: Box::new(s_e2),
                        body: Box::new(SeqExp::Prim2(*prim2, var_imm(&name1), var_imm(&name2), ())),
                        ann: (),
                    }),
                    ann: (),
                }
            },
        },
        Exp::Let { bindings, body, .. } => {
            let n = bindings.len();
            let rb = sequentialize(body);
            let ghost bs = bindings@;
            proof { lemma_binds_nonempty(bs, n - 1); }
            let mut acc = SeqExp::Let {
                var: bindings[n - 1].0.clone(),
                bound_exp: Box::new(sequentialize(&bindings[n - 1].1)),
                body: Box::new(rb),
                ann: (),
            };
            let mut k: usize = n - 1;
            while k > 0
                invariant
                    0 <= k < n,
                    n == bs.len(),
                    bs == bindings@,
                    let_chain(bs, k as int, acc),
                    chain_body(bs, k as int, acc) == rb,
                decreases k,
            {
                proof { lemma_binds_nonempty(bs, k - 1); }
                let b = sequentialize(&bindings[k - 1].1);
                acc = SeqExp::Let { var: bindings[k - 1].0.clone(), bound_exp: Box::new(b), body: Box::new(acc), ann: () };
                k = k - 1;
            }
            acc
        },
        Exp::If { cond, thn, els, ann } => {
            let s_e = sequentialize(cond);
            let name = tagged("#if_", *ann);
            SeqExp::Let {
                var: name.clone(),
                bound_exp: Box::new(s_e),
                body: Box::new(SeqExp::If {
                    cond: var_imm(&name),
                    thn: Box::new(sequentialize(thn)),
                    els: Box::new(sequentialize(els)),
                    ann: (),
                }),
                ann: (),
            }
        },
        Exp::Call(name, args, ann) => {
            let ghost es = args@;
            let n = args.len();
            let mut imms: Vec<ImmExp> = Vec::new();
            let mut i: usize = 0;
            while i < n
                invariant
                    i <= n,
                    n == es.len(),
                    es == args@,
                    imms@.len() == i,
                    forall|j: int| 0 <= j < i ==> arg_imm(#[trigger] es[j], *ann, j, imms@[j]),
                decreases n - i,
            {
                let imm = match &args[i] {
                    Exp::Num(n, _) => ImmExp::Num(*n),
                    Exp::Bool(b, _) => ImmExp::Bool(*b),
                    Exp::Var(v, _) => ImmExp::Var(v.clone()),
                    _ => ImmExp::Var(make_call_name(*ann, i)),
                };
                imms.push(imm);
                i = i + 1;
            }
            let mut acc = SeqExp::Call(name.clone(), imms, ());
            let mut k: usize = n;
            while k > 0
                invariant
                    k <= n,
                    n == es.len(),
                    es == args@,
                    call_chain(es, name@, *ann, k as int, acc),
                decreases k,
            {
                let a = &args[k - 1];
                if imm_of(a).is_none() {
                    proof { lemma_args_nonempty(es, k - 1); }
                    let b = sequentialize(a);
                    acc = SeqExp::Let { var: make_call_name(*ann, k - 1), bound_exp: Box::new(b), body: Box::new(acc), ann: () };
                }
                k = k - 1;
            }
            acc
        },
    }
}

/// The sequential form of every function body and of `main`.
pub fn seq_prog(p: &SurfProg<u32>) -> (r: SeqProg<()>)
    requires
        forall|k: int| 0 <= k < p.funs@.len() ==> lets_nonempty(#[trigger] p.funs@[k].body),
        lets_nonempty(p.main),
    ensures
        r.funs@.len() == p.funs@.len(),
        forall|k: int| 0 <= k < p.funs@.len() ==> {
            &&& (#[trigger] r.funs@[k]).name@ == p.funs@[k].name@
            &&& r.funs@[k].parameters@ == p.funs@[k].parameters@
            &&& sequentialized(p.funs@[k].body, r.funs@[k].body)
        },
        sequentialized(p.main, r.main),
{
    let mut funs: Vec<FunDecl<SeqExp<()>, ()>> = Vec::new();
    let mut k: usize = 0;
    while k < p.funs.len()
        invariant
            k <= p.funs@.len(),
            funs@.len() == k,
            forall|j: int| 0 <= j < p.funs@.len() ==> lets_nonempty(#[trigger] p.funs@[j].body),
            forall|j: int| 0 <= j < k ==> {
                &&& (#[trigger] funs@[j]).name@ == p.funs@[j].name@
                &&& funs@[j].parameters@ == p.funs@[j].parameters@
                &&& sequentialized(p.funs@[j].body, funs@[j].body)
            },
        decreases p.funs@.len() - k,
    {
        let d = &p.funs[k];
        funs.push(FunDecl {
            name: d.name.clone(),
            parameters: copy_strings(&d.parameters),
            body: sequentialize(&d.body),
            ann: (),
        });
        k = k + 1;
    }
    Prog { funs, main: sequentialize(&p.main), ann: () }
}

} // verus!
