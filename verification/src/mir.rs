//! The typed intermediate representation: the syntax tree with a type on
//! every node, every call bound to the signature or specialization that it
//! runs, and every implicit conversion written out as a node of its own.

use vstd::prelude::*;
use crate::ast::Expr;
use crate::env::Environment;
use crate::overload::{conversion_of, resolve_spec, widens, ConversionView, ResolutionView};
use crate::types::{Symbol, Type};
use crate::typing::{common_type, element_type, field_type, Callee, TypeError};

verus! {

/// What a call runs.
#[derive(Debug, PartialEq, Eq)]
pub enum Target {
    /// The signature at this position in the environment.
    Signature(usize),
    /// The specialization at this position in the cache.
    Specialization(usize),
}

/// A typed expression.
#[derive(Debug, PartialEq, Eq)]
pub struct Mir {
    pub ty: Type,
    pub node: MirNode,
}

/// The node kinds: those of the syntax tree, and the two kinds of implicit
/// conversion.
#[derive(Debug, PartialEq, Eq)]
pub enum MirNode {
    IntLit(i64),
    NumLit(u64),
    BoolLit(bool),
    StrLit(Symbol),
    Ident(Symbol),
    Lambda(usize),
    Call(Symbol, Target, Vec<Mir>),
    Field(Box<Mir>, Symbol),
    Index(Box<Mir>, Box<Mir>),
    ArrayLit(Vec<Mir>),
    ArrayRepeat(Box<Mir>, usize),
    ArrayGen(Symbol, Box<Mir>, Box<Mir>),
    Let(Symbol, Box<Mir>),
    Block(Vec<Mir>),
    If(Box<Mir>, Box<Mir>, Option<Box<Mir>>),
    Return(Box<Mir>),
    /// The declared conversion at this position in the environment's rules,
    /// applied to the operand.
    Coerce(usize, Box<Mir>),
    /// The operand passed as an array of the node's type: its length
    /// forgotten, or, for an empty literal, its element type decided.
    Widen(Box<Mir>),
}

/// A body typed under concrete parameter types.
#[derive(Debug, PartialEq, Eq)]
pub struct Specialization {
    pub callee: Callee,
    /// The parameter types under which the body was typed.
    pub params: Vec<Type>,
    /// A nesting limit within which the body types.
    pub fuel: usize,
    /// The result type.
    pub result: Type,
    /// The typed body.
    pub body: Mir,
}

/// The node under the implicit conversions that wrap it.
pub open spec fn strip(m: Mir) -> Mir
    decreases m,
{
    match m.node {
        MirNode::Coerce(_, inner) => strip(*inner),
        MirNode::Widen(inner) => strip(*inner),
        _ => m,
    }
}

/// Whether `m` is no conversion node.
pub open spec fn plain(m: Mir) -> bool {
    !(m.node is Coerce) && !(m.node is Widen)
}

/// The declared conversions that wrap a node, innermost first.
pub open spec fn coercions(m: Mir) -> Seq<usize>
    decreases m,
{
    match m.node {
        MirNode::Coerce(rule, inner) => coercions(*inner).push(rule),
        _ => Seq::empty(),
    }
}

/// The node under the declared conversions that wrap it.
pub open spec fn peel(m: Mir) -> Mir
    decreases m,
{
    match m.node {
        MirNode::Coerce(_, inner) => peel(*inner),
        _ => m,
    }
}

/// Whether the nodes around the operand of `m` are those of conversion `c`
/// and no others: none for an exact or generic match, one widening, or the
/// chain's declared conversions in the order of application.
pub open spec fn converts_by(m: Mir, c: ConversionView) -> bool {
    match c {
        ConversionView::Exact => plain(m),
        ConversionView::Generic => plain(m),
        ConversionView::Widen => m.node is Widen && plain(*m.node->Widen_0),
        ConversionView::Chain(p) => coercions(m) == p && plain(peel(m)),
    }
}

/// The types of the operands under the conversions of `args`.
pub open spec fn operand_types(args: Seq<Mir>) -> Seq<Type> {
    Seq::new(args.len(), |k: int| strip(args[k]).ty)
}

/// Whether a call with the arguments `args` that runs signature `i`, or a
/// specialization of it, is what overload resolution makes of it: a call of
/// that signature's symbol with operands of these types resolves to
/// signature `i`, and each argument is wrapped in the conversion that
/// resolution gives it.
#[verifier::opaque]
pub open spec fn call_resolved(env: Environment, i: usize, args: Seq<Mir>) -> bool {
    match resolve_spec(env.rule_edges(), env.fns@, env.fns@[i as int].name, operand_types(args)) {
        ResolutionView::Match(j, cs) => j == i && cs.len() == args.len() && forall|k: int|
            0 <= k < args.len() ==> converts_by(#[trigger] args[k], cs[k]),
        _ => false,
    }
}

/// Whether the nodes `items` are brought to their common type `t` as the
/// typing rules say: `t` is the common type of the operands' types, and
/// each operand is wrapped in the conversion that leads from its type to
/// `t`.
#[verifier::opaque]
pub open spec fn unified(env: Environment, items: Seq<Mir>, t: Type) -> bool {
    &&& common_type(env.rule_edges(), operand_types(items) + env.nodes@, operand_types(items)) == Some(
        t,
    )
    &&& forall|k: int|
        0 <= k < items.len() ==> conversion_of(env.rule_edges(), operand_types(items)[k], t) is Some
            && converts_by(
            #[trigger] items[k],
            conversion_of(env.rule_edges(), operand_types(items)[k], t)->0,
        )
}

/// Whether `m` is `e` with types, targets and conversions added: under its
/// conversions, each node of `m` has the kind and the names of the node of
/// `e` at the same place.
pub open spec fn mirrors(m: Mir, e: Expr) -> bool
    decreases e,
{
    match (strip(m).node, e) {
        (MirNode::IntLit(a), Expr::IntLit(b)) => a == b,
        (MirNode::NumLit(a), Expr::NumLit(b)) => a == b,
        (MirNode::BoolLit(a), Expr::BoolLit(b)) => a == b,
        (MirNode::StrLit(a), Expr::StrLit(b)) => a == b,
        (MirNode::Ident(a), Expr::Ident(b)) => a == b,
        (MirNode::Lambda(a), Expr::Lambda(b)) => a == b,
        (MirNode::Call(f, _, ms), Expr::Call(g, es)) => f == g && mirror_all(ms@, es@, es@.len()),
        (MirNode::Field(x, f), Expr::Field(y, g)) => f == g && mirrors(*x, *y),
        (MirNode::Index(x, i), Expr::Index(y, j)) => mirrors(*x, *y) && mirrors(*i, *j),
        (MirNode::ArrayLit(ms), Expr::ArrayLit(es)) => mirror_all(ms@, es@, es@.len()),
        (MirNode::ArrayRepeat(x, n), Expr::ArrayRepeat(y, k)) => n == k && mirrors(*x, *y),
        (MirNode::ArrayGen(i, x, n), Expr::ArrayGen(j, y, k)) => i == j && mirrors(*x, *y)
            && mirrors(*n, *k),
        (MirNode::Let(a, x), Expr::Let(b, y)) => a == b && mirrors(*x, *y),
        (MirNode::Block(ms), Expr::Block(es)) => mirror_all(ms@, es@, es@.len()),
        (MirNode::If(c, a, b), Expr::If(c2, a2, b2)) => mirrors(*c, *c2) && mirrors(*a, *a2)
            && match (b, b2) {
            (Some(x), Some(y)) => mirrors(*x, *y),
            (None, None) => true,
            _ => false,
        },
        (MirNode::Return(x), Expr::Return(y)) => mirrors(*x, *y),
        _ => false,
    }
}

/// Nodes that are the same under their conversions mirror the same
/// expressions.
pub proof fn lemma_mirrors_strip(a: Mir, b: Mir, e: Expr)
    requires
        strip(a) == strip(b),
    ensures
        mirrors(a, e) == mirrors(b, e),
{
}

/// Whether `ms` and `es` have the same length and the first `k` nodes of
/// `ms` mirror the first `k` of `es`.
pub open spec fn mirror_all(ms: Seq<Mir>, es: Seq<Expr>, k: nat) -> bool
    decreases es, k,
{
    if k == 0 || k > es.len() {
        ms.len() == es.len()
    } else {
        mirror_all(ms, es, (k - 1) as nat) && mirrors(ms[k - 1], es[k - 1])
    }
}

/// Nodes that mirror each other place by place mirror each other as lists.
pub proof fn lemma_mirror_all(ms: Seq<Mir>, es: Seq<Expr>, k: nat)
    requires
        ms.len() == es.len(),
        k <= es.len(),
        forall|i: int| 0 <= i < k ==> mirrors(#[trigger] ms[i], es[i]),
    ensures
        mirror_all(ms, es, k),
    decreases k,
{
    if k > 0 {
        lemma_mirror_all(ms, es, (k - 1) as nat);
    }
}

/// Whether `after` holds every entry of `before` at its old position, for
/// the same callee and parameter types and with the same result type.
pub open spec fn extends(before: Seq<Specialization>, after: Seq<Specialization>) -> bool {
    &&& before.len() <= after.len()
    &&& forall|i: int|
        0 <= i < before.len() ==> (#[trigger] after[i]).callee == before[i].callee && after[i].params@
            == before[i].params@ && after[i].result == before[i].result
}

/// Whether the types on `m` and on every node below it fit together: a
/// literal has its primitive type, a conversion leads from its operand's
/// type to its own, a call's arguments have the parameter types and the call
/// the result type of what it runs, a call of a signature is what overload
/// resolution makes of it, the elements of an array literal and the branches
/// of an `if` are brought to their common type, and every other node has the
/// type that its kind derives from its operands' types. The type of a name
/// comes from its scope and is not judged here.
pub open spec fn sound(env: Environment, cache: Seq<Specialization>, m: Mir) -> bool
    decreases m, 0nat,
{
    match m.node {
        MirNode::IntLit(_) => m.ty == Type::Int,
        MirNode::NumLit(_) => m.ty == Type::Num,
        MirNode::BoolLit(_) => m.ty == Type::Bool,
        MirNode::StrLit(_) => m.ty == Type::Str,
        MirNode::Ident(_) => true,
        MirNode::Lambda(id) => m.ty == Type::Closure(id),
        MirNode::Call(_, target, args) => sound_all(env, cache, args@, args@.len()) && match target {
            Target::Signature(i) => {
                &&& i < env.fns@.len()
                &&& env.fns@[i as int].result == Some(m.ty)
                &&& args@.len() == env.fns@[i as int].params@.len()
                &&& forall|k: int|
                    0 <= k < args@.len() ==> env.fns@[i as int].params@[k].ty.is_open() || (
                    #[trigger] args@[k]).ty == env.fns@[i as int].params@[k].ty
                &&& call_resolved(env, i, args@)
            },
            Target::Specialization(at) => {
                &&& at < cache.len()
                &&& cache[at as int].result == m.ty
                &&& args@.len() == cache[at as int].params@.len()
                &&& forall|k: int|
                    0 <= k < args@.len() ==> (#[trigger] args@[k]).ty == cache[at as int].params@[k]
                &&& cache[at as int].callee matches Callee::Function(i) ==> call_resolved(
                    env,
                    i,
                    args@,
                )
            },
        },
        MirNode::Field(x, f) => sound(env, cache, *x) && field_type(env, x.ty, f) == Ok::<
            Type,
            TypeError,
        >(m.ty),
        MirNode::Index(x, i) => sound(env, cache, *x) && sound(env, cache, *i) && i.ty == Type::Int
            && element_type(x.ty) == Ok::<Type, TypeError>(m.ty),
        MirNode::ArrayLit(items) => sound_all(env, cache, items@, items@.len()) && match m.ty {
            Type::FixedArray(t, n) => n == items@.len() && (forall|k: int|
                0 <= k < items@.len() ==> (#[trigger] items@[k]).ty == *t) && (items@.len() > 0
                ==> unified(env, items@, *t)),
            _ => false,
        },
        MirNode::ArrayRepeat(x, n) => sound(env, cache, *x) && m.ty == Type::FixedArray(
            Box::new(x.ty),
            n,
        ),
        MirNode::ArrayGen(_, body, len) => sound(env, cache, *body) && sound(env, cache, *len)
            && len.ty == Type::Int && match m.ty {
            Type::FixedArray(t, _) => *t == body.ty,
            Type::DynArray(t) => *t == body.ty,
            _ => false,
        },
        MirNode::Let(_, value) => sound(env, cache, *value) && m.ty == Type::Unit,
        MirNode::Block(stmts) => sound_all(env, cache, stmts@, stmts@.len()) && m.ty == if stmts@.len()
            == 0 {
            Type::Unit
        } else {
            stmts@.last().ty
        },
        MirNode::If(c, a, other) => sound(env, cache, *c) && c.ty == Type::Bool && sound(
            env,
            cache,
            *a,
        ) && match other {
            None => m.ty == Type::Unit,
            Some(b) => sound(env, cache, *b) && if a.ty == Type::Never {
                m.ty == b.ty
            } else if b.ty == Type::Never {
                m.ty == a.ty
            } else {
                m.ty == a.ty && m.ty == b.ty && unified(env, seq![*a, *b], m.ty)
            },
        },
        MirNode::Return(value) => sound(env, cache, *value) && m.ty == Type::Never,
        MirNode::Coerce(rule, inner) => sound(env, cache, *inner) && rule < env.rules@.len()
            && inner.ty == env.rules@[rule as int].from && m.ty == env.rules@[rule as int].to,
        MirNode::Widen(inner) => sound(env, cache, *inner) && widens(inner.ty, m.ty),
    }
}

/// Whether the first `k` of `ms` are sound.
pub open spec fn sound_all(env: Environment, cache: Seq<Specialization>, ms: Seq<Mir>, k: nat) -> bool
    decreases ms, k,
{
    if k == 0 || k > ms.len() {
        true
    } else {
        sound_all(env, cache, ms, (k - 1) as nat) && sound(env, cache, ms[k - 1])
    }
}

/// Nodes that are sound one by one are sound as a list.
pub proof fn lemma_sound_all(env: Environment, cache: Seq<Specialization>, ms: Seq<Mir>, k: nat)
    requires
        k <= ms.len(),
        forall|i: int| 0 <= i < k ==> sound(env, cache, #[trigger] ms[i]),
    ensures
        sound_all(env, cache, ms, k),
    decreases k,
{
    if k > 0 {
        lemma_sound_all(env, cache, ms, (k - 1) as nat);
    }
}

/// A sound node stays sound when the cache grows.
pub proof fn lemma_sound_extends(
    env: Environment,
    before: Seq<Specialization>,
    after: Seq<Specialization>,
    m: Mir,
)
    requires
        extends(before, after),
        sound(env, before, m),
    ensures
        sound(env, after, m),
    decreases m, 0nat,
{
    match m.node {
        MirNode::Call(_, target, args) => {
            lemma_sound_all_extends(env, before, after, args@, args@.len());
            match target {
                Target::Specialization(at) => {
                    assert(after[at as int].params@ == before[at as int].params@);
                    assert(after[at as int].callee == before[at as int].callee);
                },
                _ => {},
            }
        },
        MirNode::Field(x, _) => {
            lemma_sound_extends(env, before, after, *x);
        },
        MirNode::Index(x, i) => {
            lemma_sound_extends(env, before, after, *x);
            lemma_sound_extends(env, before, after, *i);
        },
        MirNode::ArrayLit(items) => {
            lemma_sound_all_extends(env, before, after, items@, items@.len());
        },
        MirNode::ArrayRepeat(x, _) => {
            lemma_sound_extends(env, before, after, *x);
        },
        MirNode::ArrayGen(_, body, len) => {
            lemma_sound_extends(env, before, after, *body);
            lemma_sound_extends(env, before, after, *len);
        },
        MirNode::Let(_, value) => {
            lemma_sound_extends(env, before, after, *value);
        },
        MirNode::Block(stmts) => {
            lemma_sound_all_extends(env, before, after, stmts@, stmts@.len());
        },
        MirNode::If(c, a, other) => {
            lemma_sound_extends(env, before, after, *c);
            lemma_sound_extends(env, before, after, *a);
            match other {
                Some(b) => {
                    lemma_sound_extends(env, before, after, *b);
                },
                None => {},
            }
        },
        MirNode::Return(value) => {
            lemma_sound_extends(env, before, after, *value);
        },
        MirNode::Coerce(_, inner) => {
            lemma_sound_extends(env, before, after, *inner);
        },
        MirNode::Widen(inner) => {
            lemma_sound_extends(env, before, after, *inner);
        },
        _ => {},
    }
}

/// A sound list stays sound when the cache grows.
pub proof fn lemma_sound_all_extends(
    env: Environment,
    before: Seq<Specialization>,
    after: Seq<Specialization>,
    ms: Seq<Mir>,
    k: nat,
)
    requires
        extends(before, after),
        sound_all(env, before, ms, k),
    ensures
        sound_all(env, after, ms, k),
    decreases ms, k,
{
    if k == 0 || k > ms.len() {
    } else {
        lemma_sound_all_extends(env, before, after, ms, (k - 1) as nat);
        lemma_sound_extends(env, before, after, ms[k - 1]);
    }
}

} // verus!
