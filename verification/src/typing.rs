//! The typing rules: which type every expression has, or which error it
//! meets.
//!
//! The rules are stated as mathematical functions of the environment, the
//! names in scope and the expression. Types are assigned bottom-up. A call
//! of a generic function, of a function whose result type is inferred, or of
//! an inline function types the callee's body under the argument types; the
//! nesting of such bodies is bounded by `fuel`, and a call that would nest
//! deeper is an unresolved recursive generic.

use vstd::prelude::*;
use crate::ast::{Binding, Body, Expr, Signature, StructDecl};
use crate::env::Environment;
use crate::overload::{
    better, conversion_of, conversions_of, resolve_spec, total_cost, total_looseness,
    ConversionView, ResolutionView,
};
use crate::types::{Symbol, Type, LEN};

verus! {

/// Why an expression has no type.
#[derive(Debug, PartialEq, Eq, Clone, Copy)]
pub enum TypeError {
    /// A name that is neither in scope nor declared.
    UndefinedSymbol(Symbol),
    /// A field that the value's type does not have.
    UndefinedField(Symbol),
    /// The symbol is declared, but not with this number of parameters.
    ArityMismatch(Symbol),
    /// Types that do not agree: no common element or branch type, a
    /// condition that is no `bool`, a body that does not fit its call.
    TypeMismatch,
    /// No signature of the symbol accepts the arguments.
    NoMatchingOverload(Symbol),
    /// Several signatures of the symbol accept the arguments equally well.
    AmbiguousOverload(Symbol),
    /// Bodies typed under argument types nest deeper than the limit.
    UnresolvedRecursiveGeneric,
}

/// What typing an expression yields: its type, and the types of the values
/// that its `return` sites hand to an enclosing function whose result type
/// is inferred.
pub struct Typing {
    pub ty: Type,
    pub exits: Seq<Type>,
}

/// What typing a list of expressions yields.
pub struct ListTyping {
    pub types: Seq<Type>,
    pub exits: Seq<Type>,
}

/// What typing the statements of a block yields: the names in scope after
/// them, the type of the last one, and the return types.
pub struct BlockTyping {
    pub scope: Seq<Binding>,
    pub ty: Type,
    pub exits: Seq<Type>,
}

/// The static length of an array generator, where it has one.
pub struct LengthTyping {
    pub length: Option<usize>,
    pub exits: Seq<Type>,
}

/// What a body is typed for: a declared function or an inline function.
#[derive(Debug, PartialEq, Eq, Clone, Copy)]
pub enum Callee {
    /// A signature, by its position in the environment.
    Function(usize),
    /// An inline function, by its position in the unit's table.
    Lambda(usize),
}

/// A fixed expression. The rules that take no expression of their own are
/// measured with it in the place where the others have theirs.
pub open spec fn no_expr() -> Expr {
    Expr::BoolLit(false)
}

/// The type bound to `x` by the innermost binding of that name.
pub open spec fn lookup(scope: Seq<Binding>, x: Symbol) -> Option<Type>
    decreases scope.len(),
{
    if scope.len() == 0 {
        None
    } else if scope.last().name == x {
        Some(scope.last().ty)
    } else {
        lookup(scope.drop_last(), x)
    }
}

/// The fields of struct `name`, where the struct table has it.
pub open spec fn struct_fields(structs: Seq<StructDecl>, name: Symbol) -> Option<Seq<Binding>>
    decreases structs.len(),
{
    if structs.len() == 0 {
        None
    } else if structs.last().name == name {
        Some(structs.last().fields@)
    } else {
        struct_fields(structs.drop_last(), name)
    }
}

/// Whether some signature has this symbol.
pub open spec fn declares(fns: Seq<Signature>, name: Symbol) -> bool {
    exists|i: int| 0 <= i < fns.len() && (#[trigger] fns[i]).name == name
}

/// Whether some signature has this symbol and this number of parameters.
pub open spec fn declares_arity(fns: Seq<Signature>, name: Symbol, n: nat) -> bool {
    exists|i: int| 0 <= i < fns.len() && (#[trigger] fns[i]).name == name && fns[i].params@.len() == n
}

/// `n` parameters of type `t`.
pub open spec fn uniform(t: Type, n: nat) -> Seq<Binding> {
    Seq::new(n, |k: int| Binding { name: 0, ty: t })
}

/// Whether every one of `ts` reaches the concrete type `t`.
pub open spec fn fits(edges: Seq<(Type, Type)>, ts: Seq<Type>, t: Type) -> bool {
    !t.is_open() && conversions_of(edges, ts, uniform(t, ts.len())) is Some
}

/// What it takes to bring all of `ts` to `t`: declared conversions first,
/// loose matches second.
pub open spec fn score(edges: Seq<(Type, Type)>, ts: Seq<Type>, t: Type) -> (nat, nat) {
    let cs = conversions_of(edges, ts, uniform(t, ts.len()))->0;
    (total_cost(cs), total_looseness(cs))
}

/// Whether `t` is the candidate that all of `ts` reach at the least score,
/// strictly before every other candidate that they all reach.
pub open spec fn is_common(edges: Seq<(Type, Type)>, cands: Seq<Type>, ts: Seq<Type>, t: Type) -> bool {
    &&& cands.contains(t)
    &&& fits(edges, ts, t)
    &&& forall|u: Type|
        cands.contains(u) && #[trigger] fits(edges, ts, u) && u != t ==> better(
            score(edges, ts, t),
            score(edges, ts, u),
        )
}

/// The common type of `ts` among the candidates, if there is one.
pub open spec fn common_type(edges: Seq<(Type, Type)>, cands: Seq<Type>, ts: Seq<Type>) -> Option<Type> {
    if exists|t: Type| is_common(edges, cands, ts, t) {
        Some(choose|t: Type| is_common(edges, cands, ts, t))
    } else {
        None
    }
}

/// The type of field `f` of a value of type `t`. Arrays have the one field
/// `len`; a struct has its declared fields.
pub open spec fn field_type(env: Environment, t: Type, f: Symbol) -> Result<Type, TypeError> {
    match t {
        Type::FixedArray(_, _) | Type::DynArray(_) => if f == LEN {
            Ok(Type::Int)
        } else {
            Err(TypeError::UndefinedField(f))
        },
        Type::Struct(s) => match struct_fields(env.structs@, s) {
            None => Err(TypeError::UndefinedSymbol(s)),
            Some(fields) => match lookup(fields, f) {
                Some(ft) => Ok(ft),
                None => Err(TypeError::UndefinedField(f)),
            },
        },
        _ => Err(TypeError::TypeMismatch),
    }
}

/// The element type of an array type; indexing anything else, or an array
/// whose element type is still open, is a mismatch.
pub open spec fn element_type(t: Type) -> Result<Type, TypeError> {
    match t {
        Type::FixedArray(e, _) => if e.is_open() {
            Err(TypeError::TypeMismatch)
        } else {
            Ok(*e)
        },
        Type::DynArray(e) => if e.is_open() {
            Err(TypeError::TypeMismatch)
        } else {
            Ok(*e)
        },
        _ => Err(TypeError::TypeMismatch),
    }
}

/// The type of an `if` with both branches: a branch that never arrives with
/// a value leaves the type to the other; else the branches' common type.
pub open spec fn branch_type(env: Environment, a: Type, b: Type) -> Result<Type, TypeError> {
    if a == Type::Never {
        Ok(b)
    } else if b == Type::Never {
        Ok(a)
    } else {
        match common_type(env.rule_edges(), seq![a, b] + env.nodes@, seq![a, b]) {
            Some(t) => Ok(t),
            None => Err(TypeError::TypeMismatch),
        }
    }
}

/// The type of an array literal with elements of types `ts`.
pub open spec fn literal_type(env: Environment, ts: Seq<Type>) -> Result<Type, TypeError> {
    if ts.len() == 0 {
        Ok(Type::FixedArray(Box::new(Type::Any), 0))
    } else {
        match common_type(env.rule_edges(), ts + env.nodes@, ts) {
            Some(t) => Ok(Type::FixedArray(Box::new(t), ts.len() as usize)),
            None => Err(TypeError::TypeMismatch),
        }
    }
}

/// Whether calls of `sig` need no look at its body: every parameter type and
/// the declared result type are concrete.
pub open spec fn is_closed(sig: Signature) -> bool {
    &&& sig.result matches Some(r) && !r.is_open()
    &&& forall|k: int| 0 <= k < sig.params@.len() ==> !(#[trigger] sig.params@[k]).ty.is_open()
}

/// The parameter types under which a body is typed: the argument's type for
/// an open parameter, the declared type for a concrete one.
pub open spec fn instantiate(params: Seq<Binding>, ts: Seq<Type>) -> Seq<Type> {
    Seq::new(params.len(), |k: int| if params[k].ty.is_open() {
        ts[k]
    } else {
        params[k].ty
    })
}

/// The error that a call reports when its callee's body fails under the
/// argument types.
pub open spec fn body_error(e: TypeError) -> TypeError {
    match e {
        TypeError::UnresolvedRecursiveGeneric => TypeError::UnresolvedRecursiveGeneric,
        _ => TypeError::TypeMismatch,
    }
}

/// The result type of a body that typed as `t`, given the declared result
/// type. Against a concrete declared type, the body's type must reach it; an
/// array keeps the length that the body's type knows. Else all return sites
/// and the final expression must agree on one concrete type, which an open
/// declared type must admit.
pub open spec fn conclude(edges: Seq<(Type, Type)>, t: Typing, declared: Option<Type>) -> Result<
    Type,
    TypeError,
> {
    if declared is Some && !declared->0.is_open() {
        let d = declared->0;
        if t.ty == Type::Never {
            Ok(d)
        } else {
            match conversion_of(edges, t.ty, d) {
                Some(ConversionView::Widen) => if t.ty.is_open() {
                    Ok(d)
                } else {
                    Ok(t.ty)
                },
                Some(_) => Ok(d),
                None => Err(TypeError::TypeMismatch),
            }
        }
    } else {
        let r = if t.ty == Type::Never && t.exits.len() > 0 {
            t.exits[0]
        } else {
            t.ty
        };
        if (forall|k: int| 0 <= k < t.exits.len() ==> t.exits[k] == r) && !r.is_open() && (
        declared is None || declared->0.admits(r)) {
            Ok(r)
        } else {
            Err(TypeError::TypeMismatch)
        }
    }
}

/// The scope in which a body is typed: its parameters, and nothing else.
pub open spec fn parameter_scope(names: Seq<Symbol>, types: Seq<Type>) -> Seq<Binding> {
    Seq::new(names.len(), |k: int| Binding { name: names[k], ty: types[k] })
}

/// The names of a list of bindings.
pub open spec fn binding_names(bs: Seq<Binding>) -> Seq<Symbol> {
    Seq::new(bs.len(), |k: int| bs[k].name)
}

/// The declared result type against which `return` sites are checked where
/// they stand: the concrete one, if there is one.
pub open spec fn expected(declared: Option<Type>) -> Option<Type> {
    if declared is Some && !declared->0.is_open() {
        declared
    } else {
        None
    }
}

/// The result type of `callee`'s body typed under parameter types `types`.
pub open spec fn specialize_spec(env: Environment, callee: Callee, types: Seq<Type>, fuel: nat) -> Result<
    Type,
    TypeError,
>
    decreases 2 * fuel, no_expr(), 0nat,
{
    if fuel == 0 {
        Err(TypeError::UnresolvedRecursiveGeneric)
    } else {
        match callee {
            Callee::Function(i) => if i < env.fns@.len() && env.fns@[i as int].body is Code
                && env.fns@[i as int].params@.len() == types.len() {
                let sig = env.fns@[i as int];
                match infer(
                    env,
                    parameter_scope(binding_names(sig.params@), types),
                    expected(sig.result),
                    sig.body->Code_0,
                    (fuel - 1) as nat,
                ) {
                    Err(e) => Err(body_error(e)),
                    Ok(t) => conclude(env.rule_edges(), t, sig.result),
                }
            } else {
                Err(TypeError::TypeMismatch)
            },
            Callee::Lambda(id) => if id < env.lambdas@.len() && env.lambdas@[id as int].params@.len()
                == types.len() {
                let lam = env.lambdas@[id as int];
                match infer(
                    env,
                    parameter_scope(lam.params@, types),
                    None,
                    lam.body,
                    (fuel - 1) as nat,
                ) {
                    Err(e) => Err(body_error(e)),
                    Ok(t) => conclude(env.rule_edges(), t, None),
                }
            } else {
                Err(TypeError::TypeMismatch)
            },
        }
    }
}

/// The result type of a call that resolved to signature `i`.
pub open spec fn call_result(env: Environment, i: usize, ts: Seq<Type>, fuel: nat) -> Result<
    Type,
    TypeError,
>
    decreases 2 * fuel, no_expr(), 1nat,
{
    let sig = env.fns@[i as int];
    match sig.body {
        Body::Code(_) => if is_closed(sig) {
            Ok(sig.result->0)
        } else {
            specialize_spec(env, Callee::Function(i), instantiate(sig.params@, ts), fuel)
        },
        _ => if sig.result is Some && !sig.result->0.is_open() {
            Ok(sig.result->0)
        } else {
            Err(TypeError::TypeMismatch)
        },
    }
}

/// The result type of a call of the declared symbol `name`.
pub open spec fn call_named(env: Environment, name: Symbol, ts: Seq<Type>, fuel: nat) -> Result<
    Type,
    TypeError,
>
    decreases 2 * fuel, no_expr(), 2nat,
{
    if !declares(env.fns@, name) {
        Err(TypeError::UndefinedSymbol(name))
    } else if !declares_arity(env.fns@, name, ts.len()) {
        Err(TypeError::ArityMismatch(name))
    } else {
        match resolve_spec(env.rule_edges(), env.fns@, name, ts) {
            ResolutionView::NoMatch => Err(TypeError::NoMatchingOverload(name)),
            ResolutionView::Ambiguous => Err(TypeError::AmbiguousOverload(name)),
            ResolutionView::Match(i, _) => call_result(env, i, ts, fuel),
        }
    }
}

/// The result type of a call of inline function `id` through the local
/// `name`.
pub open spec fn call_lambda(env: Environment, name: Symbol, id: usize, ts: Seq<Type>, fuel: nat) -> Result<
    Type,
    TypeError,
>
    decreases 2 * fuel, no_expr(), 2nat,
{
    if id >= env.lambdas@.len() {
        Err(TypeError::UndefinedSymbol(name))
    } else if env.lambdas@[id as int].params@.len() != ts.len() {
        Err(TypeError::ArityMismatch(name))
    } else if exists|k: int| 0 <= k < ts.len() && (#[trigger] ts[k]).is_open() {
        Err(TypeError::TypeMismatch)
    } else {
        specialize_spec(env, Callee::Lambda(id), ts, fuel)
    }
}

/// The result type of a call of `name` with arguments of types `ts`: a
/// local that holds an inline function or a function name is called through,
/// any other local is no callee, and a name that is no local is a declared
/// symbol.
pub open spec fn apply(env: Environment, scope: Seq<Binding>, name: Symbol, ts: Seq<Type>, fuel: nat) -> Result<
    Type,
    TypeError,
>
    decreases 2 * fuel, no_expr(), 3nat,
{
    match lookup(scope, name) {
        Some(Type::Closure(id)) => call_lambda(env, name, id, ts, fuel),
        Some(Type::FnItem(s)) => call_named(env, s, ts, fuel),
        Some(_) => Err(TypeError::TypeMismatch),
        None => call_named(env, name, ts, fuel),
    }
}

/// The typing of the first `k` of the expressions `es`, left to right.
pub open spec fn infer_list(
    env: Environment,
    scope: Seq<Binding>,
    expect: Option<Type>,
    es: Seq<Expr>,
    k: nat,
    fuel: nat,
) -> Result<ListTyping, TypeError>
    decreases 2 * fuel + 1, es, k,
{
    if k == 0 || k > es.len() {
        Ok(ListTyping { types: Seq::empty(), exits: Seq::empty() })
    } else {
        match infer_list(env, scope, expect, es, (k - 1) as nat, fuel) {
            Err(e) => Err(e),
            Ok(done) => match infer(env, scope, expect, es[k - 1], fuel) {
                Err(e) => Err(e),
                Ok(t) => Ok(
                    ListTyping { types: done.types.push(t.ty), exits: done.exits + t.exits },
                ),
            },
        }
    }
}

/// The typing of the first `k` statements of a block. A `let` brings its
/// name into scope for the statements after it.
pub open spec fn infer_block(
    env: Environment,
    scope: Seq<Binding>,
    expect: Option<Type>,
    stmts: Seq<Expr>,
    k: nat,
    fuel: nat,
) -> Result<BlockTyping, TypeError>
    decreases 2 * fuel + 1, stmts, k,
{
    if k == 0 || k > stmts.len() {
        Ok(BlockTyping { scope, ty: Type::Unit, exits: Seq::empty() })
    } else {
        match infer_block(env, scope, expect, stmts, (k - 1) as nat, fuel) {
            Err(e) => Err(e),
            Ok(done) => match stmts[k - 1] {
                Expr::Let(x, value) => match infer(env, done.scope, expect, *value, fuel) {
                    Err(e) => Err(e),
                    Ok(t) => Ok(
                        BlockTyping {
                            scope: done.scope.push(Binding { name: x, ty: t.ty }),
                            ty: Type::Unit,
                            exits: done.exits + t.exits,
                        },
                    ),
                },
                stmt => match infer(env, done.scope, expect, stmt, fuel) {
                    Err(e) => Err(e),
                    Ok(t) => Ok(
                        BlockTyping {
                            scope: done.scope,
                            ty: t.ty,
                            exits: done.exits + t.exits,
                        },
                    ),
                },
            },
        }
    }
}

/// The length of an array generator: static where it is a literal or the
/// length of an array of fixed length, dynamic where it is any other `int`.
pub open spec fn infer_length(
    env: Environment,
    scope: Seq<Binding>,
    expect: Option<Type>,
    len: Expr,
    fuel: nat,
) -> Result<LengthTyping, TypeError>
    decreases 2 * fuel + 1, len, 1nat,
{
    match len {
        Expr::IntLit(v) => if 0 <= v <= usize::MAX {
            Ok(LengthTyping { length: Some(v as usize), exits: Seq::empty() })
        } else {
            Err(TypeError::TypeMismatch)
        },
        Expr::Field(x, f) => match infer(env, scope, expect, *x, fuel) {
            Err(e) => Err(e),
            Ok(t) => match t.ty {
                Type::FixedArray(_, n) => if f == LEN {
                    Ok(LengthTyping { length: Some(n), exits: t.exits })
                } else {
                    Err(TypeError::UndefinedField(f))
                },
                _ => match field_type(env, t.ty, f) {
                    Err(e) => Err(e),
                    Ok(ft) => if ft == Type::Int {
                        Ok(LengthTyping { length: None, exits: t.exits })
                    } else {
                        Err(TypeError::TypeMismatch)
                    },
                },
            },
        },
        _ => match infer(env, scope, expect, len, fuel) {
            Err(e) => Err(e),
            Ok(t) => if t.ty == Type::Int {
                Ok(LengthTyping { length: None, exits: t.exits })
            } else {
                Err(TypeError::TypeMismatch)
            },
        },
    }
}

/// The typing of expression `e` with the names of `scope` in scope, inside
/// a function whose concrete declared result type is `expect`.
pub open spec fn infer(env: Environment, scope: Seq<Binding>, expect: Option<Type>, e: Expr, fuel: nat) -> Result<
    Typing,
    TypeError,
>
    decreases 2 * fuel + 1, e, 0nat,
{
    match e {
        Expr::IntLit(_) => Ok(Typing { ty: Type::Int, exits: Seq::empty() }),
        Expr::NumLit(_) => Ok(Typing { ty: Type::Num, exits: Seq::empty() }),
        Expr::BoolLit(_) => Ok(Typing { ty: Type::Bool, exits: Seq::empty() }),
        Expr::StrLit(_) => Ok(Typing { ty: Type::Str, exits: Seq::empty() }),
        Expr::Ident(x) => match lookup(scope, x) {
            Some(t) => Ok(Typing { ty: t, exits: Seq::empty() }),
            None => if declares(env.fns@, x) {
                Ok(Typing { ty: Type::FnItem(x), exits: Seq::empty() })
            } else {
                Err(TypeError::UndefinedSymbol(x))
            },
        },
        Expr::Lambda(id) => if id < env.lambdas@.len() {
            Ok(Typing { ty: Type::Closure(id), exits: Seq::empty() })
        } else {
            Err(TypeError::TypeMismatch)
        },
        Expr::Call(name, args) => match infer_list(env, scope, expect, args@, args@.len(), fuel) {
            Err(e) => Err(e),
            Ok(a) => match apply(env, scope, name, a.types, fuel) {
                Err(e) => Err(e),
                Ok(t) => Ok(Typing { ty: t, exits: a.exits }),
            },
        },
        Expr::Field(x, f) => match infer(env, scope, expect, *x, fuel) {
            Err(e) => Err(e),
            Ok(t) => match field_type(env, t.ty, f) {
                Err(e) => Err(e),
                Ok(ft) => Ok(Typing { ty: ft, exits: t.exits }),
            },
        },
        Expr::Index(x, i) => match infer(env, scope, expect, *x, fuel) {
            Err(e) => Err(e),
            Ok(t) => match infer(env, scope, expect, *i, fuel) {
                Err(e) => Err(e),
                Ok(ti) => if ti.ty != Type::Int {
                    Err(TypeError::TypeMismatch)
                } else {
                    match element_type(t.ty) {
                        Err(e) => Err(e),
                        Ok(et) => Ok(Typing { ty: et, exits: t.exits + ti.exits }),
                    }
                },
            },
        },
        Expr::ArrayLit(items) => match infer_list(env, scope, expect, items@, items@.len(), fuel) {
            Err(e) => Err(e),
            Ok(a) => match literal_type(env, a.types) {
                Err(e) => Err(e),
                Ok(t) => Ok(Typing { ty: t, exits: a.exits }),
            },
        },
        Expr::ArrayRepeat(item, n) => match infer(env, scope, expect, *item, fuel) {
            Err(e) => Err(e),
            Ok(t) => Ok(Typing { ty: Type::FixedArray(Box::new(t.ty), n), exits: t.exits }),
        },
        Expr::ArrayGen(i, body, len) => match infer_length(env, scope, expect, *len, fuel) {
            Err(e) => Err(e),
            Ok(l) => match infer(
                env,
                scope.push(Binding { name: i, ty: Type::Int }),
                expect,
                *body,
                fuel,
            ) {
                Err(e) => Err(e),
                Ok(t) => Ok(
                    Typing {
                        ty: match l.length {
                            Some(n) => Type::FixedArray(Box::new(t.ty), n),
                            None => Type::DynArray(Box::new(t.ty)),
                        },
                        exits: l.exits + t.exits,
                    },
                ),
            },
        },
        Expr::Let(_, value) => match infer(env, scope, expect, *value, fuel) {
            Err(e) => Err(e),
            Ok(t) => Ok(Typing { ty: Type::Unit, exits: t.exits }),
        },
        Expr::Block(stmts) => match infer_block(env, scope, expect, stmts@, stmts@.len(), fuel) {
            Err(e) => Err(e),
            Ok(b) => Ok(Typing { ty: b.ty, exits: b.exits }),
        },
        Expr::If(cond, then, other) => match infer(env, scope, expect, *cond, fuel) {
            Err(e) => Err(e),
            Ok(c) => if c.ty != Type::Bool {
                Err(TypeError::TypeMismatch)
            } else {
                match infer(env, scope, expect, *then, fuel) {
                    Err(e) => Err(e),
                    Ok(a) => match other {
                        None => if a.ty == Type::Unit || a.ty == Type::Never {
                            Ok(Typing { ty: Type::Unit, exits: c.exits + a.exits })
                        } else {
                            Err(TypeError::TypeMismatch)
                        },
                        Some(alt) => match infer(env, scope, expect, *alt, fuel) {
                            Err(e) => Err(e),
                            Ok(b) => match branch_type(env, a.ty, b.ty) {
                                Err(e) => Err(e),
                                Ok(t) => Ok(
                                    Typing { ty: t, exits: c.exits + a.exits + b.exits },
                                ),
                            },
                        },
                    },
                }
            },
        },
        Expr::Return(value) => match infer(env, scope, expect, *value, fuel) {
            Err(e) => Err(e),
            Ok(t) => match expect {
                Some(r) => if conversion_of(env.rule_edges(), t.ty, r) is Some {
                    Ok(Typing { ty: Type::Never, exits: t.exits })
                } else {
                    Err(TypeError::TypeMismatch)
                },
                None => Ok(Typing { ty: Type::Never, exits: t.exits.push(t.ty) }),
            },
        },
    }
}

/// The type of a free-standing expression: it is typed with nothing in
/// scope, may not return, and its type must be concrete.
pub open spec fn type_of(env: Environment, e: Expr, fuel: nat) -> Result<Type, TypeError> {
    match infer(env, Seq::empty(), None, e, fuel) {
        Err(e) => Err(e),
        Ok(t) => if t.exits.len() == 0 && !t.ty.is_open() {
            Ok(t.ty)
        } else {
            Err(TypeError::TypeMismatch)
        },
    }
}

/// A body that types within some nesting limit types the same within the
/// next larger one.
pub proof fn lemma_specialize_step(env: Environment, callee: Callee, types: Seq<Type>, fuel: nat)
    requires
        specialize_spec(env, callee, types, fuel) is Ok,
    ensures
        specialize_spec(env, callee, types, fuel + 1) == specialize_spec(env, callee, types, fuel),
    decreases 2 * fuel, no_expr(), 0nat,
{
    match callee {
        Callee::Function(i) => {
            let sig = env.fns@[i as int];
            lemma_infer_step(
                env,
                parameter_scope(binding_names(sig.params@), types),
                expected(sig.result),
                sig.body->Code_0,
                (fuel - 1) as nat,
            );
        },
        Callee::Lambda(id) => {
            let lam = env.lambdas@[id as int];
            lemma_infer_step(env, parameter_scope(lam.params@, types), None, lam.body, (fuel - 1) as nat);
        },
    }
}

/// A body that types within some nesting limit types the same within every
/// larger one.
pub proof fn lemma_specialize_mono(
    env: Environment,
    callee: Callee,
    types: Seq<Type>,
    fuel: nat,
    more: nat,
)
    requires
        fuel <= more,
        specialize_spec(env, callee, types, fuel) is Ok,
    ensures
        specialize_spec(env, callee, types, more) == specialize_spec(env, callee, types, fuel),
    decreases more - fuel,
{
    if fuel < more {
        lemma_specialize_mono(env, callee, types, fuel, (more - 1) as nat);
        lemma_specialize_step(env, callee, types, (more - 1) as nat);
    }
}

proof fn lemma_call_result_step(env: Environment, i: usize, ts: Seq<Type>, fuel: nat)
    requires
        call_result(env, i, ts, fuel) is Ok,
    ensures
        call_result(env, i, ts, fuel + 1) == call_result(env, i, ts, fuel),
    decreases 2 * fuel, no_expr(), 1nat,
{
    let sig = env.fns@[i as int];
    if sig.body is Code && !is_closed(sig) {
        lemma_specialize_step(env, Callee::Function(i), instantiate(sig.params@, ts), fuel);
    }
}

proof fn lemma_call_named_step(env: Environment, name: Symbol, ts: Seq<Type>, fuel: nat)
    requires
        call_named(env, name, ts, fuel) is Ok,
    ensures
        call_named(env, name, ts, fuel + 1) == call_named(env, name, ts, fuel),
    decreases 2 * fuel, no_expr(), 2nat,
{
    match resolve_spec(env.rule_edges(), env.fns@, name, ts) {
        ResolutionView::Match(i, _) => {
            lemma_call_result_step(env, i, ts, fuel);
        },
        _ => {},
    }
}

proof fn lemma_call_lambda_step(env: Environment, name: Symbol, id: usize, ts: Seq<Type>, fuel: nat)
    requires
        call_lambda(env, name, id, ts, fuel) is Ok,
    ensures
        call_lambda(env, name, id, ts, fuel + 1) == call_lambda(env, name, id, ts, fuel),
    decreases 2 * fuel, no_expr(), 2nat,
{
    lemma_specialize_step(env, Callee::Lambda(id), ts, fuel);
}

proof fn lemma_apply_step(env: Environment, scope: Seq<Binding>, name: Symbol, ts: Seq<Type>, fuel: nat)
    requires
        apply(env, scope, name, ts, fuel) is Ok,
    ensures
        apply(env, scope, name, ts, fuel + 1) == apply(env, scope, name, ts, fuel),
    decreases 2 * fuel, no_expr(), 3nat,
{
    match lookup(scope, name) {
        Some(Type::Closure(id)) => {
            lemma_call_lambda_step(env, name, id, ts, fuel);
        },
        Some(Type::FnItem(s)) => {
            lemma_call_named_step(env, s, ts, fuel);
        },
        Some(_) => {},
        None => {
            lemma_call_named_step(env, name, ts, fuel);
        },
    }
}

proof fn lemma_list_step(
    env: Environment,
    scope: Seq<Binding>,
    expect: Option<Type>,
    es: Seq<Expr>,
    k: nat,
    fuel: nat,
)
    requires
        infer_list(env, scope, expect, es, k, fuel) is Ok,
    ensures
        infer_list(env, scope, expect, es, k, fuel + 1) == infer_list(env, scope, expect, es, k, fuel),
    decreases 2 * fuel + 1, es, k,
{
    if k == 0 || k > es.len() {
    } else {
        lemma_list_step(env, scope, expect, es, (k - 1) as nat, fuel);
        lemma_infer_step(env, scope, expect, es[k - 1], fuel);
    }
}

proof fn lemma_block_step(
    env: Environment,
    scope: Seq<Binding>,
    expect: Option<Type>,
    stmts: Seq<Expr>,
    k: nat,
    fuel: nat,
)
    requires
        infer_block(env, scope, expect, stmts, k, fuel) is Ok,
    ensures
        infer_block(env, scope, expect, stmts, k, fuel + 1) == infer_block(
            env,
            scope,
            expect,
            stmts,
            k,
            fuel,
        ),
    decreases 2 * fuel + 1, stmts, k,
{
    if k == 0 || k > stmts.len() {
    } else {
        lemma_block_step(env, scope, expect, stmts, (k - 1) as nat, fuel);
        let done = infer_block(env, scope, expect, stmts, (k - 1) as nat, fuel)->Ok_0;
        match stmts[k - 1] {
            Expr::Let(x, value) => {
                lemma_infer_step(env, done.scope, expect, *value, fuel);
            },
            stmt => {
                lemma_infer_step(env, done.scope, expect, stmt, fuel);
            },
        }
    }
}

proof fn lemma_length_step(
    env: Environment,
    scope: Seq<Binding>,
    expect: Option<Type>,
    len: Expr,
    fuel: nat,
)
    requires
        infer_length(env, scope, expect, len, fuel) is Ok,
    ensures
        infer_length(env, scope, expect, len, fuel + 1) == infer_length(env, scope, expect, len, fuel),
    decreases 2 * fuel + 1, len, 1nat,
{
    match len {
        Expr::IntLit(_) => {},
        Expr::Field(x, _) => {
            lemma_infer_step(env, scope, expect, *x, fuel);
        },
        _ => {
            lemma_infer_step(env, scope, expect, len, fuel);
        },
    }
}

/// An expression that types within some nesting limit types the same within
/// the next larger one.
pub proof fn lemma_infer_step(
    env: Environment,
    scope: Seq<Binding>,
    expect: Option<Type>,
    e: Expr,
    fuel: nat,
)
    requires
        infer(env, scope, expect, e, fuel) is Ok,
    ensures
        infer(env, scope, expect, e, fuel + 1) == infer(env, scope, expect, e, fuel),
    decreases 2 * fuel + 1, e, 0nat,
{
    match e {
        Expr::Call(name, args) => {
            lemma_list_step(env, scope, expect, args@, args@.len(), fuel);
            let a = infer_list(env, scope, expect, args@, args@.len(), fuel)->Ok_0;
            lemma_apply_step(env, scope, name, a.types, fuel);
        },
        Expr::Field(x, _) => {
            lemma_infer_step(env, scope, expect, *x, fuel);
        },
        Expr::Index(x, i) => {
            lemma_infer_step(env, scope, expect, *x, fuel);
            lemma_infer_step(env, scope, expect, *i, fuel);
        },
        Expr::ArrayLit(items) => {
            lemma_list_step(env, scope, expect, items@, items@.len(), fuel);
        },
        Expr::ArrayRepeat(item, _) => {
            lemma_infer_step(env, scope, expect, *item, fuel);
        },
        Expr::ArrayGen(i, body, len) => {
            lemma_length_step(env, scope, expect, *len, fuel);
            lemma_infer_step(env, scope.push(Binding { name: i, ty: Type::Int }), expect, *body, fuel);
        },
        Expr::Let(_, value) => {
            lemma_infer_step(env, scope, expect, *value, fuel);
        },
        Expr::Block(stmts) => {
            lemma_block_step(env, scope, expect, stmts@, stmts@.len(), fuel);
        },
        Expr::If(cond, then, other) => {
            lemma_infer_step(env, scope, expect, *cond, fuel);
            lemma_infer_step(env, scope, expect, *then, fuel);
            match other {
                Some(alt) => {
                    lemma_infer_step(env, scope, expect, *alt, fuel);
                },
                None => {},
            }
        },
        Expr::Return(value) => {
            lemma_infer_step(env, scope, expect, *value, fuel);
        },
        _ => {},
    }
}

/// An expression that types within some nesting limit types the same within
/// every larger one.
pub proof fn lemma_type_of_mono(env: Environment, e: Expr, fuel: nat, more: nat)
    requires
        fuel <= more,
        type_of(env, e, fuel) is Ok,
    ensures
        type_of(env, e, more) == type_of(env, e, fuel),
    decreases more - fuel,
{
    if fuel < more {
        lemma_type_of_mono(env, e, fuel, (more - 1) as nat);
        lemma_infer_step(env, Seq::empty(), None, e, (more - 1) as nat);
    }
}

} // verus!
