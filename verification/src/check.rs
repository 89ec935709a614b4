//! The type checker: assigns a type to every expression, bottom-up, and
//! builds the typed representation on the way.
//!
//! Calls and operator uses go through overload resolution; a call of a
//! generic function, of a function with an inferred result type or of an
//! inline function types the callee's body under the argument types, once per
//! distinct list of types: the result is kept in the cache and used again.

use vstd::prelude::*;
use crate::ast::{Binding, Body, Expr, Signature};
use crate::common::{candidates, find_common, uniform_params};
use crate::env::Environment;
use crate::lower::{
    body_error_of, cache_ok, cache_step, concat, conclude_body, convert_args, converted_type,
    expected_of, find_entry, lemma_extends_trans, same_under, store, wrap,
};
use crate::mir::{
    call_resolved, lemma_mirror_all, lemma_mirrors_strip, lemma_sound_all, lemma_sound_extends,
    mirrors, operand_types, plain, sound, strip, unified, Mir, MirNode, Specialization, Target,
};
use crate::overload::{conversion_of, conversion_views, convert, rate, resolve, Resolution};
use crate::scope::{find_binding, find_field, is_declared, is_declared_with};
use crate::types::{duplicate_types, Symbol, Type, LEN};
use crate::typing::{
    apply, binding_names, branch_type, call_lambda, call_named, call_result, common_type, element_type,
    fits, infer, infer_block, infer_length, infer_list, instantiate, is_closed, is_common,
    lemma_specialize_mono, literal_type, no_expr, parameter_scope, specialize_spec, type_of, BlockTyping,
    Callee, LengthTyping, ListTyping, TypeError, Typing,
};

verus! {

/// A typed expression with the types that its `return` sites hand to a
/// function whose result type is inferred.
pub struct Typed {
    pub mir: Mir,
    pub exits: Vec<Type>,
}

/// A typed list of expressions.
pub struct TypedList {
    pub mirs: Vec<Mir>,
    pub types: Vec<Type>,
    pub exits: Vec<Type>,
}

/// A typed generator length.
pub struct TypedLength {
    pub length: Option<usize>,
    pub mir: Mir,
    pub exits: Vec<Type>,
}

/// A resolved call: its result type, what it runs, and its arguments under
/// their conversions.
pub struct Applied {
    pub ty: Type,
    pub target: Target,
    pub args: Vec<Mir>,
}

/// Whether the answer `r` for expression `e` is what the typing
/// rules say.
pub open spec fn agrees(r: Result<Typed, TypeError>, s: Result<Typing, TypeError>, e: Expr) -> bool {
    match r {
        Ok(t) => s is Ok && s->Ok_0.ty == t.mir.ty && s->Ok_0.exits =~= t.exits@ && mirrors(t.mir, e),
        Err(err) => s == Err::<Typing, TypeError>(err),
    }
}

/// What holds after expression `e` was answered with `r`: the
/// cache has grown soundly, the answer is what the typing rules say, and a
/// typed expression is sound.
pub open spec fn checked(
    env: Environment,
    before: Seq<Specialization>,
    after: Seq<Specialization>,
    r: Result<Typed, TypeError>,
    s: Result<Typing, TypeError>,
    e: Expr,
) -> bool {
    &&& cache_step(env, before, after)
    &&& agrees(r, s, e)
    &&& r matches Ok(t) ==> sound(env, after, t.mir) && plain(t.mir)
}

/// Whether the typed arguments `mirs` have the types `types`, are sound and
/// are not converted yet.
pub open spec fn arguments_ok(
    env: Environment,
    cache: Seq<Specialization>,
    mirs: Seq<Mir>,
    types: Seq<Type>,
) -> bool {
    &&& mirs.len() == types.len()
    &&& forall|k: int| 0 <= k < mirs.len() ==> (#[trigger] mirs[k]).ty == types[k]
    &&& forall|k: int| 0 <= k < mirs.len() ==> sound(env, cache, #[trigger] mirs[k])
    &&& forall|k: int| 0 <= k < mirs.len() ==> plain(#[trigger] mirs[k])
}

/// Typed arguments stay in order when the cache grows.
pub proof fn lemma_arguments_extend(
    env: Environment,
    before: Seq<Specialization>,
    after: Seq<Specialization>,
    mirs: Seq<Mir>,
    types: Seq<Type>,
)
    requires
        crate::mir::extends(before, after),
        arguments_ok(env, before, mirs, types),
    ensures
        arguments_ok(env, after, mirs, types),
{
    assert forall|k: int| 0 <= k < mirs.len() implies sound(env, after, #[trigger] mirs[k]) by {
        lemma_sound_extends(env, before, after, mirs[k]);
    }
    assert forall|k: int| 0 <= k < mirs.len() implies plain(#[trigger] mirs[k]) by {
        assert(sound(env, before, mirs[k]));
    }
}

/// The call node that a resolved call stands for.
pub open spec fn call_node(a: Applied) -> Mir {
    Mir { ty: a.ty, node: MirNode::Call(0, a.target, a.args) }
}

/// Whether the answer for a call is what the rules say of it.
pub open spec fn applied_agrees(
    r: Result<Applied, TypeError>,
    s: Result<Type, TypeError>,
    mirs: Seq<Mir>,
) -> bool {
    match r {
        Ok(a) => s == Ok::<Type, TypeError>(a.ty) && same_under(a.args@, mirs),
        Err(err) => s == Err::<Type, TypeError>(err),
    }
}

proof fn lemma_list_error(
    env: Environment,
    scope: Seq<Binding>,
    expect: Option<Type>,
    es: Seq<Expr>,
    k: nat,
    n: nat,
    fuel: nat,
)
    requires
        k <= n <= es.len(),
        infer_list(env, scope, expect, es, k, fuel) is Err,
    ensures
        infer_list(env, scope, expect, es, n, fuel) == infer_list(env, scope, expect, es, k, fuel),
    decreases n - k,
{
    if k < n {
        lemma_list_error(env, scope, expect, es, k, (n - 1) as nat, fuel);
    }
}

proof fn lemma_block_error(
    env: Environment,
    scope: Seq<Binding>,
    expect: Option<Type>,
    stmts: Seq<Expr>,
    k: nat,
    n: nat,
    fuel: nat,
)
    requires
        k <= n <= stmts.len(),
        infer_block(env, scope, expect, stmts, k, fuel) is Err,
    ensures
        infer_block(env, scope, expect, stmts, n, fuel) == infer_block(env, scope, expect, stmts, k, fuel),
    decreases n - k,
{
    if k < n {
        lemma_block_error(env, scope, expect, stmts, k, (n - 1) as nat, fuel);
    }
}

fn leaf(ty: Type, node: MirNode) -> (r: Typed)
    ensures
        r.mir.ty == ty,
        r.mir.node == node,
        r.exits@ =~= Seq::<Type>::empty(),
{
    Typed { mir: Mir { ty, node }, exits: Vec::new() }
}

fn is_int(t: &Type) -> (r: bool)
    ensures
        r == (*t == Type::Int),
{
    match t {
        Type::Int => true,
        _ => false,
    }
}

fn is_bool(t: &Type) -> (r: bool)
    ensures
        r == (*t == Type::Bool),
{
    match t {
        Type::Bool => true,
        _ => false,
    }
}

fn is_unit_or_never(t: &Type) -> (r: bool)
    ensures
        r == (*t == Type::Unit || *t == Type::Never),
{
    match t {
        Type::Unit => true,
        Type::Never => true,
        _ => false,
    }
}

fn is_never(t: &Type) -> (r: bool)
    ensures
        r == (*t == Type::Never),
{
    match t {
        Type::Never => true,
        _ => false,
    }
}

/// Decides `element_type`.
fn element_of(t: &Type) -> (r: Result<Type, TypeError>)
    ensures
        r == element_type(*t),
{
    match t {
        Type::FixedArray(e, _) => if e.open() {
            Err(TypeError::TypeMismatch)
        } else {
            Ok(e.duplicate())
        },
        Type::DynArray(e) => if e.open() {
            Err(TypeError::TypeMismatch)
        } else {
            Ok(e.duplicate())
        },
        _ => Err(TypeError::TypeMismatch),
    }
}

/// Decides `is_closed`.
fn closed(sig: &Signature) -> (r: bool)
    ensures
        r == is_closed(*sig),
{
    match &sig.result {
        None => {
            return false;
        },
        Some(t) => {
            if t.open() {
                return false;
            }
        },
    }
    let mut k: usize = 0;
    while k < sig.params.len()
        invariant
            k <= sig.params@.len(),
            sig.result is Some && !sig.result->0.is_open(),
            forall|j: int| 0 <= j < k ==> !(#[trigger] sig.params@[j]).ty.is_open(),
        decreases sig.params@.len() - k,
    {
        if sig.params[k].ty.open() {
            return false;
        }
        k += 1;
    }
    true
}

/// Whether some type of the list is open.
fn some_open(types: &Vec<Type>) -> (r: bool)
    ensures
        r == exists|k: int| 0 <= k < types@.len() && (#[trigger] types@[k]).is_open(),
{
    let mut k: usize = 0;
    while k < types.len()
        invariant
            k <= types@.len(),
            forall|j: int| 0 <= j < k ==> !(#[trigger] types@[j]).is_open(),
        decreases types@.len() - k,
    {
        if types[k].open() {
            return true;
        }
        k += 1;
    }
    false
}

/// The parameter types under which a body is typed.
fn instantiated(params: &Vec<Binding>, ts: &Vec<Type>) -> (r: Vec<Type>)
    requires
        params@.len() == ts@.len(),
    ensures
        r@ == instantiate(params@, ts@),
{
    let mut out: Vec<Type> = Vec::new();
    let mut k: usize = 0;
    while k < params.len()
        invariant
            k <= params@.len(),
            params@.len() == ts@.len(),
            out@.len() == k,
            forall|j: int| 0 <= j < k ==> out@[j] == instantiate(params@, ts@)[j],
        decreases params@.len() - k,
    {
        if params[k].ty.open() {
            out.push(ts[k].duplicate());
        } else {
            out.push(params[k].ty.duplicate());
        }
        k += 1;
    }
    assert(out@ =~= instantiate(params@, ts@));
    out
}

/// The scope of a function body: its parameters under the given types.
fn function_scope(params: &Vec<Binding>, types: &Vec<Type>) -> (r: Vec<Binding>)
    requires
        params@.len() == types@.len(),
    ensures
        r@ == parameter_scope(binding_names(params@), types@),
{
    let mut out: Vec<Binding> = Vec::new();
    let mut k: usize = 0;
    while k < params.len()
        invariant
            k <= params@.len(),
            params@.len() == types@.len(),
            out@.len() == k,
            forall|j: int|
                0 <= j < k ==> out@[j] == (Binding { name: params@[j].name, ty: types@[j] }),
        decreases params@.len() - k,
    {
        out.push(Binding { name: params[k].name, ty: types[k].duplicate() });
        k += 1;
    }
    assert(out@ =~= parameter_scope(binding_names(params@), types@));
    out
}

/// The scope of an inline function's body.
fn lambda_scope(names: &Vec<Symbol>, types: &Vec<Type>) -> (r: Vec<Binding>)
    requires
        names@.len() == types@.len(),
    ensures
        r@ == parameter_scope(names@, types@),
{
    let mut out: Vec<Binding> = Vec::new();
    let mut k: usize = 0;
    while k < names.len()
        invariant
            k <= names@.len(),
            names@.len() == types@.len(),
            out@.len() == k,
            forall|j: int| 0 <= j < k ==> out@[j] == (Binding { name: names@[j], ty: types@[j] }),
        decreases names@.len() - k,
    {
        out.push(Binding { name: names[k], ty: types[k].duplicate() });
        k += 1;
    }
    assert(out@ =~= parameter_scope(names@, types@));
    out
}

/// A copy of a scope.
fn copy_scope(scope: &Vec<Binding>) -> (r: Vec<Binding>)
    ensures
        r@ == scope@,
{
    crate::ast::duplicate_bindings(scope)
}

/// Brings the nodes `mirs` of types `types` to the candidate `t` that
/// `find_common` chose for them.
fn bring_to(
    env: &Environment,
    mirs: Vec<Mir>,
    types: &Vec<Type>,
    t: &Type,
    Ghost(cands): Ghost<Seq<Type>>,
    Ghost(cache): Ghost<Seq<Specialization>>,
) -> (r: Vec<Mir>)
    requires
        env.graph_ok(),
        arguments_ok(*env, cache, mirs@, types@),
        cands == types@ + env.nodes@,
        common_type(env.rule_edges(), cands, types@) == Some(*t),
    ensures
        same_under(r@, mirs@),
        forall|k: int| 0 <= k < r@.len() ==> sound(*env, cache, #[trigger] r@[k]) && r@[k].ty == *t,
        unified(*env, r@, *t),
{
    let params = uniform_params(t, types.len());
    let ghost plain = mirs@;
    proof {
        assert(is_common(env.rule_edges(), cands, types@, *t));
        assert(fits(env.rule_edges(), types@, *t));
        assert(Seq::new(mirs@.len(), |i: int| mirs@[i].ty) =~= types@);
    }
    match rate(env, &params, types) {
        Some(rating) => {
            let ghost views = conversion_views(rating.conversions@);
            let out = convert_args(env, mirs, rating.conversions, &params, Ghost(cache));
            proof {
                assert(operand_types(out@) =~= types@) by {
                    assert forall|k: int| 0 <= k < out@.len() implies strip(out@[k]).ty == types@[k] by {
                        assert(strip(out@[k]) == strip(plain[k]));
                        assert(crate::mir::plain(plain[k]));
                    }
                }
                assert(unified(*env, out@, *t)) by {
                    reveal(unified);
                    assert forall|k: int| 0 <= k < out@.len() implies conversion_of(
                        env.rule_edges(),
                        operand_types(out@)[k],
                        *t,
                    ) is Some && crate::mir::converts_by(
                        #[trigger] out@[k],
                        conversion_of(env.rule_edges(), operand_types(out@)[k], *t)->0,
                    ) by {
                        assert(crate::mir::plain(plain[k]));
                        assert(params@[k].ty == *t);
                        assert(conversion_of(env.rule_edges(), types@[k], params@[k].ty) is Some);
                        assert(views[k] == conversion_of(env.rule_edges(), types@[k], params@[k].ty)->0);
                    }
                }
            }
            out
        },
        None => mirs,
    }
}

/// The type of an array literal with the given elements, and the elements
/// brought to the common element type.
fn unify(env: &Environment, mirs: Vec<Mir>, types: &Vec<Type>, Ghost(cache): Ghost<Seq<Specialization>>) -> (r:
    Result<(Type, Vec<Mir>), TypeError>)
    requires
        env.graph_ok(),
        arguments_ok(*env, cache, mirs@, types@),
    ensures
        match r {
            Ok(p) => {
                &&& literal_type(*env, types@) == Ok::<Type, TypeError>(p.0)
                &&& same_under(p.1@, mirs@)
                &&& p.0 matches Type::FixedArray(t, n) && n == p.1@.len() && (forall|k: int|
                    0 <= k < p.1@.len() ==> sound(*env, cache, #[trigger] p.1@[k]) && p.1@[k].ty == *t)
                    && (p.1@.len() > 0 ==> unified(*env, p.1@, *t))
            },
            Err(e) => literal_type(*env, types@) == Err::<Type, TypeError>(e),
        },
{
    if types.len() == 0 {
        return Ok((Type::FixedArray(Box::new(Type::Any), 0), mirs));
    }
    let cands = candidates(env, types);
    match find_common(env, &cands, types) {
        None => Err(TypeError::TypeMismatch),
        Some(t) => {
            let items = bring_to(env, mirs, types, &t, Ghost(cands@), Ghost(cache));
            Ok((Type::FixedArray(Box::new(t), types.len()), items))
        },
    }
}

/// The type of an `if` with the two given branches, and the branches
/// brought to it.
fn join(env: &Environment, a: Mir, b: Mir, Ghost(cache): Ghost<Seq<Specialization>>) -> (r: Result<
    (Type, Mir, Mir),
    TypeError,
>)
    requires
        env.graph_ok(),
        sound(*env, cache, a),
        sound(*env, cache, b),
        plain(a),
        plain(b),
    ensures
        match r {
            Ok(p) => {
                &&& branch_type(*env, a.ty, b.ty) == Ok::<Type, TypeError>(p.0)
                &&& strip(p.1) == strip(a)
                &&& strip(p.2) == strip(b)
                &&& sound(*env, cache, p.1)
                &&& sound(*env, cache, p.2)
                &&& if p.1.ty == Type::Never {
                    p.0 == p.2.ty
                } else if p.2.ty == Type::Never {
                    p.0 == p.1.ty
                } else {
                    p.0 == p.1.ty && p.0 == p.2.ty && unified(*env, seq![p.1, p.2], p.0)
                }
            },
            Err(e) => branch_type(*env, a.ty, b.ty) == Err::<Type, TypeError>(e),
        },
{
    if is_never(&a.ty) {
        return Ok((b.ty.duplicate(), a, b));
    }
    if is_never(&b.ty) {
        return Ok((a.ty.duplicate(), a, b));
    }
    let mut types: Vec<Type> = Vec::new();
    types.push(a.ty.duplicate());
    types.push(b.ty.duplicate());
    assert(types@ =~= seq![a.ty, b.ty]);
    let cands = candidates(env, &types);
    match find_common(env, &cands, &types) {
        None => Err(TypeError::TypeMismatch),
        Some(t) => {
            let mut mirs: Vec<Mir> = Vec::new();
            mirs.push(a);
            mirs.push(b);
            let mut both = bring_to(env, mirs, &types, &t, Ghost(cands@), Ghost(cache));
            proof {
                assert(both@[0].ty == t && both@[1].ty == t);
                assert(sound(*env, cache, both@[0]) && sound(*env, cache, both@[1]));
                assert(strip(both@[0]) == strip(a) && strip(both@[1]) == strip(b));
                assert(both@ =~= seq![both@[0], both@[1]]);
            }
            let y = both.pop().unwrap();
            let x = both.pop().unwrap();
            Ok((t, x, y))
        },
    }
}

/// Types `callee`'s body under parameter types `types`, or takes the result
/// from the cache. Yields the result type and the specialization's position
/// in the cache.
pub fn specialize(
    env: &Environment,
    cache: &mut Vec<Specialization>,
    callee: Callee,
    types: Vec<Type>,
    fuel: usize,
) -> (r: Result<(Type, usize), TypeError>)
    requires
        env.graph_ok(),
        cache_ok(*env, old(cache)@),
    ensures
        cache_step(*env, old(cache)@, final(cache)@),
        match r {
            Ok(p) => {
                &&& specialize_spec(*env, callee, types@, fuel as nat) == Ok::<Type, TypeError>(p.0)
                &&& p.1 < final(cache)@.len()
                &&& final(cache)@[p.1 as int].callee == callee
                &&& final(cache)@[p.1 as int].params@ == types@
                &&& final(cache)@[p.1 as int].result == p.0
            },
            Err(e) => specialize_spec(*env, callee, types@, fuel as nat) == Err::<Type, TypeError>(e),
        },
    decreases 2 * fuel, no_expr(), 0nat,
{
    let ghost start = cache@;
    match find_entry(cache, &callee, &types) {
        Some(at) => {
            if cache[at].fuel <= fuel {
                proof {
                    lemma_specialize_mono(*env, callee, types@, cache@[at as int].fuel as nat, fuel as nat);
                }
                return Ok((cache[at].result.duplicate(), at));
            }
        },
        None => {},
    }
    if fuel == 0 {
        return Err(TypeError::UnresolvedRecursiveGeneric);
    }
    let outcome: Result<(Type, Mir), TypeError> = match callee {
        Callee::Function(i) => {
            if i >= env.fns.len() || env.fns[i].params.len() != types.len() {
                Err(TypeError::TypeMismatch)
            } else {
                match &env.fns[i].body {
                    Body::Code(body) => {
                        let scope = function_scope(&env.fns[i].params, &types);
                        let expect = expected_of(&env.fns[i].result);
                        match check(env, cache, &scope, &expect, body, fuel - 1) {
                            Err(e) => Err(body_error_of(e)),
                            Ok(t) => match conclude_body(env, &t.mir.ty, &t.exits, &env.fns[i].result) {
                                Err(e) => Err(e),
                                Ok(result) => Ok((result, t.mir)),
                            },
                        }
                    },
                    _ => Err(TypeError::TypeMismatch),
                }
            }
        },
        Callee::Lambda(id) => {
            if id >= env.lambdas.len() || env.lambdas[id].params.len() != types.len() {
                Err(TypeError::TypeMismatch)
            } else {
                let scope = lambda_scope(&env.lambdas[id].params, &types);
                let expect: Option<Type> = None;
                match check(env, cache, &scope, &expect, &env.lambdas[id].body, fuel - 1) {
                    Err(e) => Err(body_error_of(e)),
                    Ok(t) => match conclude_body(env, &t.mir.ty, &t.exits, &expect) {
                        Err(e) => Err(e),
                        Ok(result) => Ok((result, t.mir)),
                    },
                }
            }
        },
    };
    match outcome {
        Err(e) => Err(e),
        Ok(p) => {
            let ghost middle = cache@;
            let result = p.0.duplicate();
            let at = store(env, cache, callee, types, fuel, p.0, p.1);
            proof {
                lemma_extends_trans(start, middle, cache@);
            }
            Ok((result, at))
        },
    }
}

/// Whether `target` is what a call of signature `i` with arguments of types
/// `ts` runs, with result type `ty`: the signature itself, or the
/// specialization of its body under the instantiated parameter types.
pub open spec fn target_ok(
    env: Environment,
    cache: Seq<Specialization>,
    i: usize,
    ts: Seq<Type>,
    ty: Type,
    target: Target,
) -> bool {
    match target {
        Target::Signature(j) => j == i && env.fns@[i as int].result == Some(ty),
        Target::Specialization(at) => {
            &&& at < cache.len()
            &&& cache[at as int].callee == Callee::Function(i)
            &&& cache[at as int].result == ty
            &&& cache[at as int].params@ == instantiate(env.fns@[i as int].params@, ts)
        },
    }
}

/// The result type and target of a call that resolved to signature `i`.
fn call_signature(
    env: &Environment,
    cache: &mut Vec<Specialization>,
    i: usize,
    ts: &Vec<Type>,
    fuel: usize,
) -> (r: Result<(Type, Target), TypeError>)
    requires
        env.graph_ok(),
        cache_ok(*env, old(cache)@),
        i < env.fns@.len(),
        env.fns@[i as int].params@.len() == ts@.len(),
    ensures
        cache_step(*env, old(cache)@, final(cache)@),
        match r {
            Ok(p) => call_result(*env, i, ts@, fuel as nat) == Ok::<Type, TypeError>(p.0) && target_ok(
                *env,
                final(cache)@,
                i,
                ts@,
                p.0,
                p.1,
            ),
            Err(e) => call_result(*env, i, ts@, fuel as nat) == Err::<Type, TypeError>(e),
        },
    decreases 2 * fuel, no_expr(), 1nat,
{
    match &env.fns[i].body {
        Body::Code(_) => {
            if closed(&env.fns[i]) {
                match &env.fns[i].result {
                    Some(t) => Ok((t.duplicate(), Target::Signature(i))),
                    None => Err(TypeError::TypeMismatch),
                }
            } else {
                let types = instantiated(&env.fns[i].params, ts);
                match specialize(env, cache, Callee::Function(i), types, fuel) {
                    Ok(p) => Ok((p.0, Target::Specialization(p.1))),
                    Err(e) => Err(e),
                }
            }
        },
        _ => match &env.fns[i].result {
            Some(t) => if !t.open() {
                Ok((t.duplicate(), Target::Signature(i)))
            } else {
                Err(TypeError::TypeMismatch)
            },
            None => Err(TypeError::TypeMismatch),
        },
    }
}

/// A call of the declared symbol `name`.
fn call_symbol(
    env: &Environment,
    cache: &mut Vec<Specialization>,
    name: Symbol,
    mirs: Vec<Mir>,
    types: &Vec<Type>,
    fuel: usize,
) -> (r: Result<Applied, TypeError>)
    requires
        env.graph_ok(),
        cache_ok(*env, old(cache)@),
        arguments_ok(*env, old(cache)@, mirs@, types@),
    ensures
        cache_step(*env, old(cache)@, final(cache)@),
        applied_agrees(r, call_named(*env, name, types@, fuel as nat), mirs@),
        r matches Ok(a) ==> sound(*env, final(cache)@, call_node(a)),
    decreases 2 * fuel, no_expr(), 2nat,
{
    let ghost start = cache@;
    if !is_declared(env, name) {
        return Err(TypeError::UndefinedSymbol(name));
    }
    if !is_declared_with(env, name, types.len()) {
        return Err(TypeError::ArityMismatch(name));
    }
    match resolve(env, name, types) {
        Resolution::NoMatch => Err(TypeError::NoMatchingOverload(name)),
        Resolution::Ambiguous => Err(TypeError::AmbiguousOverload(name)),
        Resolution::Match(i, convs) => {
            match call_signature(env, cache, i, types, fuel) {
                Err(e) => Err(e),
                Ok(p) => {
                    proof {
                        lemma_arguments_extend(*env, start, cache@, mirs@, types@);
                        assert(Seq::new(mirs@.len(), |k: int| mirs@[k].ty) =~= types@);
                    }
                    let ghost plain = mirs@;
                    let ghost views = conversion_views(convs@);
                    let args = convert_args(env, mirs, convs, &env.fns[i].params, Ghost(cache@));
                    let done = Applied { ty: p.0, target: p.1, args };
                    proof {
                        lemma_sound_all(*env, cache@, done.args@, done.args@.len());
                        assert(operand_types(done.args@) =~= types@) by {
                            assert forall|k: int| 0 <= k < done.args@.len() implies strip(
                                done.args@[k],
                            ).ty == types@[k] by {
                                assert(strip(done.args@[k]) == strip(plain[k]));
                                assert(crate::mir::plain(plain[k]));
                            }
                        }
                        assert(call_resolved(*env, i, done.args@)) by {
                            reveal(call_resolved);
                            assert forall|k: int| 0 <= k < done.args@.len() implies crate::mir::converts_by(
                                #[trigger] done.args@[k],
                                views[k],
                            ) by {
                                assert(crate::mir::plain(plain[k]));
                            }
                        }
                        let params = env.fns@[i as int].params@;
                        assert forall|k: int| 0 <= k < done.args@.len() implies (#[trigger] done.args@[k]).ty
                            == converted_type(types@[k], params[k].ty) by {
                            assert(plain[k].ty == types@[k]);
                        }
                        match done.target {
                            Target::Specialization(at) => {
                                assert forall|k: int| 0 <= k < done.args@.len() implies (
                                #[trigger] done.args@[k]).ty == cache@[at as int].params@[k] by {
                                    assert(instantiate(params, types@)[k] == converted_type(
                                        types@[k],
                                        params[k].ty,
                                    ));
                                }
                            },
                            Target::Signature(_) => {},
                        }
                    }
                    Ok(done)
                },
            }
        },
    }
}

/// A call of inline function `id` through the local `name`.
fn call_closure(
    env: &Environment,
    cache: &mut Vec<Specialization>,
    name: Symbol,
    id: usize,
    mirs: Vec<Mir>,
    types: &Vec<Type>,
    fuel: usize,
) -> (r: Result<Applied, TypeError>)
    requires
        env.graph_ok(),
        cache_ok(*env, old(cache)@),
        arguments_ok(*env, old(cache)@, mirs@, types@),
    ensures
        cache_step(*env, old(cache)@, final(cache)@),
        applied_agrees(r, call_lambda(*env, name, id, types@, fuel as nat), mirs@),
        r matches Ok(a) ==> sound(*env, final(cache)@, call_node(a)),
    decreases 2 * fuel, no_expr(), 2nat,
{
    let ghost start = cache@;
    if id >= env.lambdas.len() {
        return Err(TypeError::UndefinedSymbol(name));
    }
    if env.lambdas[id].params.len() != types.len() {
        return Err(TypeError::ArityMismatch(name));
    }
    if some_open(types) {
        return Err(TypeError::TypeMismatch);
    }
    match specialize(env, cache, Callee::Lambda(id), duplicate_types(types), fuel) {
        Err(e) => Err(e),
        Ok(p) => {
            proof {
                lemma_arguments_extend(*env, start, cache@, mirs@, types@);
                lemma_sound_all(*env, cache@, mirs@, mirs@.len());
            }
            Ok(Applied { ty: p.0, target: Target::Specialization(p.1), args: mirs })
        },
    }
}

/// A call of `name` with the given typed arguments.
fn call(
    env: &Environment,
    cache: &mut Vec<Specialization>,
    scope: &Vec<Binding>,
    name: Symbol,
    mirs: Vec<Mir>,
    types: &Vec<Type>,
    fuel: usize,
) -> (r: Result<Applied, TypeError>)
    requires
        env.graph_ok(),
        cache_ok(*env, old(cache)@),
        arguments_ok(*env, old(cache)@, mirs@, types@),
    ensures
        cache_step(*env, old(cache)@, final(cache)@),
        applied_agrees(r, apply(*env, scope@, name, types@, fuel as nat), mirs@),
        r matches Ok(a) ==> sound(*env, final(cache)@, call_node(a)),
    decreases 2 * fuel, no_expr(), 3nat,
{
    match find_binding(scope, name) {
        Some(Type::Closure(id)) => call_closure(env, cache, name, id, mirs, types, fuel),
        Some(Type::FnItem(s)) => call_symbol(env, cache, s, mirs, types, fuel),
        Some(_) => Err(TypeError::TypeMismatch),
        None => call_symbol(env, cache, name, mirs, types, fuel),
    }
}

/// Types the expressions `es` from left to right.
fn check_list(
    env: &Environment,
    cache: &mut Vec<Specialization>,
    scope: &Vec<Binding>,
    expect: &Option<Type>,
    es: &Vec<Expr>,
    fuel: usize,
) -> (r: Result<TypedList, TypeError>)
    requires
        env.graph_ok(),
        cache_ok(*env, old(cache)@),
    ensures
        cache_step(*env, old(cache)@, final(cache)@),
        match r {
            Ok(l) => {
                let s = infer_list(*env, scope@, *expect, es@, es@.len(), fuel as nat);
                &&& s is Ok
                &&& s->Ok_0.types =~= l.types@
                &&& s->Ok_0.exits =~= l.exits@
                &&& l.mirs@.len() == es@.len()
                &&& arguments_ok(*env, final(cache)@, l.mirs@, l.types@)
                &&& forall|i: int| 0 <= i < es@.len() ==> mirrors(#[trigger] l.mirs@[i], es@[i])
            },
            Err(e) => infer_list(*env, scope@, *expect, es@, es@.len(), fuel as nat) == Err::<
                ListTyping,
                TypeError,
            >(e),
        },
    decreases 2 * fuel + 1, es@, 0nat,
{
    let ghost start = cache@;
    let mut mirs: Vec<Mir> = Vec::new();
    let mut types: Vec<Type> = Vec::new();
    let mut exits: Vec<Type> = Vec::new();
    let mut i: usize = 0;
    while i < es.len()
        invariant
            i <= es@.len(),
            env.graph_ok(),
            start == old(cache)@,
            cache_step(*env, start, cache@),
            infer_list(*env, scope@, *expect, es@, i as nat, fuel as nat) is Ok,
            infer_list(*env, scope@, *expect, es@, i as nat, fuel as nat)->Ok_0.types =~= types@,
            infer_list(*env, scope@, *expect, es@, i as nat, fuel as nat)->Ok_0.exits =~= exits@,
            mirs@.len() == i,
            arguments_ok(*env, cache@, mirs@, types@),
            forall|j: int| 0 <= j < i ==> mirrors(#[trigger] mirs@[j], es@[j]),
        decreases es@.len() - i,
    {
        let ghost before = cache@;
        let ghost done = mirs@;
        match check(env, cache, scope, expect, &es[i], fuel) {
            Err(e) => {
                proof {
                    lemma_extends_trans(start, before, cache@);
                    lemma_list_error(
                        *env,
                        scope@,
                        *expect,
                        es@,
                        (i + 1) as nat,
                        es@.len(),
                        fuel as nat,
                    );
                }
                return Err(e);
            },
            Ok(t) => {
                proof {
                    lemma_extends_trans(start, before, cache@);
                    lemma_arguments_extend(*env, before, cache@, mirs@, types@);
                }
                types.push(t.mir.ty.duplicate());
                exits = concat(exits, t.exits);
                mirs.push(t.mir);
                proof {
                    assert forall|k: int| 0 <= k < mirs@.len() implies sound(
                        *env,
                        cache@,
                        #[trigger] mirs@[k],
                    ) && mirs@[k].ty == types@[k] && plain(mirs@[k]) by {
                        if k < done.len() {
                            assert(mirs@[k] == done[k]);
                        }
                    }
                }
            },
        }
        i += 1;
    }
    Ok(TypedList { mirs, types, exits })
}

/// The type of a block whose statements are `mirs`.
pub open spec fn block_type(mirs: Seq<Mir>) -> Type {
    if mirs.len() == 0 {
        Type::Unit
    } else {
        mirs.last().ty
    }
}

/// Types the statements of a block in order.
fn check_block(
    env: &Environment,
    cache: &mut Vec<Specialization>,
    scope: &Vec<Binding>,
    expect: &Option<Type>,
    stmts: &Vec<Expr>,
    fuel: usize,
) -> (r: Result<(Vec<Mir>, Type, Vec<Type>), TypeError>)
    requires
        env.graph_ok(),
        cache_ok(*env, old(cache)@),
    ensures
        cache_step(*env, old(cache)@, final(cache)@),
        match r {
            Ok(p) => {
                let s = infer_block(*env, scope@, *expect, stmts@, stmts@.len(), fuel as nat);
                &&& s is Ok
                &&& s->Ok_0.ty == p.1
                &&& s->Ok_0.exits =~= p.2@
                &&& p.0@.len() == stmts@.len()
                &&& p.1 == block_type(p.0@)
                &&& forall|i: int| 0 <= i < stmts@.len() ==> mirrors(#[trigger] p.0@[i], stmts@[i])
                &&& forall|i: int| 0 <= i < stmts@.len() ==> sound(*env, final(cache)@, #[trigger] p.0@[i])
            },
            Err(e) => infer_block(*env, scope@, *expect, stmts@, stmts@.len(), fuel as nat) == Err::<
                BlockTyping,
                TypeError,
            >(e),
        },
    decreases 2 * fuel + 1, stmts@, 0nat,
{
    let ghost start = cache@;
    let mut local = copy_scope(scope);
    let mut mirs: Vec<Mir> = Vec::new();
    let mut last: Type = Type::Unit;
    let mut exits: Vec<Type> = Vec::new();
    let mut i: usize = 0;
    while i < stmts.len()
        invariant
            i <= stmts@.len(),
            env.graph_ok(),
            start == old(cache)@,
            cache_step(*env, start, cache@),
            infer_block(*env, scope@, *expect, stmts@, i as nat, fuel as nat) is Ok,
            infer_block(*env, scope@, *expect, stmts@, i as nat, fuel as nat)->Ok_0.scope =~= local@,
            infer_block(*env, scope@, *expect, stmts@, i as nat, fuel as nat)->Ok_0.ty == last,
            infer_block(*env, scope@, *expect, stmts@, i as nat, fuel as nat)->Ok_0.exits =~= exits@,
            mirs@.len() == i,
            last == block_type(mirs@),
            forall|j: int| 0 <= j < i ==> mirrors(#[trigger] mirs@[j], stmts@[j]),
            forall|j: int| 0 <= j < i ==> sound(*env, cache@, #[trigger] mirs@[j]),
        decreases stmts@.len() - i,
    {
        let ghost before = cache@;
        let ghost done = mirs@;
        match &stmts[i] {
            Expr::Let(x, value) => {
                match check(env, cache, &local, expect, value, fuel) {
                    Err(e) => {
                        proof {
                            lemma_extends_trans(start, before, cache@);
                            lemma_block_error(
                                *env,
                                scope@,
                                *expect,
                                stmts@,
                                (i + 1) as nat,
                                stmts@.len(),
                                fuel as nat,
                            );
                        }
                        return Err(e);
                    },
                    Ok(t) => {
                        proof {
                            lemma_extends_trans(start, before, cache@);
                        }
                        local.push(Binding { name: *x, ty: t.mir.ty.duplicate() });
                        last = Type::Unit;
                        exits = concat(exits, t.exits);
                        mirs.push(Mir { ty: Type::Unit, node: MirNode::Let(*x, Box::new(t.mir)) });
                    },
                }
            },
            stmt => {
                match check(env, cache, &local, expect, stmt, fuel) {
                    Err(e) => {
                        proof {
                            lemma_extends_trans(start, before, cache@);
                            lemma_block_error(
                                *env,
                                scope@,
                                *expect,
                                stmts@,
                                (i + 1) as nat,
                                stmts@.len(),
                                fuel as nat,
                            );
                        }
                        return Err(e);
                    },
                    Ok(t) => {
                        proof {
                            lemma_extends_trans(start, before, cache@);
                        }
                        last = t.mir.ty.duplicate();
                        exits = concat(exits, t.exits);
                        mirs.push(t.mir);
                    },
                }
            },
        }
        proof {
            assert forall|j: int| 0 <= j < mirs@.len() implies sound(*env, cache@, #[trigger] mirs@[j]) by {
                if j < done.len() {
                    assert(mirs@[j] == done[j]);
                    lemma_sound_extends(*env, before, cache@, done[j]);
                }
            }
            assert forall|j: int| 0 <= j < mirs@.len() implies mirrors(#[trigger] mirs@[j], stmts@[j]) by {
                if j < done.len() {
                    assert(mirs@[j] == done[j]);
                }
            }
        }
        i += 1;
    }
    Ok((mirs, last, exits))
}

/// Types the length of an array generator.
fn check_length(
    env: &Environment,
    cache: &mut Vec<Specialization>,
    scope: &Vec<Binding>,
    expect: &Option<Type>,
    len: &Expr,
    fuel: usize,
) -> (r: Result<TypedLength, TypeError>)
    requires
        env.graph_ok(),
        cache_ok(*env, old(cache)@),
    ensures
        cache_step(*env, old(cache)@, final(cache)@),
        match r {
            Ok(l) => {
                let s = infer_length(*env, scope@, *expect, *len, fuel as nat);
                &&& s is Ok
                &&& s->Ok_0.length == l.length
                &&& s->Ok_0.exits =~= l.exits@
                &&& mirrors(l.mir, *len)
                &&& sound(*env, final(cache)@, l.mir)
                &&& l.mir.ty == Type::Int
            },
            Err(e) => infer_length(*env, scope@, *expect, *len, fuel as nat) == Err::<
                LengthTyping,
                TypeError,
            >(e),
        },
    decreases 2 * fuel + 1, *len, 2nat,
{
    match len {
        Expr::IntLit(v) => {
            if *v >= 0 && (*v as u64) <= usize::MAX as u64 {
                Ok(
                    TypedLength {
                        length: Some(*v as usize),
                        mir: Mir { ty: Type::Int, node: MirNode::IntLit(*v) },
                        exits: Vec::new(),
                    },
                )
            } else {
                Err(TypeError::TypeMismatch)
            }
        },
        Expr::Field(x, f) => match check(env, cache, scope, expect, x, fuel) {
            Err(e) => Err(e),
            Ok(t) => {
                let known: Option<usize> = match &t.mir.ty {
                    Type::FixedArray(_, n) => Some(*n),
                    _ => None,
                };
                match known {
                    Some(n) => {
                        if *f == LEN {
                            Ok(
                                TypedLength {
                                    length: Some(n),
                                    mir: Mir {
                                        ty: Type::Int,
                                        node: MirNode::Field(Box::new(t.mir), *f),
                                    },
                                    exits: t.exits,
                                },
                            )
                        } else {
                            Err(TypeError::UndefinedField(*f))
                        }
                    },
                    None => match find_field(env, &t.mir.ty, *f) {
                        Err(e) => Err(e),
                        Ok(ft) => if is_int(&ft) {
                            Ok(
                                TypedLength {
                                    length: None,
                                    mir: Mir { ty: ft, node: MirNode::Field(Box::new(t.mir), *f) },
                                    exits: t.exits,
                                },
                            )
                        } else {
                            Err(TypeError::TypeMismatch)
                        },
                    },
                }
            },
        },
        _ => match check(env, cache, scope, expect, len, fuel) {
            Err(e) => Err(e),
            Ok(t) => if is_int(&t.mir.ty) {
                Ok(TypedLength { length: None, mir: t.mir, exits: t.exits })
            } else {
                Err(TypeError::TypeMismatch)
            },
        },
    }
}

/// Types a call, an operator use or a struct literal.
fn check_call(
    env: &Environment,
    cache: &mut Vec<Specialization>,
    scope: &Vec<Binding>,
    expect: &Option<Type>,
    e: &Expr,
    fuel: usize,
) -> (r: Result<Typed, TypeError>)
    requires
        env.graph_ok(),
        cache_ok(*env, old(cache)@),
        *e is Call,
    ensures
        checked(
            *env,
            old(cache)@,
            final(cache)@,
            r,
            infer(*env, scope@, *expect, *e, fuel as nat),
            *e,
        ),
    decreases 2 * fuel + 1, *e, 0nat,
{
    let ghost start = cache@;
    match e {
        Expr::Call(name, args) => match check_list(env, cache, scope, expect, args, fuel) {
            Err(e) => Err(e),
            Ok(a) => {
                let ghost middle = cache@;
                let ghost plain = a.mirs@;
                match call(env, cache, scope, *name, a.mirs, &a.types, fuel) {
                    Err(e) => {
                        proof {
                            lemma_extends_trans(start, middle, cache@);
                        }
                        Err(e)
                    },
                    Ok(done) => {
                        proof {
                            lemma_extends_trans(start, middle, cache@);
                            assert forall|i: int| 0 <= i < args@.len() implies mirrors(
                                #[trigger] done.args@[i],
                                args@[i],
                            ) by {
                                assert(strip(done.args@[i]) == strip(plain[i]));
                                assert(mirrors(plain[i], args@[i]));
                            }
                            lemma_mirror_all(done.args@, args@, args@.len());
                            assert(sound(*env, cache@, call_node(done)));
                        }
                        Ok(
                            Typed {
                                mir: Mir {
                                    ty: done.ty,
                                    node: MirNode::Call(*name, done.target, done.args),
                                },
                                exits: a.exits,
                            },
                        )
                    },
                }
            },
        },
        _ => Err(TypeError::TypeMismatch),
    }
}

/// Types a field access.
fn check_field(
    env: &Environment,
    cache: &mut Vec<Specialization>,
    scope: &Vec<Binding>,
    expect: &Option<Type>,
    e: &Expr,
    fuel: usize,
) -> (r: Result<Typed, TypeError>)
    requires
        env.graph_ok(),
        cache_ok(*env, old(cache)@),
        *e is Field,
    ensures
        checked(
            *env,
            old(cache)@,
            final(cache)@,
            r,
            infer(*env, scope@, *expect, *e, fuel as nat),
            *e,
        ),
    decreases 2 * fuel + 1, *e, 0nat,
{
    let ghost start = cache@;
    match e {
        Expr::Field(x, f) => match check(env, cache, scope, expect, x, fuel) {
            Err(e) => Err(e),
            Ok(t) => match find_field(env, &t.mir.ty, *f) {
                Err(e) => Err(e),
                Ok(ft) => Ok(
                    Typed {
                        mir: Mir { ty: ft, node: MirNode::Field(Box::new(t.mir), *f) },
                        exits: t.exits,
                    },
                ),
            },
        },
        _ => Err(TypeError::TypeMismatch),
    }
}

/// Types an element access.
fn check_index(
    env: &Environment,
    cache: &mut Vec<Specialization>,
    scope: &Vec<Binding>,
    expect: &Option<Type>,
    e: &Expr,
    fuel: usize,
) -> (r: Result<Typed, TypeError>)
    requires
        env.graph_ok(),
        cache_ok(*env, old(cache)@),
        *e is Index,
    ensures
        checked(
            *env,
            old(cache)@,
            final(cache)@,
            r,
            infer(*env, scope@, *expect, *e, fuel as nat),
            *e,
        ),
    decreases 2 * fuel + 1, *e, 0nat,
{
    let ghost start = cache@;
    match e {
        Expr::Index(x, i) => match check(env, cache, scope, expect, x, fuel) {
            Err(e) => Err(e),
            Ok(t) => {
                let ghost middle = cache@;
                match check(env, cache, scope, expect, i, fuel) {
                    Err(e) => {
                        proof {
                            lemma_extends_trans(start, middle, cache@);
                        }
                        Err(e)
                    },
                    Ok(ti) => {
                        proof {
                            lemma_extends_trans(start, middle, cache@);
                            lemma_sound_extends(*env, middle, cache@, t.mir);
                        }
                        if !is_int(&ti.mir.ty) {
                            Err(TypeError::TypeMismatch)
                        } else {
                            match element_of(&t.mir.ty) {
                                Err(e) => Err(e),
                                Ok(et) => Ok(
                                    Typed {
                                        mir: Mir {
                                            ty: et,
                                            node: MirNode::Index(
                                                Box::new(t.mir),
                                                Box::new(ti.mir),
                                            ),
                                        },
                                        exits: concat(t.exits, ti.exits),
                                    },
                                ),
                            }
                        }
                    },
                }
            },
        },
        _ => Err(TypeError::TypeMismatch),
    }
}

/// Types an array literal.
fn check_literal(
    env: &Environment,
    cache: &mut Vec<Specialization>,
    scope: &Vec<Binding>,
    expect: &Option<Type>,
    e: &Expr,
    fuel: usize,
) -> (r: Result<Typed, TypeError>)
    requires
        env.graph_ok(),
        cache_ok(*env, old(cache)@),
        *e is ArrayLit,
    ensures
        checked(
            *env,
            old(cache)@,
            final(cache)@,
            r,
            infer(*env, scope@, *expect, *e, fuel as nat),
            *e,
        ),
    decreases 2 * fuel + 1, *e, 0nat,
{
    let ghost start = cache@;
    match e {
        Expr::ArrayLit(items) => match check_list(env, cache, scope, expect, items, fuel) {
            Err(e) => Err(e),
            Ok(a) => {
                let ghost plain = a.mirs@;
                match unify(env, a.mirs, &a.types, Ghost(cache@)) {
                    Err(e) => Err(e),
                    Ok(p) => {
                        proof {
                            assert forall|i: int| 0 <= i < items@.len() implies mirrors(
                                #[trigger] p.1@[i],
                                items@[i],
                            ) by {
                                assert(strip(p.1@[i]) == strip(plain[i]));
                                assert(mirrors(plain[i], items@[i]));
                            }
                            lemma_mirror_all(p.1@, items@, items@.len());
                            lemma_sound_all(*env, cache@, p.1@, p.1@.len());
                        }
                        Ok(Typed { mir: Mir { ty: p.0, node: MirNode::ArrayLit(p.1) }, exits: a.exits })
                    },
                }
            },
        },
        _ => Err(TypeError::TypeMismatch),
    }
}

/// Types an array generator: the length first, then the body with the
/// index in scope.
fn check_generator(
    env: &Environment,
    cache: &mut Vec<Specialization>,
    scope: &Vec<Binding>,
    expect: &Option<Type>,
    e: &Expr,
    fuel: usize,
) -> (r: Result<Typed, TypeError>)
    requires
        env.graph_ok(),
        cache_ok(*env, old(cache)@),
        *e is ArrayGen,
    ensures
        checked(
            *env,
            old(cache)@,
            final(cache)@,
            r,
            infer(*env, scope@, *expect, *e, fuel as nat),
            *e,
        ),
    decreases 2 * fuel + 1, *e, 0nat,
{
    let ghost start = cache@;
    match e {
        Expr::ArrayGen(i, body, len) => match check_length(env, cache, scope, expect, len, fuel) {
            Err(e) => Err(e),
            Ok(l) => {
                let ghost middle = cache@;
                let mut inner = copy_scope(scope);
                inner.push(Binding { name: *i, ty: Type::Int });
                match check(env, cache, &inner, expect, body, fuel) {
                    Err(e) => {
                        proof {
                            lemma_extends_trans(start, middle, cache@);
                        }
                        Err(e)
                    },
                    Ok(t) => {
                        proof {
                            lemma_extends_trans(start, middle, cache@);
                            lemma_sound_extends(*env, middle, cache@, l.mir);
                        }
                        let ty = match l.length {
                            Some(n) => Type::FixedArray(Box::new(t.mir.ty.duplicate()), n),
                            None => Type::DynArray(Box::new(t.mir.ty.duplicate())),
                        };
                        Ok(
                            Typed {
                                mir: Mir {
                                    ty,
                                    node: MirNode::ArrayGen(*i, Box::new(t.mir), Box::new(l.mir)),
                                },
                                exits: concat(l.exits, t.exits),
                            },
                        )
                    },
                }
            },
        },
        _ => Err(TypeError::TypeMismatch),
    }
}

/// Types an `if`.
fn check_if(
    env: &Environment,
    cache: &mut Vec<Specialization>,
    scope: &Vec<Binding>,
    expect: &Option<Type>,
    e: &Expr,
    fuel: usize,
) -> (r: Result<Typed, TypeError>)
    requires
        env.graph_ok(),
        cache_ok(*env, old(cache)@),
        *e is If,
    ensures
        checked(
            *env,
            old(cache)@,
            final(cache)@,
            r,
            infer(*env, scope@, *expect, *e, fuel as nat),
            *e,
        ),
    decreases 2 * fuel + 1, *e, 0nat,
{
    let ghost start = cache@;
    match e {
        Expr::If(cond, then, other) => match check(env, cache, scope, expect, cond, fuel) {
            Err(e) => Err(e),
            Ok(c) => {
                if !is_bool(&c.mir.ty) {
                    return Err(TypeError::TypeMismatch);
                }
                let ghost second = cache@;
                match check(env, cache, scope, expect, then, fuel) {
                    Err(e) => {
                        proof {
                            lemma_extends_trans(start, second, cache@);
                        }
                        Err(e)
                    },
                    Ok(a) => {
                        proof {
                            lemma_extends_trans(start, second, cache@);
                            lemma_sound_extends(*env, second, cache@, c.mir);
                        }
                        match other {
                            None => {
                                if is_unit_or_never(&a.mir.ty) {
                                    Ok(
                                        Typed {
                                            mir: Mir {
                                                ty: Type::Unit,
                                                node: MirNode::If(
                                                    Box::new(c.mir),
                                                    Box::new(a.mir),
                                                    None,
                                                ),
                                            },
                                            exits: concat(c.exits, a.exits),
                                        },
                                    )
                                } else {
                                    Err(TypeError::TypeMismatch)
                                }
                            },
                            Some(alt) => {
                                let ghost third = cache@;
                                match check(env, cache, scope, expect, alt, fuel) {
                                    Err(e) => {
                                        proof {
                                            lemma_extends_trans(start, third, cache@);
                                        }
                                        Err(e)
                                    },
                                    Ok(b) => {
                                        proof {
                                            lemma_extends_trans(start, third, cache@);
                                            lemma_sound_extends(*env, third, cache@, c.mir);
                                            lemma_sound_extends(*env, third, cache@, a.mir);
                                        }
                                        let ghost left = a.mir;
                                        let ghost right = b.mir;
                                        match join(env, a.mir, b.mir, Ghost(cache@)) {
                                            Err(e) => Err(e),
                                            Ok(p) => {
                                                proof {
                                                    lemma_mirrors_strip(p.1, left, **then);
                                                    lemma_mirrors_strip(p.2, right, **alt);
                                                }
                                                Ok(
                                                    Typed {
                                                        mir: Mir {
                                                            ty: p.0,
                                                            node: MirNode::If(
                                                                Box::new(c.mir),
                                                                Box::new(p.1),
                                                                Some(Box::new(p.2)),
                                                            ),
                                                        },
                                                        exits: concat(
                                                            concat(c.exits, a.exits),
                                                            b.exits,
                                                        ),
                                                    },
                                                )
                                            },
                                        }
                                    },
                                }
                            },
                        }
                    },
                }
            },
        },
        _ => Err(TypeError::TypeMismatch),
    }
}

/// Types a `return`.
fn check_return(
    env: &Environment,
    cache: &mut Vec<Specialization>,
    scope: &Vec<Binding>,
    expect: &Option<Type>,
    e: &Expr,
    fuel: usize,
) -> (r: Result<Typed, TypeError>)
    requires
        env.graph_ok(),
        cache_ok(*env, old(cache)@),
        *e is Return,
    ensures
        checked(
            *env,
            old(cache)@,
            final(cache)@,
            r,
            infer(*env, scope@, *expect, *e, fuel as nat),
            *e,
        ),
    decreases 2 * fuel + 1, *e, 0nat,
{
    let ghost start = cache@;
    match e {
        Expr::Return(value) => match check(env, cache, scope, expect, value, fuel) {
            Err(e) => Err(e),
            Ok(t) => match expect {
                Some(r) => match convert(env, &t.mir.ty, r) {
                    None => Err(TypeError::TypeMismatch),
                    Some(c) => {
                        let ghost plain = t.mir;
                        let inner = wrap(env, t.mir, c, r, Ghost(cache@));
                        proof {
                            lemma_mirrors_strip(inner, plain, **value);
                        }
                        Ok(
                            Typed {
                                mir: Mir { ty: Type::Never, node: MirNode::Return(Box::new(inner)) },
                                exits: t.exits,
                            },
                        )
                    },
                },
                None => {
                    let mut exits = t.exits;
                    exits.push(t.mir.ty.duplicate());
                    Ok(
                        Typed {
                            mir: Mir { ty: Type::Never, node: MirNode::Return(Box::new(t.mir)) },
                            exits,
                        },
                    )
                },
            },
        },
        _ => Err(TypeError::TypeMismatch),
    }
}

/// Types expression `e` with the names of `scope` in scope, inside a
/// function whose concrete declared result type is `expect`.
pub fn check(
    env: &Environment,
    cache: &mut Vec<Specialization>,
    scope: &Vec<Binding>,
    expect: &Option<Type>,
    e: &Expr,
    fuel: usize,
) -> (r: Result<Typed, TypeError>)
    requires
        env.graph_ok(),
        cache_ok(*env, old(cache)@),
    ensures
        checked(
            *env,
            old(cache)@,
            final(cache)@,
            r,
            infer(*env, scope@, *expect, *e, fuel as nat),
            *e,
        ),
    decreases 2 * fuel + 1, *e, 1nat,
{
    let ghost start = cache@;
    match e {
        Expr::IntLit(v) => Ok(leaf(Type::Int, MirNode::IntLit(*v))),
        Expr::NumLit(v) => Ok(leaf(Type::Num, MirNode::NumLit(*v))),
        Expr::BoolLit(v) => Ok(leaf(Type::Bool, MirNode::BoolLit(*v))),
        Expr::StrLit(v) => Ok(leaf(Type::Str, MirNode::StrLit(*v))),
        Expr::Ident(x) => match find_binding(scope, *x) {
            Some(t) => Ok(leaf(t, MirNode::Ident(*x))),
            None => if is_declared(env, *x) {
                Ok(leaf(Type::FnItem(*x), MirNode::Ident(*x)))
            } else {
                Err(TypeError::UndefinedSymbol(*x))
            },
        },
        Expr::Lambda(id) => if *id < env.lambdas.len() {
            Ok(leaf(Type::Closure(*id), MirNode::Lambda(*id)))
        } else {
            Err(TypeError::TypeMismatch)
        },
        Expr::Call(_, _) => check_call(env, cache, scope, expect, e, fuel),
        Expr::Field(_, _) => check_field(env, cache, scope, expect, e, fuel),
        Expr::Index(_, _) => check_index(env, cache, scope, expect, e, fuel),
        Expr::ArrayLit(_) => check_literal(env, cache, scope, expect, e, fuel),
        Expr::ArrayRepeat(item, n) => match check(env, cache, scope, expect, item, fuel) {
            Err(e) => Err(e),
            Ok(t) => Ok(
                Typed {
                    mir: Mir {
                        ty: Type::FixedArray(Box::new(t.mir.ty.duplicate()), *n),
                        node: MirNode::ArrayRepeat(Box::new(t.mir), *n),
                    },
                    exits: t.exits,
                },
            ),
        },
        Expr::ArrayGen(_, _, _) => check_generator(env, cache, scope, expect, e, fuel),
        Expr::Let(x, value) => match check(env, cache, scope, expect, value, fuel) {
            Err(e) => Err(e),
            Ok(t) => Ok(
                Typed {
                    mir: Mir { ty: Type::Unit, node: MirNode::Let(*x, Box::new(t.mir)) },
                    exits: t.exits,
                },
            ),
        },
        Expr::Block(stmts) => match check_block(env, cache, scope, expect, stmts, fuel) {
            Err(e) => Err(e),
            Ok(p) => {
                proof {
                    lemma_mirror_all(p.0@, stmts@, stmts@.len());
                    lemma_sound_all(*env, cache@, p.0@, p.0@.len());
                }
                Ok(Typed { mir: Mir { ty: p.1, node: MirNode::Block(p.0) }, exits: p.2 })
            },
        },
        Expr::If(_, _, _) => check_if(env, cache, scope, expect, e, fuel),
        Expr::Return(_) => check_return(env, cache, scope, expect, e, fuel),
    }
}

/// Types a free-standing expression: with nothing in scope, and within
/// `depth` nested bodies. The expression may not return, and its type must
/// be concrete.
pub fn check_expr(env: &Environment, cache: &mut Vec<Specialization>, e: &Expr, depth: usize) -> (r:
    Result<Mir, TypeError>)
    requires
        env.graph_ok(),
        cache_ok(*env, old(cache)@),
    ensures
        cache_step(*env, old(cache)@, final(cache)@),
        match r {
            Ok(m) => type_of(*env, *e, depth as nat) == Ok::<Type, TypeError>(m.ty) && mirrors(m, *e)
                && sound(*env, final(cache)@, m) && plain(m),
            Err(err) => type_of(*env, *e, depth as nat) == Err::<Type, TypeError>(err),
        },
{
    let scope: Vec<Binding> = Vec::new();
    let expect: Option<Type> = None;
    assert(scope@ =~= Seq::<Binding>::empty());
    match check(env, cache, &scope, &expect, e, depth) {
        Err(err) => Err(err),
        Ok(t) => if t.exits.len() == 0 && !t.mir.ty.open() {
            Ok(t.mir)
        } else {
            Err(TypeError::TypeMismatch)
        },
    }
}

} // verus!
