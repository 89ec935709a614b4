//! Checking declarations and free-standing expressions.
//!
//! A function whose parameter types are all concrete is typed where it is
//! declared. One with union-typed parameters is typed once for every choice
//! of members, each choice on its own. One with any other open parameter is
//! typed at its call sites only.

use vstd::prelude::*;
use crate::ast::{Binding, Body, Decl, Expr, Lambda};
use crate::check::{check, check_expr};
use crate::env::{build, first_fault, signatures_match, tables_match, EnvError, Environment};
use crate::lower::{cache_ok, cache_step, conclude_body, expected_of, lemma_extends_trans};
use crate::mir::{lemma_sound_extends, mirrors, sound, Mir, Specialization};
use crate::types::{duplicate_types, Type, TypeList};
use crate::typing::{
    binding_names, conclude, expected, infer, parameter_scope, type_of, TypeError,
};

verus! {

/// The types that a parameter of type `t` stands for where the function is
/// declared: the members of a union, else the type itself.
pub open spec fn choices(t: Type) -> Seq<Type> {
    match t {
        Type::Union(members) => members.to_seq(),
        _ => seq![t],
    }
}

/// `r` extended by each of `ch` in turn.
pub open spec fn spread(r: Seq<Type>, ch: Seq<Type>) -> Seq<Seq<Type>> {
    Seq::new(ch.len(), |j: int| r.push(ch[j]))
}

/// Every list of `rest` extended by every one of `ch`: the lists of `rest`
/// in order, and for each the choices in order.
pub open spec fn product(rest: Seq<Seq<Type>>, ch: Seq<Type>) -> Seq<Seq<Type>>
    decreases rest.len(),
{
    if rest.len() == 0 {
        Seq::empty()
    } else {
        product(rest.drop_last(), ch) + spread(rest.last(), ch)
    }
}

/// Every choice of parameter types for `params`.
pub open spec fn instances(params: Seq<Binding>) -> Seq<Seq<Type>>
    decreases params.len(),
{
    if params.len() == 0 {
        seq![Seq::empty()]
    } else {
        product(instances(params.drop_last()), choices(params.last().ty))
    }
}

/// Whether every choice of parameter types is concrete: each parameter is a
/// union of concrete members or a concrete type.
pub open spec fn enumerable(params: Seq<Binding>) -> bool {
    forall|k: int|
        0 <= k < params.len() ==> match (#[trigger] params[k]).ty {
            Type::Union(members) => !members.any_open(),
            t => !t.is_open(),
        }
}

/// The result type of the body of function `i` under parameter types
/// `types`, with the body's own error where it has none.
pub open spec fn body_type(env: Environment, i: usize, types: Seq<Type>, fuel: nat) -> Result<
    Type,
    TypeError,
> {
    let sig = env.fns@[i as int];
    match infer(
        env,
        parameter_scope(binding_names(sig.params@), types),
        expected(sig.result),
        sig.body->Code_0,
        fuel,
    ) {
        Err(e) => Err(e),
        Ok(t) => conclude(env.rule_edges(), t, sig.result),
    }
}

/// The result types of the body of function `i` under the first `k` of the
/// choices `insts`, or the first choice under which the body fails, with
/// its error.
pub open spec fn instance_types(
    env: Environment,
    i: usize,
    insts: Seq<Seq<Type>>,
    k: nat,
    fuel: nat,
) -> Result<Seq<Type>, (Seq<Type>, TypeError)>
    decreases k,
{
    if k == 0 || k > insts.len() {
        Ok(Seq::empty())
    } else {
        match instance_types(env, i, insts, (k - 1) as nat, fuel) {
            Err(x) => Err(x),
            Ok(rs) => match body_type(env, i, insts[k - 1], fuel) {
                Err(e) => Err((insts[k - 1], e)),
                Ok(r) => Ok(rs.push(r)),
            },
        }
    }
}

/// The types of `rs` without repetition, in the order of first occurrence.
pub open spec fn distinct(rs: Seq<Type>) -> Seq<Type>
    decreases rs.len(),
{
    if rs.len() == 0 {
        Seq::empty()
    } else if distinct(rs.drop_last()).contains(rs.last()) {
        distinct(rs.drop_last())
    } else {
        distinct(rs.drop_last()).push(rs.last())
    }
}

/// The list with the entries of `s` from position `k` on.
pub open spec fn list_from(s: Seq<Type>, k: nat) -> TypeList
    decreases s.len() - k,
{
    if k >= s.len() {
        TypeList::Nil
    } else {
        TypeList::Cons(s[k as int], Box::new(list_from(s, k + 1)))
    }
}

/// The one type that all of `rs` are, or else their union.
pub open spec fn merge(rs: Seq<Type>) -> Type {
    let d = distinct(rs);
    if d.len() == 1 {
        d[0]
    } else {
        Type::Union(Box::new(list_from(d, 0)))
    }
}

/// The result type of function `i`, typed where it is declared: `None` for
/// a function without a body in the language and for one that is typed at
/// its call sites only.
pub open spec fn declaration_type(env: Environment, i: usize, fuel: nat) -> Result<
    Option<Type>,
    (Seq<Type>, TypeError),
> {
    let sig = env.fns@[i as int];
    if !(sig.body is Code) || !enumerable(sig.params@) || instances(sig.params@).len() == 0 {
        Ok(None)
    } else {
        match instance_types(env, i, instances(sig.params@), instances(sig.params@).len(), fuel) {
            Err(x) => Err(x),
            Ok(rs) => Ok(Some(merge(rs))),
        }
    }
}

/// The type of the body of conversion `k`: it is typed with the parameter
/// in scope, and its type must be the conversion's target itself. No
/// declared conversion brings it there: the one being checked would.
pub open spec fn rule_type(env: Environment, k: usize, fuel: nat) -> Result<Type, TypeError> {
    let rule = env.rules@[k as int];
    match infer(env, seq![Binding { name: rule.param, ty: rule.from }], None, rule.body, fuel) {
        Err(e) => Err(e),
        Ok(t) => match conclude(env.rule_edges(), t, None) {
            Err(e) => Err(e),
            Ok(r) => if r == rule.to {
                Ok(r)
            } else {
                Err(TypeError::TypeMismatch)
            },
        },
    }
}

/// A declaration whose body does not type.
#[derive(Debug, PartialEq, Eq)]
pub struct DeclError {
    /// The parameter types under which the body fails: for union-typed
    /// parameters, the members at fault.
    pub under: Vec<Type>,
    pub error: TypeError,
}

/// The types of a list, as a vector.
pub fn collect(list: &TypeList) -> (r: Vec<Type>)
    ensures
        r@ == list.to_seq(),
    decreases *list,
{
    match list {
        TypeList::Nil => Vec::new(),
        TypeList::Cons(head, tail) => {
            let mut out: Vec<Type> = Vec::new();
            out.push(head.duplicate());
            let mut rest = collect(tail);
            out.append(&mut rest);
            assert(out@ =~= seq![*head] + tail.to_seq());
            out
        },
    }
}

/// Decides `choices`.
pub fn choices_of(t: &Type) -> (r: Vec<Type>)
    ensures
        r@ == choices(*t),
{
    match t {
        Type::Union(members) => collect(members),
        _ => {
            let mut out: Vec<Type> = Vec::new();
            out.push(t.duplicate());
            assert(out@ =~= seq![*t]);
            out
        },
    }
}

/// Decides `enumerable`.
pub fn is_enumerable(params: &Vec<Binding>) -> (r: bool)
    ensures
        r == enumerable(params@),
{
    let mut k: usize = 0;
    while k < params.len()
        invariant
            k <= params@.len(),
            forall|j: int|
                0 <= j < k ==> match (#[trigger] params@[j]).ty {
                    Type::Union(members) => !members.any_open(),
                    t => !t.is_open(),
                },
        decreases params@.len() - k,
    {
        let fine = match &params[k].ty {
            Type::Union(members) => !members.has_open(),
            t => !t.open(),
        };
        if !fine {
            return false;
        }
        k += 1;
    }
    true
}

/// A copy of `r` with `t` appended.
fn extended(r: &Vec<Type>, t: &Type) -> (out: Vec<Type>)
    ensures
        out@ == r@.push(*t),
{
    let mut out = duplicate_types(r);
    out.push(t.duplicate());
    out
}

/// The views of a list of lists of types.
pub open spec fn list_views(v: Seq<Vec<Type>>) -> Seq<Seq<Type>> {
    Seq::new(v.len(), |i: int| v[i]@)
}

/// Decides `product`.
fn product_of(rest: &Vec<Vec<Type>>, ch: &Vec<Type>) -> (r: Vec<Vec<Type>>)
    ensures
        list_views(r@) == product(list_views(rest@), ch@),
{
    let mut out: Vec<Vec<Type>> = Vec::new();
    let mut a: usize = 0;
    assert(list_views(rest@).subrange(0, 0) =~= Seq::<Seq<Type>>::empty());
    assert(list_views(out@) =~= Seq::<Seq<Type>>::empty());
    while a < rest.len()
        invariant
            a <= rest@.len(),
            list_views(out@) == product(list_views(rest@).subrange(0, a as int), ch@),
        decreases rest@.len() - a,
    {
        let ghost done = list_views(out@);
        let ghost upto = list_views(rest@).subrange(0, a + 1);
        proof {
            assert(upto.drop_last() =~= list_views(rest@).subrange(0, a as int));
            assert(upto.last() == rest@[a as int]@);
        }
        let mut j: usize = 0;
        while j < ch.len()
            invariant
                j <= ch@.len(),
                a < rest@.len(),
                list_views(out@).len() == done.len() + j,
                forall|x: int| 0 <= x < done.len() ==> list_views(out@)[x] == done[x],
                forall|x: int|
                    0 <= x < j ==> list_views(out@)[done.len() + x] == rest@[a as int]@.push(ch@[x]),
            decreases ch@.len() - j,
        {
            let ghost before = list_views(out@);
            let item = extended(&rest[a], &ch[j]);
            out.push(item);
            proof {
                assert forall|x: int| 0 <= x < done.len() implies list_views(out@)[x] == done[x] by {
                    assert(list_views(out@)[x] == before[x]);
                }
                assert forall|x: int| 0 <= x < j + 1 implies list_views(out@)[done.len() + x]
                    == rest@[a as int]@.push(ch@[x]) by {
                    if x < j {
                        assert(list_views(out@)[done.len() + x] == before[done.len() + x]);
                    }
                }
            }
            j += 1;
        }
        proof {
            assert(list_views(out@) =~= done + spread(rest@[a as int]@, ch@));
        }
        a += 1;
    }
    proof {
        assert(list_views(rest@).subrange(0, a as int) =~= list_views(rest@));
    }
    out
}

/// Decides `instances`.
pub fn expand(params: &Vec<Binding>) -> (r: Vec<Vec<Type>>)
    ensures
        list_views(r@) == instances(params@),
{
    let mut out: Vec<Vec<Type>> = Vec::new();
    out.push(Vec::new());
    let mut k: usize = 0;
    proof {
        assert(params@.subrange(0, 0) =~= Seq::<Binding>::empty());
        assert(list_views(out@) =~= seq![Seq::<Type>::empty()]);
    }
    while k < params.len()
        invariant
            k <= params@.len(),
            list_views(out@) == instances(params@.subrange(0, k as int)),
        decreases params@.len() - k,
    {
        proof {
            let upto = params@.subrange(0, k + 1);
            assert(upto.drop_last() =~= params@.subrange(0, k as int));
            assert(upto.last() == params@[k as int]);
        }
        let ch = choices_of(&params[k].ty);
        out = product_of(&out, &ch);
        k += 1;
    }
    proof {
        assert(params@.subrange(0, k as int) =~= params@);
    }
    out
}

/// Decides `merge`.
pub fn merge_types(rs: &Vec<Type>) -> (r: Type)
    ensures
        r == merge(rs@),
{
    let mut d: Vec<Type> = Vec::new();
    let mut k: usize = 0;
    proof {
        assert(rs@.subrange(0, 0) =~= Seq::<Type>::empty());
    }
    while k < rs.len()
        invariant
            k <= rs@.len(),
            d@ == distinct(rs@.subrange(0, k as int)),
        decreases rs@.len() - k,
    {
        proof {
            let upto = rs@.subrange(0, k + 1);
            assert(upto.drop_last() =~= rs@.subrange(0, k as int));
            assert(upto.last() == rs@[k as int]);
        }
        let mut seen: bool = false;
        let mut j: usize = 0;
        while j < d.len()
            invariant
                j <= d@.len(),
                k < rs@.len(),
                seen <==> exists|x: int| 0 <= x < j && d@[x] == rs@[k as int],
            decreases d@.len() - j,
        {
            if d[j].same(&rs[k]) {
                seen = true;
            }
            j += 1;
        }
        if !seen {
            d.push(rs[k].duplicate());
        }
        k += 1;
    }
    proof {
        assert(rs@.subrange(0, k as int) =~= rs@);
    }
    if d.len() == 1 {
        return d[0].duplicate();
    }
    let mut list = TypeList::Nil;
    let mut at: usize = d.len();
    while at > 0
        invariant
            at <= d@.len(),
            list == list_from(d@, at as nat),
        decreases at,
    {
        at -= 1;
        list = TypeList::Cons(d[at].duplicate(), Box::new(list));
    }
    Type::Union(Box::new(list))
}

/// Types the body of function `i` under parameter types `types`.
pub fn body_under(
    env: &Environment,
    cache: &mut Vec<Specialization>,
    i: usize,
    types: &Vec<Type>,
    fuel: usize,
) -> (r: Result<(Type, Mir), TypeError>)
    requires
        env.graph_ok(),
        cache_ok(*env, old(cache)@),
        i < env.fns@.len(),
        env.fns@[i as int].body is Code,
        env.fns@[i as int].params@.len() == types@.len(),
    ensures
        cache_step(*env, old(cache)@, final(cache)@),
        match r {
            Ok(p) => body_type(*env, i, types@, fuel as nat) == Ok::<Type, TypeError>(p.0) && mirrors(
                p.1,
                env.fns@[i as int].body->Code_0,
            ) && sound(*env, final(cache)@, p.1),
            Err(e) => body_type(*env, i, types@, fuel as nat) == Err::<Type, TypeError>(e),
        },
{
    match &env.fns[i].body {
        Body::Code(body) => {
            let mut scope: Vec<Binding> = Vec::new();
            let mut k: usize = 0;
            while k < types.len()
                invariant
                    k <= types@.len(),
                    i < env.fns@.len(),
                    env.fns@[i as int].params@.len() == types@.len(),
                    scope@.len() == k,
                    forall|j: int|
                        0 <= j < k ==> scope@[j] == (Binding {
                            name: env.fns@[i as int].params@[j].name,
                            ty: types@[j],
                        }),
                decreases types@.len() - k,
            {
                scope.push(Binding { name: env.fns[i].params[k].name, ty: types[k].duplicate() });
                k += 1;
            }
            assert(scope@ =~= parameter_scope(binding_names(env.fns@[i as int].params@), types@));
            let expect = expected_of(&env.fns[i].result);
            match check(env, cache, &scope, &expect, body, fuel) {
                Err(e) => Err(e),
                Ok(t) => match conclude_body(env, &t.mir.ty, &t.exits, &env.fns[i].result) {
                    Err(e) => Err(e),
                    Ok(result) => Ok((result, t.mir)),
                },
            }
        },
        _ => Err(TypeError::TypeMismatch),
    }
}

/// Types function `i` where it is declared, within `depth` nested bodies.
pub fn check_function(env: &Environment, cache: &mut Vec<Specialization>, i: usize, depth: usize) -> (r:
    Result<Option<Type>, DeclError>)
    requires
        env.graph_ok(),
        cache_ok(*env, old(cache)@),
        i < env.fns@.len(),
    ensures
        cache_step(*env, old(cache)@, final(cache)@),
        match r {
            Ok(t) => declaration_type(*env, i, depth as nat) == Ok::<
                Option<Type>,
                (Seq<Type>, TypeError),
            >(t),
            Err(e) => declaration_type(*env, i, depth as nat) == Err::<
                Option<Type>,
                (Seq<Type>, TypeError),
            >((e.under@, e.error)),
        },
{
    let ghost start = cache@;
    let has_body = match &env.fns[i].body {
        Body::Code(_) => true,
        _ => false,
    };
    if !has_body || !is_enumerable(&env.fns[i].params) {
        return Ok(None);
    }
    let insts = expand(&env.fns[i].params);
    if insts.len() == 0 {
        return Ok(None);
    }
    let ghost all = instances(env.fns@[i as int].params@);
    let mut results: Vec<Type> = Vec::new();
    let mut k: usize = 0;
    while k < insts.len()
        invariant
            k <= insts@.len(),
            env.graph_ok(),
            start == old(cache)@,
            cache_step(*env, start, cache@),
            i < env.fns@.len(),
            env.fns@[i as int].body is Code,
            enumerable(env.fns@[i as int].params@),
            all == instances(env.fns@[i as int].params@),
            list_views(insts@) == all,
            all.len() > 0,
            instance_types(*env, i, all, k as nat, depth as nat) == Ok::<
                Seq<Type>,
                (Seq<Type>, TypeError),
            >(results@),
        decreases insts@.len() - k,
    {
        let ghost before = cache@;
        proof {
            lemma_instances_length(env.fns@[i as int].params@, k as int);
            assert(list_views(insts@)[k as int] == insts@[k as int]@);
        }
        match body_under(env, cache, i, &insts[k], depth) {
            Err(e) => {
                proof {
                    lemma_extends_trans(start, before, cache@);
                    lemma_instance_error(*env, i, all, (k + 1) as nat, all.len(), depth as nat);
                }
                return Err(DeclError { under: duplicate_types(&insts[k]), error: e });
            },
            Ok(p) => {
                proof {
                    lemma_extends_trans(start, before, cache@);
                }
                results.push(p.0);
            },
        }
        k += 1;
    }
    Ok(Some(merge_types(&results)))
}

/// Every choice of parameter types has one type per parameter.
pub proof fn lemma_instances_length(params: Seq<Binding>, k: int)
    requires
        0 <= k < instances(params).len(),
    ensures
        instances(params)[k].len() == params.len(),
    decreases params.len(),
{
    if params.len() > 0 {
        let rest = instances(params.drop_last());
        let ch = choices(params.last().ty);
        lemma_product_entry(rest, ch, k);
        let a = choose|a: int| 0 <= a < rest.len() && #[trigger] rest[a].len() + 1 == product(rest, ch)[k].len();
        lemma_instances_length(params.drop_last(), a);
    }
}

/// Every entry of a product is an entry of `rest` with one more type.
pub proof fn lemma_product_entry(rest: Seq<Seq<Type>>, ch: Seq<Type>, k: int)
    requires
        0 <= k < product(rest, ch).len(),
    ensures
        exists|a: int| 0 <= a < rest.len() && #[trigger] rest[a].len() + 1 == product(rest, ch)[k].len(),
    decreases rest.len(),
{
    if rest.len() > 0 {
        let head = product(rest.drop_last(), ch);
        if k < head.len() {
            lemma_product_entry(rest.drop_last(), ch, k);
            let a = choose|a: int|
                0 <= a < rest.drop_last().len() && #[trigger] rest.drop_last()[a].len() + 1
                    == head[k].len();
            assert(rest[a] == rest.drop_last()[a]);
        } else {
            assert(product(rest, ch)[k] == spread(rest.last(), ch)[k - head.len()]);
            assert(rest[rest.len() - 1].len() + 1 == product(rest, ch)[k].len());
        }
    }
}

proof fn lemma_instance_error(
    env: Environment,
    i: usize,
    insts: Seq<Seq<Type>>,
    k: nat,
    n: nat,
    fuel: nat,
)
    requires
        k <= n <= insts.len(),
        instance_types(env, i, insts, k, fuel) is Err,
    ensures
        instance_types(env, i, insts, n, fuel) == instance_types(env, i, insts, k, fuel),
    decreases n - k,
{
    if k < n {
        lemma_instance_error(env, i, insts, k, (n - 1) as nat, fuel);
    }
}

/// Types the body of conversion `k`, within `depth` nested bodies.
pub fn check_rule(env: &Environment, cache: &mut Vec<Specialization>, k: usize, depth: usize) -> (r:
    Result<Mir, TypeError>)
    requires
        env.graph_ok(),
        cache_ok(*env, old(cache)@),
        k < env.rules@.len(),
    ensures
        cache_step(*env, old(cache)@, final(cache)@),
        match r {
            Ok(m) => rule_type(*env, k, depth as nat) == Ok::<Type, TypeError>(
                env.rules@[k as int].to,
            ) && mirrors(m, env.rules@[k as int].body) && sound(*env, final(cache)@, m),
            Err(e) => rule_type(*env, k, depth as nat) == Err::<Type, TypeError>(e),
        },
{
    let mut scope: Vec<Binding> = Vec::new();
    scope.push(Binding { name: env.rules[k].param, ty: env.rules[k].from.duplicate() });
    assert(scope@ =~= seq![Binding { name: env.rules@[k as int].param, ty: env.rules@[k as int].from }]);
    let expect: Option<Type> = None;
    match check(env, cache, &scope, &expect, &env.rules[k].body, depth) {
        Err(e) => Err(e),
        Ok(t) => match conclude_body(env, &t.mir.ty, &t.exits, &expect) {
            Err(e) => Err(e),
            Ok(r) => if r.same(&env.rules[k].to) {
                Ok(t.mir)
            } else {
                Err(TypeError::TypeMismatch)
            },
        },
    }
}

/// Types each of the free-standing expressions `units` on its own, within
/// `depth` nested bodies: an expression that fails does not keep the others
/// from being typed.
pub fn check_all(env: &Environment, cache: &mut Vec<Specialization>, units: &Vec<Expr>, depth: usize) -> (r:
    Vec<Result<Mir, TypeError>>)
    requires
        env.graph_ok(),
        cache_ok(*env, old(cache)@),
    ensures
        cache_step(*env, old(cache)@, final(cache)@),
        r@.len() == units@.len(),
        forall|i: int|
            0 <= i < units@.len() ==> match #[trigger] r@[i] {
                Ok(m) => type_of(*env, units@[i], depth as nat) == Ok::<Type, TypeError>(m.ty)
                    && mirrors(m, units@[i]) && sound(*env, final(cache)@, m),
                Err(e) => type_of(*env, units@[i], depth as nat) == Err::<Type, TypeError>(e),
            },
{
    let ghost start = cache@;
    let mut out: Vec<Result<Mir, TypeError>> = Vec::new();
    let mut k: usize = 0;
    while k < units.len()
        invariant
            k <= units@.len(),
            env.graph_ok(),
            cache_step(*env, start, cache@),
            out@.len() == k,
            forall|i: int|
                0 <= i < k ==> match #[trigger] out@[i] {
                    Ok(m) => type_of(*env, units@[i], depth as nat) == Ok::<Type, TypeError>(m.ty)
                        && mirrors(m, units@[i]) && sound(*env, cache@, m),
                    Err(e) => type_of(*env, units@[i], depth as nat) == Err::<Type, TypeError>(e),
                },
        decreases units@.len() - k,
    {
        let ghost before = cache@;
        let ghost done = out@;
        let one = check_expr(env, cache, &units[k], depth);
        proof {
            lemma_extends_trans(start, before, cache@);
        }
        out.push(one);
        proof {
            assert forall|i: int| 0 <= i < k + 1 implies match #[trigger] out@[i] {
                Ok(m) => type_of(*env, units@[i], depth as nat) == Ok::<Type, TypeError>(m.ty)
                    && mirrors(m, units@[i]) && sound(*env, cache@, m),
                Err(e) => type_of(*env, units@[i], depth as nat) == Err::<Type, TypeError>(e),
            } by {
                if i < k {
                    assert(out@[i] == done[i]);
                    if done[i] is Ok {
                        lemma_sound_extends(*env, before, cache@, done[i]->Ok_0);
                    }
                }
            }
        }
        k += 1;
    }
    out
}

/// What checking a whole unit yields: the environment, the specializations
/// made on the way, and one answer per signature, per conversion and per
/// free-standing expression.
pub struct Report {
    pub env: Environment,
    pub cache: Vec<Specialization>,
    pub functions: Vec<Result<Option<Type>, DeclError>>,
    pub rules: Vec<Result<Mir, TypeError>>,
    pub units: Vec<Result<Mir, TypeError>>,
}

impl Report {
    /// Whether the report holds, for the unit's declarations and
    /// expressions, what the typing rules say within `depth` nested bodies.
    pub open spec fn describes(self, decls: Seq<Decl>, lambdas: Vec<Lambda>, units: Seq<Expr>, depth: nat) -> bool {
        &&& self.env.wf()
        &&& tables_match(self.env.structs@, self.env.rules@, decls)
        &&& signatures_match(self.env.fns@, decls)
        &&& self.env.lambdas == lambdas
        &&& cache_ok(self.env, self.cache@)
        &&& self.functions@.len() == self.env.fns@.len()
        &&& forall|i: int|
            0 <= i < self.functions@.len() ==> match #[trigger] self.functions@[i] {
                Ok(t) => declaration_type(self.env, i as usize, depth) == Ok::<
                    Option<Type>,
                    (Seq<Type>, TypeError),
                >(t),
                Err(e) => declaration_type(self.env, i as usize, depth) == Err::<
                    Option<Type>,
                    (Seq<Type>, TypeError),
                >((e.under@, e.error)),
            }
        &&& self.rules@.len() == self.env.rules@.len()
        &&& forall|k: int|
            0 <= k < self.rules@.len() ==> match #[trigger] self.rules@[k] {
                Ok(m) => rule_type(self.env, k as usize, depth) == Ok::<Type, TypeError>(
                    self.env.rules@[k].to,
                ) && mirrors(m, self.env.rules@[k].body) && sound(self.env, self.cache@, m),
                Err(e) => rule_type(self.env, k as usize, depth) == Err::<Type, TypeError>(e),
            }
        &&& self.units@.len() == units.len()
        &&& forall|i: int|
            0 <= i < units.len() ==> match #[trigger] self.units@[i] {
                Ok(m) => type_of(self.env, units[i], depth) == Ok::<Type, TypeError>(m.ty) && mirrors(
                    m,
                    units[i],
                ) && sound(self.env, self.cache@, m),
                Err(e) => type_of(self.env, units[i], depth) == Err::<Type, TypeError>(e),
            }
    }
}

/// Checks a whole unit: builds the environment from the declarations, then
/// types every function where it is declared, every conversion's body and
/// every free-standing expression, each on its own. A fault among the
/// declarations ends the work before anything is typed.
pub fn check_unit(decls: Vec<Decl>, lambdas: Vec<Lambda>, units: &Vec<Expr>, depth: usize) -> (r: Result<
    Report,
    EnvError,
>)
    ensures
        match r {
            Ok(report) => first_fault(decls@) is None && report.describes(
                decls@,
                lambdas,
                units@,
                depth as nat,
            ),
            Err(e) => first_fault(decls@) == Some(e),
        },
{
    let env = match build(decls, lambdas) {
        Err(e) => {
            return Err(e);
        },
        Ok(env) => env,
    };
    let mut cache: Vec<Specialization> = Vec::new();
    let mut functions: Vec<Result<Option<Type>, DeclError>> = Vec::new();
    let mut i: usize = 0;
    while i < env.fns.len()
        invariant
            i <= env.fns@.len(),
            env.wf(),
            cache_ok(env, cache@),
            functions@.len() == i,
            forall|j: int|
                0 <= j < i ==> match #[trigger] functions@[j] {
                    Ok(t) => declaration_type(env, j as usize, depth as nat) == Ok::<
                        Option<Type>,
                        (Seq<Type>, TypeError),
                    >(t),
                    Err(e) => declaration_type(env, j as usize, depth as nat) == Err::<
                        Option<Type>,
                        (Seq<Type>, TypeError),
                    >((e.under@, e.error)),
                },
        decreases env.fns@.len() - i,
    {
        let one = check_function(&env, &mut cache, i, depth);
        functions.push(one);
        i += 1;
    }
    let mut rules: Vec<Result<Mir, TypeError>> = Vec::new();
    let mut k: usize = 0;
    while k < env.rules.len()
        invariant
            k <= env.rules@.len(),
            env.wf(),
            cache_ok(env, cache@),
            rules@.len() == k,
            forall|j: int|
                0 <= j < k ==> match #[trigger] rules@[j] {
                    Ok(m) => rule_type(env, j as usize, depth as nat) == Ok::<Type, TypeError>(
                        env.rules@[j].to,
                    ) && mirrors(m, env.rules@[j].body) && sound(env, cache@, m),
                    Err(e) => rule_type(env, j as usize, depth as nat) == Err::<Type, TypeError>(e),
                },
        decreases env.rules@.len() - k,
    {
        let ghost before = cache@;
        let ghost done = rules@;
        let one = check_rule(&env, &mut cache, k, depth);
        rules.push(one);
        proof {
            assert forall|j: int| 0 <= j < k + 1 implies match #[trigger] rules@[j] {
                Ok(m) => rule_type(env, j as usize, depth as nat) == Ok::<Type, TypeError>(
                    env.rules@[j].to,
                ) && mirrors(m, env.rules@[j].body) && sound(env, cache@, m),
                Err(e) => rule_type(env, j as usize, depth as nat) == Err::<Type, TypeError>(e),
            } by {
                if j < k {
                    assert(rules@[j] == done[j]);
                    if done[j] is Ok {
                        lemma_sound_extends(env, before, cache@, done[j]->Ok_0);
                    }
                }
            }
        }
        k += 1;
    }
    let ghost before = cache@;
    let typed = check_all(&env, &mut cache, units, depth);
    proof {
        assert forall|j: int| 0 <= j < rules@.len() implies match #[trigger] rules@[j] {
            Ok(m) => rule_type(env, j as usize, depth as nat) == Ok::<Type, TypeError>(
                env.rules@[j].to,
            ) && mirrors(m, env.rules@[j].body) && sound(env, cache@, m),
            Err(e) => rule_type(env, j as usize, depth as nat) == Err::<Type, TypeError>(e),
        } by {
            if rules@[j] is Ok {
                lemma_sound_extends(env, before, cache@, rules@[j]->Ok_0);
            }
        }
    }
    Ok(Report { env, cache, functions, rules, units: typed })
}

} // verus!
