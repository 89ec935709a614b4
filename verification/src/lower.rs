//! Building blocks of the type checker: the specialization cache, the result
//! type of a typed body, and the conversion nodes around arguments.

use vstd::prelude::*;
use crate::ast::Binding;
use crate::env::Environment;
use crate::chains::{is_only_shortest, lemma_walk_links, route_of, walk_origin, RouteView};
use crate::ast::Expr;
use crate::mir::{
    coercions, converts_by, extends, lemma_sound_extends, mirrors, peel, plain, sound, strip, Mir,
    MirNode, Specialization,
};
use crate::overload::{conversion_of, conversion_views, conversions_of, convert, Conversion};
use crate::types::{same_types, Type};
use crate::typing::{
    body_error, conclude, expected, lemma_specialize_mono, specialize_spec, Callee, TypeError, Typing,
};

verus! {

/// The body that is typed for `callee`.
pub open spec fn callee_body(env: Environment, callee: Callee) -> Expr {
    match callee {
        Callee::Function(i) => env.fns@[i as int].body->Code_0,
        Callee::Lambda(id) => env.lambdas@[id as int].body,
    }
}

/// Whether no two entries are for the same callee under the same parameter
/// types.
pub open spec fn distinct_keys(cache: Seq<Specialization>) -> bool {
    forall|i: int, j: int|
        0 <= i < cache.len() && 0 <= j < cache.len() && (#[trigger] cache[i]).callee == (
        #[trigger] cache[j]).callee && cache[i].params@ == cache[j].params@ ==> i == j
}

/// Whether the cache holds one entry per callee and list of parameter types,
/// each with the result type of the callee's body under those types and with
/// that body, typed and sound.
pub open spec fn cache_ok(env: Environment, cache: Seq<Specialization>) -> bool {
    &&& distinct_keys(cache)
    &&& forall|i: int|
        0 <= i < cache.len() ==> {
            &&& specialize_spec(
                env,
                (#[trigger] cache[i]).callee,
                cache[i].params@,
                cache[i].fuel as nat,
            ) == Ok::<Type, TypeError>(cache[i].result)
            &&& sound(env, cache, cache[i].body)
            &&& mirrors(cache[i].body, callee_body(env, cache[i].callee))
        }
}

/// What holds of the cache after a step of type checking.
pub open spec fn cache_step(env: Environment, before: Seq<Specialization>, after: Seq<Specialization>) -> bool {
    cache_ok(env, after) && extends(before, after)
}

/// A cache that extends one that extends a third extends the third.
pub proof fn lemma_extends_trans(a: Seq<Specialization>, b: Seq<Specialization>, c: Seq<Specialization>)
    requires
        extends(a, b),
        extends(b, c),
    ensures
        extends(a, c),
{
    assert forall|i: int| 0 <= i < a.len() implies (#[trigger] c[i]).callee == a[i].callee
        && c[i].params@ == a[i].params@ && c[i].result == a[i].result by {
        assert(b[i].callee == a[i].callee);
    }
}

/// Whether two lists of nodes have the same length and the same nodes under
/// their conversions.
pub open spec fn same_under(a: Seq<Mir>, b: Seq<Mir>) -> bool {
    a.len() == b.len() && forall|i: int| 0 <= i < a.len() ==> strip(#[trigger] a[i]) == strip(b[i])
}

fn same_callee(a: &Callee, b: &Callee) -> (r: bool)
    ensures
        r == (*a == *b),
{
    match (a, b) {
        (Callee::Function(i), Callee::Function(j)) => *i == *j,
        (Callee::Lambda(i), Callee::Lambda(j)) => *i == *j,
        _ => false,
    }
}

/// The position of the entry for `callee` under `types`, if the cache has
/// one.
pub fn find_entry(cache: &Vec<Specialization>, callee: &Callee, types: &Vec<Type>) -> (r: Option<usize>)
    ensures
        match r {
            Some(i) => i < cache@.len() && cache@[i as int].callee == *callee
                && cache@[i as int].params@ == types@,
            None => forall|i: int|
                0 <= i < cache@.len() ==> !((#[trigger] cache@[i]).callee == *callee
                    && cache@[i].params@ == types@),
        },
{
    let mut i: usize = 0;
    while i < cache.len()
        invariant
            i <= cache@.len(),
            forall|k: int|
                0 <= k < i ==> !((#[trigger] cache@[k]).callee == *callee && cache@[k].params@
                    == types@),
        decreases cache@.len() - i,
    {
        if same_callee(&cache[i].callee, callee) && same_types(&cache[i].params, types) {
            return Some(i);
        }
        i += 1;
    }
    None
}

/// Records a specialization and exits its position. An entry for the same
/// callee and types stays where it is, with the smaller of the two limits.
pub fn store(
    env: &Environment,
    cache: &mut Vec<Specialization>,
    callee: Callee,
    types: Vec<Type>,
    fuel: usize,
    result: Type,
    body: Mir,
) -> (r: usize)
    requires
        cache_ok(*env, old(cache)@),
        specialize_spec(*env, callee, types@, fuel as nat) == Ok::<Type, TypeError>(result),
        sound(*env, old(cache)@, body),
        mirrors(body, callee_body(*env, callee)),
    ensures
        cache_step(*env, old(cache)@, final(cache)@),
        r < final(cache)@.len(),
        final(cache)@[r as int].callee == callee,
        final(cache)@[r as int].params@ == types@,
        final(cache)@[r as int].result == result,
{
    let ghost before = cache@;
    let ghost key = types@;
    let ghost given = body;
    match find_entry(cache, &callee, &types) {
        Some(i) => {
            proof {
                let known = before[i as int];
                if known.fuel <= fuel {
                    lemma_specialize_mono(*env, callee, key, known.fuel as nat, fuel as nat);
                } else {
                    lemma_specialize_mono(*env, callee, key, fuel as nat, known.fuel as nat);
                }
            }
            if fuel < cache[i].fuel {
                cache.set(i, Specialization { callee, params: types, fuel, result, body });
            }
            proof {
                assert forall|k: int| 0 <= k < before.len() implies (#[trigger] cache@[k]).callee
                    == before[k].callee && cache@[k].params@ == before[k].params@ && cache@[k].result
                    == before[k].result by {
                    if k != i {
                        assert(cache@[k] == before[k]);
                    }
                }
                assert(extends(before, cache@));
                assert forall|k: int| 0 <= k < cache@.len() implies {
                    &&& specialize_spec(
                        *env,
                        (#[trigger] cache@[k]).callee,
                        cache@[k].params@,
                        cache@[k].fuel as nat,
                    ) == Ok::<Type, TypeError>(cache@[k].result)
                    &&& sound(*env, cache@, cache@[k].body)
                    &&& mirrors(cache@[k].body, callee_body(*env, cache@[k].callee))
                } by {
                    if k != i {
                        assert(cache@[k] == before[k]);
                        lemma_sound_extends(*env, before, cache@, before[k].body);
                    } else {
                        lemma_sound_extends(*env, before, cache@, before[k].body);
                        lemma_sound_extends(*env, before, cache@, given);
                    }
                }
                assert forall|a: int, b: int|
                    0 <= a < cache@.len() && 0 <= b < cache@.len() && (#[trigger] cache@[a]).callee == (
                    #[trigger] cache@[b]).callee && cache@[a].params@ == cache@[b].params@ implies a
                    == b by {
                    assert(before[a].callee == cache@[a].callee && before[a].params@ == cache@[a].params@);
                    assert(before[b].callee == cache@[b].callee && before[b].params@ == cache@[b].params@);
                }
            }
            i
        },
        None => {
            let at = cache.len();
            cache.push(Specialization { callee, params: types, fuel, result, body });
            proof {
                assert forall|k: int| 0 <= k < before.len() implies (#[trigger] cache@[k]).callee
                    == before[k].callee && cache@[k].params@ == before[k].params@ && cache@[k].result
                    == before[k].result by {
                    assert(cache@[k] == before[k]);
                }
                assert(extends(before, cache@));
                assert forall|k: int| 0 <= k < cache@.len() implies {
                    &&& specialize_spec(
                        *env,
                        (#[trigger] cache@[k]).callee,
                        cache@[k].params@,
                        cache@[k].fuel as nat,
                    ) == Ok::<Type, TypeError>(cache@[k].result)
                    &&& sound(*env, cache@, cache@[k].body)
                    &&& mirrors(cache@[k].body, callee_body(*env, cache@[k].callee))
                } by {
                    if k < before.len() {
                        assert(cache@[k] == before[k]);
                        lemma_sound_extends(*env, before, cache@, before[k].body);
                    } else {
                        lemma_sound_extends(*env, before, cache@, given);
                    }
                }
                assert forall|a: int, b: int|
                    0 <= a < cache@.len() && 0 <= b < cache@.len() && (#[trigger] cache@[a]).callee == (
                    #[trigger] cache@[b]).callee && cache@[a].params@ == cache@[b].params@ implies a
                    == b by {
                    if a < before.len() {
                        assert(cache@[a] == before[a]);
                    }
                    if b < before.len() {
                        assert(cache@[b] == before[b]);
                    }
                }
            }
            at
        },
    }
}

/// The elements of `a` followed by those of `b`.
pub fn concat(a: Vec<Type>, b: Vec<Type>) -> (r: Vec<Type>)
    ensures
        r@ == a@ + b@,
{
    let mut out = a;
    let mut rest = b;
    out.append(&mut rest);
    out
}

fn is_never(t: &Type) -> (r: bool)
    ensures
        r == (*t == Type::Never),
{
    match t {
        Type::Never => true,
        _ => false,
    }
}

/// Decides `expected`.
pub fn expected_of(declared: &Option<Type>) -> (r: Option<Type>)
    ensures
        r == expected(*declared),
{
    match declared {
        Some(d) => if d.open() {
            None
        } else {
            Some(d.duplicate())
        },
        None => None,
    }
}

/// Decides `body_error`.
pub fn body_error_of(e: TypeError) -> (r: TypeError)
    ensures
        r == body_error(e),
{
    match e {
        TypeError::UnresolvedRecursiveGeneric => TypeError::UnresolvedRecursiveGeneric,
        _ => TypeError::TypeMismatch,
    }
}

/// The result type of a body that typed as `ty` with return sites of types
/// `exits`, given the declared result type.
pub fn conclude_body(env: &Environment, ty: &Type, exits: &Vec<Type>, declared: &Option<Type>) -> (r:
    Result<Type, TypeError>)
    requires
        env.graph_ok(),
    ensures
        r == conclude(env.rule_edges(), Typing { ty: *ty, exits: exits@ }, *declared),
{
    match declared {
        Some(d) => {
            if !d.open() {
                if is_never(ty) {
                    return Ok(d.duplicate());
                }
                return match convert(env, ty, d) {
                    Some(Conversion::Widen) => if ty.open() {
                        Ok(d.duplicate())
                    } else {
                        Ok(ty.duplicate())
                    },
                    Some(_) => Ok(d.duplicate()),
                    None => Err(TypeError::TypeMismatch),
                };
            }
        },
        None => {},
    }
    let result = if is_never(ty) && exits.len() > 0 {
        exits[0].duplicate()
    } else {
        ty.duplicate()
    };
    let mut i: usize = 0;
    while i < exits.len()
        invariant
            i <= exits@.len(),
            !(declared is Some && !declared->0.is_open()),
            result == if *ty == Type::Never && exits@.len() > 0 {
                exits@[0]
            } else {
                *ty
            },
            forall|k: int| 0 <= k < i ==> exits@[k] == result,
        decreases exits@.len() - i,
    {
        if !exits[i].same(&result) {
            assert(exits@[i as int] != result);
            return Err(TypeError::TypeMismatch);
        }
        i += 1;
    }
    if result.open() {
        return Err(TypeError::TypeMismatch);
    }
    match declared {
        Some(d) => if d.accepts(&result) {
            Ok(result)
        } else {
            Err(TypeError::TypeMismatch)
        },
        None => Ok(result),
    }
}

/// The type of an argument once its conversion is applied: its own under a
/// generic match, else the parameter's.
pub open spec fn converted_type(arg: Type, param: Type) -> Type {
    if param.is_open() {
        arg
    } else {
        param
    }
}

/// Wraps `m` in the nodes of conversion `c` towards a parameter of type
/// `target`: nothing for an exact or generic match, one node for a widening,
/// one node per declared conversion for a chain, innermost first.
pub(crate) fn wrap(
    env: &Environment,
    m: Mir,
    c: Conversion,
    target: &Type,
    Ghost(cache): Ghost<Seq<Specialization>>,
) -> (r: Mir)
    requires
        conversion_of(env.rule_edges(), m.ty, *target) == Some(c@),
        sound(*env, cache, m),
    ensures
        strip(r) == strip(m),
        sound(*env, cache, r),
        r.ty == converted_type(m.ty, *target),
        plain(m) ==> converts_by(r, c@),
{
    let ghost edges = env.rule_edges();
    let ghost from = m.ty;
    let ghost operand = m;
    match c {
        Conversion::Exact => m,
        Conversion::Generic => m,
        Conversion::Widen => Mir { ty: target.duplicate(), node: MirNode::Widen(Box::new(m)) },
        Conversion::Chain(p) => {
            let ghost inner = strip(m);
            proof {
                assert(p@.subrange(0, 0) =~= Seq::<usize>::empty());
                assert(route_of(edges, from, *target) == RouteView::Chain(p@));
                assert(is_only_shortest(edges, from, *target, p@));
                lemma_walk_links(edges, from, *target, p@);
            }
            let mut cur = m;
            let mut j: usize = 0;
            while j < p.len()
                invariant
                    j <= p@.len(),
                    edges == env.rule_edges(),
                    strip(cur) == inner,
                    sound(*env, cache, cur),
                    cur.ty == walk_origin(edges, from, p@, j as int),
                    plain(operand) ==> coercions(cur) == p@.subrange(0, j as int) && peel(cur)
                        == operand,
                    forall|k: int|
                        0 <= k < p@.len() ==> (#[trigger] p@[k]) < edges.len() && edges[p@[k] as int].0
                            == walk_origin(edges, from, p@, k),
                decreases p@.len() - j,
            {
                let rule = p[j];
                assert(p@[j as int] < edges.len());
                assert(edges[rule as int] == (env.rules@[rule as int].from, env.rules@[rule as int].to));
                let ghost below = cur;
                cur = Mir {
                    ty: env.rules[rule].to.duplicate(),
                    node: MirNode::Coerce(rule, Box::new(cur)),
                };
                proof {
                    if plain(operand) {
                        assert(coercions(cur) == coercions(below).push(rule));
                        assert(p@.subrange(0, j + 1) =~= p@.subrange(0, j as int).push(rule));
                    }
                }
                j += 1;
            }
            proof {
                assert(p@.subrange(0, j as int) =~= p@);
            }
            cur
        },
    }
}

/// Wraps each node in its conversion towards its parameter.
pub(crate) fn convert_args(
    env: &Environment,
    mirs: Vec<Mir>,
    convs: Vec<Conversion>,
    params: &Vec<Binding>,
    Ghost(cache): Ghost<Seq<Specialization>>,
) -> (r: Vec<Mir>)
    requires
        mirs@.len() == convs@.len(),
        conversions_of(env.rule_edges(), Seq::new(mirs@.len(), |i: int| mirs@[i].ty), params@) == Some(
            conversion_views(convs@),
        ),
        forall|i: int| 0 <= i < mirs@.len() ==> sound(*env, cache, #[trigger] mirs@[i]),
    ensures
        same_under(r@, mirs@),
        forall|i: int| 0 <= i < r@.len() ==> sound(*env, cache, #[trigger] r@[i]),
        forall|i: int|
            0 <= i < r@.len() ==> (#[trigger] r@[i]).ty == converted_type(mirs@[i].ty, params@[i].ty),
        forall|i: int|
            0 <= i < r@.len() && plain(mirs@[i]) ==> converts_by(
                #[trigger] r@[i],
                conversion_views(convs@)[i],
            ),
{
    let ghost edges = env.rule_edges();
    let ghost all = mirs@;
    let ghost types = Seq::new(mirs@.len(), |i: int| mirs@[i].ty);
    let ghost views = conversion_views(convs@);
    assert(conversions_of(edges, types, params@)->0.len() == types.len());
    assert(views.len() == convs@.len());
    let mut rest = mirs;
    let mut todo = convs;
    let mut back: Vec<Mir> = Vec::new();
    while rest.len() > 0
        invariant
            rest@.len() == todo@.len(),
            rest@.len() + back@.len() == all.len(),
            all.len() == params@.len(),
            all.len() == types.len(),
            edges == env.rule_edges(),
            types == Seq::new(all.len(), |i: int| all[i].ty),
            conversions_of(edges, types, params@) == Some(views),
            forall|i: int| 0 <= i < all.len() ==> sound(*env, cache, #[trigger] all[i]),
            forall|i: int| 0 <= i < rest@.len() ==> rest@[i] == all[i],
            forall|i: int| 0 <= i < todo@.len() ==> (#[trigger] todo@[i])@ == views[i],
            forall|i: int|
                0 <= i < back@.len() ==> {
                    let at = all.len() - 1 - i;
                    &&& strip(#[trigger] back@[i]) == strip(all[at])
                    &&& sound(*env, cache, back@[i])
                    &&& back@[i].ty == converted_type(all[at].ty, params@[at].ty)
                    &&& plain(all[at]) ==> converts_by(back@[i], views[at])
                },
        decreases rest@.len(),
    {
        let m = rest.pop().unwrap();
        let c = todo.pop().unwrap();
        let k = rest.len();
        proof {
            assert(m == all[k as int]);
            assert(c@ == views[k as int]);
            assert(types[k as int] == m.ty);
            assert(views[k as int] == conversion_of(edges, types[k as int], params@[k as int].ty)->0);
            assert(conversion_of(edges, types[k as int], params@[k as int].ty) is Some);
        }
        let wrapped = wrap(env, m, c, &params[k].ty, Ghost(cache));
        back.push(wrapped);
    }
    let mut out: Vec<Mir> = Vec::new();
    while back.len() > 0
        invariant
            back@.len() + out@.len() == all.len(),
            all.len() == params@.len(),
            forall|i: int|
                0 <= i < back@.len() ==> {
                    let at = all.len() - 1 - i;
                    &&& strip(#[trigger] back@[i]) == strip(all[at])
                    &&& sound(*env, cache, back@[i])
                    &&& back@[i].ty == converted_type(all[at].ty, params@[at].ty)
                    &&& plain(all[at]) ==> converts_by(back@[i], views[at])
                },
            forall|i: int|
                0 <= i < out@.len() ==> {
                    &&& strip(#[trigger] out@[i]) == strip(all[i])
                    &&& sound(*env, cache, out@[i])
                    &&& out@[i].ty == converted_type(all[i].ty, params@[i].ty)
                    &&& plain(all[i]) ==> converts_by(out@[i], views[i])
                },
        decreases back@.len(),
    {
        let m = back.pop().unwrap();
        out.push(m);
    }
    out
}

} // verus!
