//! Overload resolution: which signature a call or operator use means, and
//! which implicit conversion each argument takes.
//!
//! Every signature of the called symbol whose parameters all accept their
//! arguments is viable. Viable signatures are ranked by the number of
//! declared conversions they need, then by the number of parameters that
//! match loosely (generically, or by forgetting an array's length). The call
//! means the one signature that ranks before every other viable one. The
//! order of declaration plays no part.

use vstd::prelude::*;
use crate::ast::{Binding, Signature};
use crate::chains::{
    is_reordering, lemma_route_order_independent, moved, route_of, Route, RouteView,
};
use crate::env::Environment;
use crate::types::{Symbol, Type};

verus! {

/// How one argument reaches its parameter's type.
#[derive(Debug, PartialEq, Eq)]
pub enum Conversion {
    /// The types are equal.
    Exact,
    /// The parameter's type is open and admits the argument's type.
    Generic,
    /// An array of fixed length is passed where one of dynamic length is
    /// expected, or an empty array literal takes the expected array type.
    Widen,
    /// Declared conversions, as positions in the environment's rules, in the
    /// order of application.
    Chain(Vec<usize>),
}

/// The mathematical value of a [`Conversion`].
pub enum ConversionView {
    Exact,
    Generic,
    Widen,
    Chain(Seq<usize>),
}

impl View for Conversion {
    type V = ConversionView;

    open spec fn view(&self) -> ConversionView {
        match self {
            Conversion::Exact => ConversionView::Exact,
            Conversion::Generic => ConversionView::Generic,
            Conversion::Widen => ConversionView::Widen,
            Conversion::Chain(p) => ConversionView::Chain(p@),
        }
    }
}

impl ConversionView {
    /// The number of declared conversions applied.
    pub open spec fn cost(self) -> nat {
        match self {
            ConversionView::Chain(p) => p.len(),
            _ => 0,
        }
    }

    /// 1 for a loose match, 0 for an exact or converted one.
    pub open spec fn looseness(self) -> nat {
        match self {
            ConversionView::Generic => 1,
            ConversionView::Widen => 1,
            _ => 0,
        }
    }
}

/// The views of a list of conversions.
pub open spec fn conversion_views(cs: Seq<Conversion>) -> Seq<ConversionView> {
    Seq::new(cs.len(), |i: int| cs[i]@)
}

/// Whether an argument of type `arg` fits the concrete array type `param` by
/// forgetting its length, or, for the empty array literal (whose element type
/// is still `Any`), by taking the expected array type.
pub open spec fn widens(arg: Type, param: Type) -> bool {
    match (arg, param) {
        (Type::FixedArray(a, n), Type::DynArray(e)) => *a == *e || (*a == Type::Any && n == 0),
        (Type::FixedArray(a, n), Type::FixedArray(_, m)) => *a == Type::Any && n == 0 && m == 0,
        _ => false,
    }
}

/// How an argument of type `arg` reaches a parameter of type `param`, if it
/// does: an open parameter admits concrete arguments generically; a concrete
/// one takes an equal type as it is, an array by widening, and any other type
/// by the one shortest chain of declared conversions.
pub open spec fn conversion_of(edges: Seq<(Type, Type)>, arg: Type, param: Type) -> Option<
    ConversionView,
> {
    if param.is_open() {
        if !arg.is_open() && param.admits(arg) {
            Some(ConversionView::Generic)
        } else {
            None
        }
    } else if arg == param {
        Some(ConversionView::Exact)
    } else if widens(arg, param) {
        Some(ConversionView::Widen)
    } else {
        match route_of(edges, arg, param) {
            RouteView::Chain(p) => Some(ConversionView::Chain(p)),
            _ => None,
        }
    }
}

/// The conversions of all arguments, where the arity fits and every argument
/// reaches its parameter.
pub open spec fn conversions_of(edges: Seq<(Type, Type)>, args: Seq<Type>, params: Seq<Binding>) -> Option<
    Seq<ConversionView>,
> {
    if args.len() == params.len() && forall|i: int|
        0 <= i < args.len() ==> (#[trigger] conversion_of(edges, args[i], params[i].ty)) is Some {
        Some(Seq::new(args.len(), |i: int| conversion_of(edges, args[i], params[i].ty)->0))
    } else {
        None
    }
}

/// The number of declared conversions in a list of conversions.
pub open spec fn total_cost(cs: Seq<ConversionView>) -> nat
    decreases cs.len(),
{
    if cs.len() == 0 {
        0
    } else {
        total_cost(cs.drop_last()) + cs.last().cost()
    }
}

/// The number of loose matches in a list of conversions.
pub open spec fn total_looseness(cs: Seq<ConversionView>) -> nat
    decreases cs.len(),
{
    if cs.len() == 0 {
        0
    } else {
        total_looseness(cs.drop_last()) + cs.last().looseness()
    }
}

/// Whether signature `k` is viable for the call.
pub open spec fn viable(
    edges: Seq<(Type, Type)>,
    fns: Seq<Signature>,
    name: Symbol,
    args: Seq<Type>,
    k: int,
) -> bool {
    &&& 0 <= k < fns.len()
    &&& fns[k].name == name
    &&& conversions_of(edges, args, fns[k].params@) is Some
}

/// The rank of a viable signature: declared conversions first, loose matches
/// second.
pub open spec fn rank(edges: Seq<(Type, Type)>, fns: Seq<Signature>, args: Seq<Type>, k: int) -> (
    nat,
    nat,
) {
    let cs = conversions_of(edges, args, fns[k].params@)->0;
    (total_cost(cs), total_looseness(cs))
}

/// Whether rank `a` comes strictly before rank `b`.
pub open spec fn better(a: (nat, nat), b: (nat, nat)) -> bool {
    a.0 < b.0 || (a.0 == b.0 && a.1 < b.1)
}

/// Whether signature `i` is viable and ranks strictly before every other
/// viable signature.
pub open spec fn is_best(
    edges: Seq<(Type, Type)>,
    fns: Seq<Signature>,
    name: Symbol,
    args: Seq<Type>,
    i: int,
) -> bool {
    &&& viable(edges, fns, name, args, i)
    &&& forall|k: int| #[trigger]
        viable(edges, fns, name, args, k) && k != i ==> better(
            rank(edges, fns, args, i),
            rank(edges, fns, args, k),
        )
}

/// What a call resolves to.
#[derive(Debug, PartialEq, Eq)]
pub enum Resolution {
    /// The position of the chosen signature, and one conversion per argument.
    Match(usize, Vec<Conversion>),
    /// Several viable signatures share the best rank.
    Ambiguous,
    /// No signature is viable.
    NoMatch,
}

/// The mathematical value of a [`Resolution`].
pub enum ResolutionView {
    Match(usize, Seq<ConversionView>),
    Ambiguous,
    NoMatch,
}

impl View for Resolution {
    type V = ResolutionView;

    open spec fn view(&self) -> ResolutionView {
        match self {
            Resolution::Match(i, cs) => ResolutionView::Match(*i, conversion_views(cs@)),
            Resolution::Ambiguous => ResolutionView::Ambiguous,
            Resolution::NoMatch => ResolutionView::NoMatch,
        }
    }
}

/// The resolution of a call of `name` with arguments of types `args`.
pub open spec fn resolve_spec(
    edges: Seq<(Type, Type)>,
    fns: Seq<Signature>,
    name: Symbol,
    args: Seq<Type>,
) -> ResolutionView {
    if exists|i: int| is_best(edges, fns, name, args, i) {
        let i = choose|i: int| is_best(edges, fns, name, args, i);
        ResolutionView::Match(i as usize, conversions_of(edges, args, fns[i].params@)->0)
    } else if exists|i: int| viable(edges, fns, name, args, i) {
        ResolutionView::Ambiguous
    } else {
        ResolutionView::NoMatch
    }
}

/// At most one signature is best.
pub proof fn lemma_best_unique(
    edges: Seq<(Type, Type)>,
    fns: Seq<Signature>,
    name: Symbol,
    args: Seq<Type>,
    i: int,
    j: int,
)
    requires
        is_best(edges, fns, name, args, i),
        is_best(edges, fns, name, args, j),
    ensures
        i == j,
{
}

/// Where signature `i` is best, the call resolves to it.
pub proof fn lemma_resolves_to_best(
    edges: Seq<(Type, Type)>,
    fns: Seq<Signature>,
    name: Symbol,
    args: Seq<Type>,
    i: int,
)
    requires
        is_best(edges, fns, name, args, i),
    ensures
        resolve_spec(edges, fns, name, args) == ResolutionView::Match(
            i as usize,
            conversions_of(edges, args, fns[i].params@)->0,
        ),
{
    let c = choose|c: int| is_best(edges, fns, name, args, c);
    lemma_best_unique(edges, fns, name, args, i, c);
}

fn is_any(t: &Type) -> (r: bool)
    ensures
        r == (*t == Type::Any),
{
    match t {
        Type::Any => true,
        _ => false,
    }
}

/// Decides `widens`.
pub fn widening(arg: &Type, param: &Type) -> (r: bool)
    ensures
        r == widens(*arg, *param),
{
    match (arg, param) {
        (Type::FixedArray(a, n), Type::DynArray(e)) => a.same(e) || (is_any(a) && *n == 0),
        (Type::FixedArray(a, n), Type::FixedArray(_, m)) => is_any(a) && *n == 0 && *m == 0,
        _ => false,
    }
}

/// Finds how an argument of type `arg` reaches a parameter of type `param`.
pub fn convert(env: &Environment, arg: &Type, param: &Type) -> (r: Option<Conversion>)
    requires
        env.graph_ok(),
    ensures
        match r {
            Some(c) => conversion_of(env.rule_edges(), *arg, *param) == Some(c@),
            None => conversion_of(env.rule_edges(), *arg, *param) is None,
        },
{
    if param.open() {
        if !arg.open() && param.accepts(arg) {
            Some(Conversion::Generic)
        } else {
            None
        }
    } else if arg.same(param) {
        Some(Conversion::Exact)
    } else if widening(arg, param) {
        Some(Conversion::Widen)
    } else {
        match env.coerce(arg, param) {
            Route::Chain(p) => Some(Conversion::Chain(p)),
            _ => None,
        }
    }
}

/// What `rate` found for a viable signature.
pub struct Rating {
    pub conversions: Vec<Conversion>,
    pub cost: u128,
    pub looseness: usize,
}

proof fn lemma_cost_room(i: nat, m: nat)
    requires
        i < m,
        m <= 0xffff_ffff_ffff_ffff,
    ensures
        (i + 1) * m <= u128::MAX,
        i * m + m == (i + 1) * m,
{
    assert((i + 1) * m <= m * m) by (nonlinear_arith)
        requires
            i + 1 <= m,
    ;
    assert(m * m <= 0xffff_ffff_ffff_ffff * 0xffff_ffff_ffff_ffff) by (nonlinear_arith)
        requires
            m <= 0xffff_ffff_ffff_ffff,
    ;
    assert(i * m + m == (i + 1) * m) by (nonlinear_arith);
}

/// Rates one signature's parameters against the arguments: the conversions
/// with their totals, or `None` where the arity differs or some argument does
/// not reach its parameter.
pub fn rate(env: &Environment, params: &Vec<Binding>, args: &Vec<Type>) -> (r: Option<Rating>)
    requires
        env.graph_ok(),
    ensures
        match r {
            Some(rating) => {
                let cs = conversions_of(env.rule_edges(), args@, params@);
                &&& cs == Some(conversion_views(rating.conversions@))
                &&& rating.cost == total_cost(cs->0)
                &&& rating.looseness == total_looseness(cs->0)
            },
            None => conversions_of(env.rule_edges(), args@, params@) is None,
        },
{
    if args.len() != params.len() {
        return None;
    }
    let ghost edges = env.rule_edges();
    let mut done: Vec<Conversion> = Vec::new();
    let mut cost: u128 = 0;
    let mut looseness: usize = 0;
    let mut i: usize = 0;
    while i < args.len()
        invariant
            env.graph_ok(),
            edges == env.rule_edges(),
            i <= args.len(),
            args.len() == params.len(),
            done.len() == i,
            forall|k: int|
                0 <= k < i ==> #[trigger] conversion_of(edges, args[k], params[k].ty) == Some(
                    done[k]@,
                ),
            cost == total_cost(conversion_views(done@)),
            looseness == total_looseness(conversion_views(done@)),
            cost <= i * usize::MAX,
            looseness <= i,
        decreases args.len() - i,
    {
        match convert(env, &args[i], &params[i].ty) {
            None => {
                return None;
            },
            Some(c) => {
                let ghost before = conversion_views(done@);
                let step: usize = match &c {
                    Conversion::Chain(p) => p.len(),
                    _ => 0,
                };
                let loose: usize = match &c {
                    Conversion::Generic => 1,
                    Conversion::Widen => 1,
                    _ => 0,
                };
                proof {
                    lemma_cost_room(i as nat, usize::MAX as nat);
                }
                done.push(c);
                cost = cost + step as u128;
                looseness = looseness + loose;
                proof {
                    assert(conversion_views(done@).drop_last() =~= before);
                }
            },
        }
        i += 1;
    }
    proof {
        assert(conversion_views(done@) =~= conversions_of(edges, args@, params@)->0);
    }
    Some(Rating { conversions: done, cost, looseness })
}

/// Resolves a call of `name` with arguments of types `args` against the
/// environment's signatures.
pub fn resolve(env: &Environment, name: Symbol, args: &Vec<Type>) -> (r: Resolution)
    requires
        env.graph_ok(),
    ensures
        r@ == resolve_spec(env.rule_edges(), env.fns@, name, args@),
        r matches Resolution::Match(i, cs) ==> {
            &&& i < env.fns@.len()
            &&& env.fns@[i as int].name == name
            &&& env.fns@[i as int].params@.len() == args@.len()
            &&& cs@.len() == args@.len()
            &&& conversions_of(env.rule_edges(), args@, env.fns@[i as int].params@) == Some(
                conversion_views(cs@),
            )
        },
{
    let ghost edges = env.rule_edges();
    let ghost fns = env.fns@;
    let mut found: bool = false;
    let mut best: usize = 0;
    let mut best_rating = Rating { conversions: Vec::new(), cost: 0, looseness: 0 };
    let mut tie: bool = false;
    let ghost mut rival: int = 0;
    let mut i: usize = 0;
    while i < env.fns.len()
        invariant
            env.graph_ok(),
            edges == env.rule_edges(),
            fns == env.fns@,
            i <= fns.len(),
            !found ==> forall|k: int| 0 <= k < i ==> !viable(edges, fns, name, args@, k),
            found ==> {
                &&& best < i
                &&& viable(edges, fns, name, args@, best as int)
                &&& conversions_of(edges, args@, fns[best as int].params@) == Some(
                    conversion_views(best_rating.conversions@),
                )
                &&& rank(edges, fns, args@, best as int) == (
                    best_rating.cost as nat,
                    best_rating.looseness as nat,
                )
                &&& forall|k: int|
                    0 <= k < i && #[trigger] viable(edges, fns, name, args@, k) ==> !better(
                        rank(edges, fns, args@, k),
                        rank(edges, fns, args@, best as int),
                    )
                &&& tie ==> 0 <= rival < i && rival != best && viable(edges, fns, name, args@, rival)
                    && rank(edges, fns, args@, rival) == rank(edges, fns, args@, best as int)
                &&& !tie ==> forall|k: int|
                    0 <= k < i && k != best && #[trigger] viable(edges, fns, name, args@, k) ==> rank(
                        edges,
                        fns,
                        args@,
                        k,
                    ) != rank(edges, fns, args@, best as int)
            },
        decreases fns.len() - i,
    {
        if env.fns[i].name == name {
            match rate(env, &env.fns[i].params, args) {
                None => {},
                Some(rating) => {
                    if !found || rating.cost < best_rating.cost || (rating.cost == best_rating.cost
                        && rating.looseness < best_rating.looseness) {
                        found = true;
                        best = i;
                        best_rating = rating;
                        tie = false;
                    } else if rating.cost == best_rating.cost && rating.looseness
                        == best_rating.looseness {
                        tie = true;
                        proof {
                            rival = i as int;
                        }
                    }
                },
            }
        }
        i += 1;
    }
    if !found {
        return Resolution::NoMatch;
    }
    if tie {
        proof {
            assert forall|c: int| !is_best(edges, fns, name, args@, c) by {
                if is_best(edges, fns, name, args@, c) {
                    if c == best {
                        assert(viable(edges, fns, name, args@, rival));
                    } else {
                        assert(viable(edges, fns, name, args@, best as int));
                    }
                }
            }
            assert(viable(edges, fns, name, args@, best as int));
        }
        return Resolution::Ambiguous;
    }
    proof {
        assert(is_best(edges, fns, name, args@, best as int));
        lemma_resolves_to_best(edges, fns, name, args@, best as int);
        assert(conversion_views(best_rating.conversions@).len() == best_rating.conversions@.len());
        assert(conversions_of(edges, args@, fns[best as int].params@)->0.len() == args@.len());
    }
    Resolution::Match(best, best_rating.conversions)
}

/// An argument whose type equals its parameter's type is never converted by
/// a declared conversion: a concrete type is taken as it is.
pub proof fn lemma_equal_types_need_no_conversion(edges: Seq<(Type, Type)>, t: Type)
    ensures
        !t.is_open() ==> conversion_of(edges, t, t) == Some(ConversionView::Exact),
        conversion_of(edges, t, t) matches Some(c) ==> c.cost() == 0,
{
}

/// Conversions that are all exact cost nothing and are nowhere loose.
pub proof fn lemma_exact_totals(cs: Seq<ConversionView>)
    requires
        forall|k: int| 0 <= k < cs.len() ==> cs[k] == ConversionView::Exact,
    ensures
        total_cost(cs) == 0,
        total_looseness(cs) == 0,
    decreases cs.len(),
{
    if cs.len() > 0 {
        lemma_exact_totals(cs.drop_last());
    }
}

/// In a list of conversions without cost and without looseness, no entry has
/// either.
pub proof fn lemma_free_entries(cs: Seq<ConversionView>)
    requires
        total_cost(cs) == 0,
        total_looseness(cs) == 0,
    ensures
        forall|k: int| 0 <= k < cs.len() ==> (#[trigger] cs[k]).cost() == 0 && cs[k].looseness() == 0,
    decreases cs.len(),
{
    if cs.len() > 0 {
        lemma_free_entries(cs.drop_last());
        assert forall|k: int| 0 <= k < cs.len() implies (#[trigger] cs[k]).cost() == 0
            && cs[k].looseness() == 0 by {
            if k < cs.len() - 1 {
                assert(cs[k] == cs.drop_last()[k]);
            } else {
                assert(cs[k] == cs.last());
            }
        }
    }
}

/// A conversion without cost and without looseness joins equal types.
pub proof fn lemma_free_conversion_is_exact(edges: Seq<(Type, Type)>, arg: Type, param: Type)
    requires
        conversion_of(edges, arg, param) matches Some(c) && c.cost() == 0 && c.looseness() == 0,
    ensures
        arg == param,
{
    if arg != param && !param.is_open() && !widens(arg, param) {
        let p = route_of(edges, arg, param)->Chain_0;
        assert(crate::chains::is_only_shortest(edges, arg, param, p));
        assert(p.len() == 0);
        assert(crate::chains::is_walk(edges, arg, param, p));
    }
}

/// A signature whose parameter types equal the concrete argument types wins:
/// where an exact match exists, the call resolves to it and no argument is
/// converted, whatever other signatures and conversions are declared.
pub proof fn lemma_exact_match_wins(
    edges: Seq<(Type, Type)>,
    fns: Seq<Signature>,
    name: Symbol,
    args: Seq<Type>,
    i: int,
)
    requires
        fns.len() <= usize::MAX,
        0 <= i < fns.len(),
        fns[i].name == name,
        crate::ast::binding_types(fns[i].params@) == args,
        forall|k: int| 0 <= k < args.len() ==> !(#[trigger] args[k]).is_open(),
        forall|a: int, b: int|
            0 <= a < fns.len() && 0 <= b < fns.len() && a != b ==> (
                fns[a].name,
                crate::ast::binding_types(fns[a].params@),
            ) != (fns[b].name, crate::ast::binding_types(fns[b].params@)),
    ensures
        resolve_spec(edges, fns, name, args) == ResolutionView::Match(
            i as usize,
            Seq::new(args.len(), |k: int| ConversionView::Exact),
        ),
{
    let params = fns[i].params@;
    assert forall|k: int| 0 <= k < args.len() implies (#[trigger] conversion_of(
        edges,
        args[k],
        params[k].ty,
    )) == Some(ConversionView::Exact) by {
        assert(crate::ast::binding_types(params)[k] == params[k].ty);
    }
    let cs = conversions_of(edges, args, params)->0;
    assert(cs =~= Seq::new(args.len(), |k: int| ConversionView::Exact));
    lemma_exact_totals(cs);
    assert forall|k: int| #[trigger] viable(edges, fns, name, args, k) && k != i implies better(
        rank(edges, fns, args, i),
        rank(edges, fns, args, k),
    ) by {
        let other = conversions_of(edges, args, fns[k].params@)->0;
        if total_cost(other) == 0 && total_looseness(other) == 0 {
            lemma_free_entries(other);
            let ps = fns[k].params@;
            assert forall|m: int| 0 <= m < args.len() implies crate::ast::binding_types(ps)[m]
                == args[m] by {
                assert(other[m].cost() == 0 && other[m].looseness() == 0);
                assert(conversion_of(edges, args[m], ps[m].ty) is Some);
                assert(other[m] == conversion_of(edges, args[m], ps[m].ty)->0);
                lemma_free_conversion_is_exact(edges, args[m], ps[m].ty);
            }
            assert(crate::ast::binding_types(ps) =~= args);
        }
    }
    assert(is_best(edges, fns, name, args, i));
    lemma_resolves_to_best(edges, fns, name, args, i);
}

/// Two different viable signatures that share the best rank make the call
/// ambiguous.
pub proof fn lemma_tie_is_ambiguous(
    edges: Seq<(Type, Type)>,
    fns: Seq<Signature>,
    name: Symbol,
    args: Seq<Type>,
    i: int,
    j: int,
)
    requires
        i != j,
        viable(edges, fns, name, args, i),
        viable(edges, fns, name, args, j),
        rank(edges, fns, args, i) == rank(edges, fns, args, j),
        forall|k: int| #[trigger]
            viable(edges, fns, name, args, k) ==> !better(
                rank(edges, fns, args, k),
                rank(edges, fns, args, i),
            ),
    ensures
        resolve_spec(edges, fns, name, args) == ResolutionView::Ambiguous,
{
    assert forall|c: int| !is_best(edges, fns, name, args, c) by {
        if is_best(edges, fns, name, args, c) {
            if c == i {
                assert(viable(edges, fns, name, args, j));
            } else {
                assert(viable(edges, fns, name, args, i));
            }
        }
    }
}

/// Resolution does not depend on the order of declaration: where `fns2` holds
/// the signatures of `fns1` in another order (`to` maps each position in
/// `fns1` to its position in `fns2`, `back` is its inverse), a call that
/// resolves to a signature of `fns1` resolves to the same signature of
/// `fns2` with the same conversions, and an ambiguous or unmatched call stays
/// so.
pub proof fn lemma_order_independent(
    edges: Seq<(Type, Type)>,
    fns1: Seq<Signature>,
    fns2: Seq<Signature>,
    to: Seq<int>,
    back: Seq<int>,
    name: Symbol,
    args: Seq<Type>,
)
    requires
        fns1.len() <= usize::MAX,
        fns1.len() == fns2.len(),
        to.len() == fns1.len(),
        back.len() == fns1.len(),
        forall|i: int|
            0 <= i < fns1.len() ==> 0 <= #[trigger] to[i] < fns1.len() && back[to[i]] == i
                && fns2[to[i]] == fns1[i],
        forall|j: int| 0 <= j < fns1.len() ==> 0 <= #[trigger] back[j] < fns1.len() && to[back[j]] == j,
    ensures
        match resolve_spec(edges, fns1, name, args) {
            ResolutionView::Match(i, cs) => i < fns1.len() && resolve_spec(edges, fns2, name, args)
                == ResolutionView::Match(to[i as int] as usize, cs) && fns2[to[i as int]]
                == fns1[i as int],
            ResolutionView::Ambiguous => resolve_spec(edges, fns2, name, args)
                == ResolutionView::Ambiguous,
            ResolutionView::NoMatch => resolve_spec(edges, fns2, name, args)
                == ResolutionView::NoMatch,
        },
{
    assert forall|k: int| 0 <= k < fns1.len() implies #[trigger] viable(edges, fns1, name, args, k)
        == viable(edges, fns2, name, args, to[k]) && rank(edges, fns1, args, k) == rank(
        edges,
        fns2,
        args,
        to[k],
    ) by {
    }
    assert forall|i: int| is_best(edges, fns1, name, args, i) implies is_best(
        edges,
        fns2,
        name,
        args,
        to[i],
    ) by {
        assert forall|k: int| #[trigger]
            viable(edges, fns2, name, args, k) && k != to[i] implies better(
            rank(edges, fns2, args, to[i]),
            rank(edges, fns2, args, k),
        ) by {
            let b = back[k];
            assert(to[b] == k);
            assert(viable(edges, fns1, name, args, b));
        }
    }
    assert forall|j: int| is_best(edges, fns2, name, args, j) implies is_best(
        edges,
        fns1,
        name,
        args,
        back[j],
    ) by {
        let i = back[j];
        assert(to[i] == j);
        assert(viable(edges, fns1, name, args, i));
        assert forall|k: int| #[trigger]
            viable(edges, fns1, name, args, k) && k != i implies better(
            rank(edges, fns1, args, i),
            rank(edges, fns1, args, k),
        ) by {
            assert(viable(edges, fns2, name, args, to[k]));
        }
    }
    if exists|i: int| is_best(edges, fns1, name, args, i) {
        let i = choose|i: int| is_best(edges, fns1, name, args, i);
        lemma_resolves_to_best(edges, fns2, name, args, to[i]);
    } else if exists|i: int| viable(edges, fns1, name, args, i) {
        let i = choose|i: int| viable(edges, fns1, name, args, i);
        assert(viable(edges, fns2, name, args, to[i]));
        assert forall|j: int| !is_best(edges, fns2, name, args, j) by {
            if is_best(edges, fns2, name, args, j) {
                assert(is_best(edges, fns1, name, args, back[j]));
            }
        }
    } else {
        assert forall|j: int| !viable(edges, fns2, name, args, j) by {
            if viable(edges, fns2, name, args, j) {
                assert(to[back[j]] == j);
                assert(viable(edges, fns1, name, args, back[j]));
            }
        }
    }
}

/// The conversion `c` with the positions of a chain moved by `to`.
pub open spec fn moved_conversion(c: ConversionView, to: Seq<int>) -> ConversionView {
    match c {
        ConversionView::Chain(p) => ConversionView::Chain(moved(p, to)),
        other => other,
    }
}

/// The conversion of an argument does not depend on the order in which the
/// conversions were declared: with the rules in another order it is of the
/// same kind and cost, and a chain names the same rules at their new
/// positions.
pub proof fn lemma_conversion_order_independent(
    edges1: Seq<(Type, Type)>,
    edges2: Seq<(Type, Type)>,
    to: Seq<int>,
    back: Seq<int>,
    arg: Type,
    param: Type,
)
    requires
        edges1.len() == edges2.len(),
        edges1.len() <= usize::MAX,
        is_reordering(to, back, edges1.len()),
        forall|i: int| 0 <= i < edges1.len() ==> edges2[#[trigger] to[i]] == edges1[i],
    ensures
        match conversion_of(edges1, arg, param) {
            Some(c) => conversion_of(edges2, arg, param) == Some(moved_conversion(c, to))
                && moved_conversion(c, to).cost() == c.cost() && moved_conversion(c, to).looseness()
                == c.looseness(),
            None => conversion_of(edges2, arg, param) is None,
        },
{
    lemma_route_order_independent(edges1, edges2, to, back, arg, param);
}

proof fn lemma_totals_moved(cs: Seq<ConversionView>, ds: Seq<ConversionView>)
    requires
        cs.len() == ds.len(),
        forall|k: int|
            0 <= k < cs.len() ==> (#[trigger] cs[k]).cost() == ds[k].cost() && cs[k].looseness()
                == ds[k].looseness(),
    ensures
        total_cost(cs) == total_cost(ds),
        total_looseness(cs) == total_looseness(ds),
    decreases cs.len(),
{
    if cs.len() > 0 {
        assert forall|k: int| 0 <= k < cs.len() - 1 implies (#[trigger] cs.drop_last()[k]).cost()
            == ds.drop_last()[k].cost() && cs.drop_last()[k].looseness() == ds.drop_last()[k].looseness() by {
            assert(cs.drop_last()[k] == cs[k]);
            assert(ds.drop_last()[k] == ds[k]);
        }
        lemma_totals_moved(cs.drop_last(), ds.drop_last());
        assert(cs.last() == cs[cs.len() - 1]);
    }
}

/// Resolution does not depend on the order in which the conversions were
/// declared: with the rules in another order, a call resolves to the same
/// signature, with each chain naming the same rules at their new positions,
/// and an ambiguous or unmatched call stays so.
pub proof fn lemma_rule_order_independent(
    edges1: Seq<(Type, Type)>,
    edges2: Seq<(Type, Type)>,
    to: Seq<int>,
    back: Seq<int>,
    fns: Seq<Signature>,
    name: Symbol,
    args: Seq<Type>,
)
    requires
        edges1.len() == edges2.len(),
        edges1.len() <= usize::MAX,
        is_reordering(to, back, edges1.len()),
        forall|i: int| 0 <= i < edges1.len() ==> edges2[#[trigger] to[i]] == edges1[i],
    ensures
        match resolve_spec(edges1, fns, name, args) {
            ResolutionView::Match(i, cs) => resolve_spec(edges2, fns, name, args)
                == ResolutionView::Match(
                i,
                Seq::new(cs.len(), |k: int| moved_conversion(cs[k], to)),
            ),
            other => resolve_spec(edges2, fns, name, args) == other,
        },
{
    assert forall|k: int| 0 <= k < fns.len() implies {
        &&& (#[trigger] viable(edges1, fns, name, args, k)) == viable(edges2, fns, name, args, k)
        &&& viable(edges1, fns, name, args, k) ==> rank(edges1, fns, args, k) == rank(
            edges2,
            fns,
            args,
            k,
        ) && conversions_of(edges2, args, fns[k].params@)->0 == Seq::new(
            args.len(),
            |m: int| moved_conversion(conversions_of(edges1, args, fns[k].params@)->0[m], to),
        )
    } by {
        let params = fns[k].params@;
        if args.len() == params.len() {
            assert forall|m: int| 0 <= m < args.len() implies match #[trigger] conversion_of(
                edges1,
                args[m],
                params[m].ty,
            ) {
                Some(c) => conversion_of(edges2, args[m], params[m].ty) == Some(
                    moved_conversion(c, to),
                ) && moved_conversion(c, to).cost() == c.cost() && moved_conversion(c, to).looseness()
                    == c.looseness(),
                None => conversion_of(edges2, args[m], params[m].ty) is None,
            } by {
                lemma_conversion_order_independent(edges1, edges2, to, back, args[m], params[m].ty);
            }
            if conversions_of(edges1, args, params) is Some {
                assert forall|m: int| 0 <= m < args.len() implies (#[trigger] conversion_of(
                    edges2,
                    args[m],
                    params[m].ty,
                )) is Some by {
                    assert(conversion_of(edges1, args[m], params[m].ty) is Some);
                }
                let cs = conversions_of(edges1, args, params)->0;
                let ds = conversions_of(edges2, args, params)->0;
                assert forall|m: int| 0 <= m < cs.len() implies ds[m] == moved_conversion(cs[m], to)
                    && (#[trigger] cs[m]).cost() == ds[m].cost() && cs[m].looseness()
                    == ds[m].looseness() by {
                    assert(conversion_of(edges1, args[m], params[m].ty) is Some);
                }
                lemma_totals_moved(cs, ds);
                assert(ds =~= Seq::new(args.len(), |m: int| moved_conversion(cs[m], to)));
            } else {
                if conversions_of(edges2, args, params) is Some {
                    assert forall|m: int| 0 <= m < args.len() implies (#[trigger] conversion_of(
                        edges1,
                        args[m],
                        params[m].ty,
                    )) is Some by {
                        assert(conversion_of(edges2, args[m], params[m].ty) is Some);
                    }
                }
            }
        }
    }
    assert forall|i: int|
        is_best(edges1, fns, name, args, i) == is_best(edges2, fns, name, args, i) by {
        if is_best(edges1, fns, name, args, i) {
            assert forall|k: int| #[trigger]
                viable(edges2, fns, name, args, k) && k != i implies better(
                rank(edges2, fns, args, i),
                rank(edges2, fns, args, k),
            ) by {
                assert(viable(edges1, fns, name, args, k));
            }
        }
        if is_best(edges2, fns, name, args, i) {
            assert(viable(edges1, fns, name, args, i));
            assert forall|k: int| #[trigger]
                viable(edges1, fns, name, args, k) && k != i implies better(
                rank(edges1, fns, args, i),
                rank(edges1, fns, args, k),
            ) by {
                assert(viable(edges2, fns, name, args, k));
            }
        }
    }
    if exists|i: int| is_best(edges1, fns, name, args, i) {
        let i = choose|i: int| is_best(edges1, fns, name, args, i);
        assert(is_best(edges2, fns, name, args, i));
        lemma_resolves_to_best(edges2, fns, name, args, i);
        let cs = conversions_of(edges1, args, fns[i].params@)->0;
        assert(cs.len() == args.len());
    } else if exists|i: int| viable(edges1, fns, name, args, i) {
        let i = choose|i: int| viable(edges1, fns, name, args, i);
        assert(viable(edges2, fns, name, args, i));
    } else {
        assert forall|i: int| !viable(edges2, fns, name, args, i) by {
            if viable(edges2, fns, name, args, i) {
                assert(viable(edges1, fns, name, args, i));
            }
        }
    }
}

} // verus!
