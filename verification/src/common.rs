//! The common type of several expressions: the element type of an array
//! literal, and the type of an `if` with two branches.

use vstd::prelude::*;
use crate::ast::Binding;
use crate::env::Environment;
use crate::overload::{better, rate};
use crate::types::{duplicate_types, Type};
use crate::typing::{common_type, fits, is_common, score, uniform};

verus! {

/// `n` parameters of type `t`.
pub fn uniform_params(t: &Type, n: usize) -> (r: Vec<Binding>)
    ensures
        r@ == uniform(*t, n as nat),
{
    let mut out: Vec<Binding> = Vec::new();
    let mut i: usize = 0;
    while i < n
        invariant
            i <= n,
            out@.len() == i,
            forall|k: int| 0 <= k < i ==> out@[k] == (Binding { name: 0, ty: *t }),
        decreases n - i,
    {
        out.push(Binding { name: 0, ty: t.duplicate() });
        i += 1;
    }
    assert(out@ =~= uniform(*t, n as nat));
    out
}

/// The candidates for the common type of `ts`: the types themselves, and
/// every type that a declared conversion mentions.
pub fn candidates(env: &Environment, ts: &Vec<Type>) -> (r: Vec<Type>)
    ensures
        r@ == ts@ + env.nodes@,
{
    let mut out = duplicate_types(ts);
    let mut more = duplicate_types(&env.nodes);
    out.append(&mut more);
    out
}

/// Where `t` is the common type, it is the one that `common_type` gives.
pub proof fn lemma_common_unique(edges: Seq<(Type, Type)>, cands: Seq<Type>, ts: Seq<Type>, t: Type)
    requires
        is_common(edges, cands, ts, t),
    ensures
        common_type(edges, cands, ts) == Some(t),
{
    let c = choose|c: Type| is_common(edges, cands, ts, c);
    if c != t {
        assert(fits(edges, ts, c));
        assert(fits(edges, ts, t));
    }
}

/// Finds the candidate that all of `ts` reach at the least score, strictly
/// before every other candidate that they all reach.
pub fn find_common(env: &Environment, cands: &Vec<Type>, ts: &Vec<Type>) -> (r: Option<Type>)
    requires
        env.graph_ok(),
    ensures
        r == common_type(env.rule_edges(), cands@, ts@),
{
    let ghost edges = env.rule_edges();
    let mut found: bool = false;
    let mut best: Type = Type::Unit;
    let mut best_cost: u128 = 0;
    let mut best_looseness: usize = 0;
    let mut tie: bool = false;
    let ghost mut rival: int = 0;
    let mut i: usize = 0;
    while i < cands.len()
        invariant
            env.graph_ok(),
            edges == env.rule_edges(),
            i <= cands@.len(),
            !found ==> forall|k: int| 0 <= k < i ==> !fits(edges, ts@, #[trigger] cands@[k]),
            found ==> {
                &&& cands@.contains(best)
                &&& fits(edges, ts@, best)
                &&& score(edges, ts@, best) == (best_cost as nat, best_looseness as nat)
                &&& forall|k: int|
                    0 <= k < i && fits(edges, ts@, #[trigger] cands@[k]) ==> !better(
                        score(edges, ts@, cands@[k]),
                        score(edges, ts@, best),
                    )
                &&& tie ==> 0 <= rival < i && cands@[rival] != best && fits(edges, ts@, cands@[rival])
                    && score(edges, ts@, cands@[rival]) == score(edges, ts@, best)
                &&& !tie ==> forall|k: int|
                    0 <= k < i && fits(edges, ts@, #[trigger] cands@[k]) && cands@[k] != best ==> score(
                        edges,
                        ts@,
                        cands@[k],
                    ) != score(edges, ts@, best)
            },
        decreases cands@.len() - i,
    {
        if !cands[i].open() {
            let params = uniform_params(&cands[i], ts.len());
            match rate(env, &params, ts) {
                None => {},
                Some(rating) => {
                    if !found || rating.cost < best_cost || (rating.cost == best_cost
                        && rating.looseness < best_looseness) {
                        found = true;
                        best = cands[i].duplicate();
                        best_cost = rating.cost;
                        best_looseness = rating.looseness;
                        tie = false;
                    } else if rating.cost == best_cost && rating.looseness == best_looseness
                        && !cands[i].same(&best) {
                        tie = true;
                        proof {
                            rival = i as int;
                        }
                    }
                },
            }
        }
        i += 1;
    }
    if !found {
        proof {
            assert forall|t: Type| !is_common(edges, cands@, ts@, t) by {
                if is_common(edges, cands@, ts@, t) {
                    let k = choose|k: int| 0 <= k < cands@.len() && cands@[k] == t;
                    assert(!fits(edges, ts@, cands@[k]));
                }
            }
        }
        return None;
    }
    if tie {
        proof {
            assert forall|t: Type| !is_common(edges, cands@, ts@, t) by {
                if is_common(edges, cands@, ts@, t) {
                    if t == best {
                        assert(cands@.contains(cands@[rival]));
                        assert(fits(edges, ts@, cands@[rival]));
                    } else {
                        let k = choose|k: int| 0 <= k < cands@.len() && cands@[k] == t;
                        assert(fits(edges, ts@, cands@[k]));
                        assert(fits(edges, ts@, best));
                    }
                }
            }
        }
        return None;
    }
    proof {
        assert forall|u: Type|
            cands@.contains(u) && #[trigger] fits(edges, ts@, u) && u != best implies better(
            score(edges, ts@, best),
            score(edges, ts@, u),
        ) by {
            let k = choose|k: int| 0 <= k < cands@.len() && cands@[k] == u;
            assert(fits(edges, ts@, cands@[k]));
        }
        lemma_common_unique(edges, cands@, ts@, best);
    }
    Some(best)
}

} // verus!
