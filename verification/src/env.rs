//! The environment: the struct table, the conversion graph and the overload
//! sets, collected from the top-level declarations.
//!
//! Building validates the shape of declarations only; no body is type-checked
//! here. The environment does not change once it is built.

use vstd::prelude::*;
use crate::ast::{
    binding_types, duplicate_bindings, same_binding_types, Binding, Body, CoercionDecl, Decl, Lambda,
    Signature, StructDecl,
};
use crate::chains::{
    find_route, is_only_shortest, is_walk, lemma_route_chain, lemma_walk_first, route_of, Route,
};
use crate::types::{Symbol, Type};

verus! {

/// Why a list of declarations was refused.
#[derive(Debug, PartialEq, Eq, Clone, Copy)]
pub enum EnvErrorKind {
    /// A struct name declared twice, two signatures with the same symbol and
    /// parameter types, or two conversions with the same source and target.
    DuplicateDefinition,
    /// A conversion from a type to itself, or one whose body declares a
    /// result type other than the target.
    InvalidCoercion,
}

/// A refusal, with the position of the declaration at fault.
#[derive(Debug, PartialEq, Eq, Clone, Copy)]
pub struct EnvError {
    pub kind: EnvErrorKind,
    pub at: usize,
}

/// The names of the structs among `decls`, in declaration order.
pub open spec fn struct_names(decls: Seq<Decl>) -> Seq<Symbol>
    decreases decls.len(),
{
    if decls.len() == 0 {
        Seq::empty()
    } else {
        match decls.last() {
            Decl::Struct(s) => struct_names(decls.drop_last()).push(s.name),
            _ => struct_names(decls.drop_last()),
        }
    }
}

/// Symbol and parameter types of every signature that `decls` give rise to:
/// one per function, and one per struct for its constructor.
pub open spec fn signature_keys(decls: Seq<Decl>) -> Seq<(Symbol, Seq<Type>)>
    decreases decls.len(),
{
    if decls.len() == 0 {
        Seq::empty()
    } else {
        match decls.last() {
            Decl::Struct(s) => signature_keys(decls.drop_last()).push(
                (s.name, binding_types(s.fields@)),
            ),
            Decl::Function(f) => signature_keys(decls.drop_last()).push(
                (f.name, binding_types(f.params@)),
            ),
            _ => signature_keys(decls.drop_last()),
        }
    }
}

/// Source and target of every conversion among `decls`, in declaration order.
pub open spec fn coercion_edges(decls: Seq<Decl>) -> Seq<(Type, Type)>
    decreases decls.len(),
{
    if decls.len() == 0 {
        Seq::empty()
    } else {
        match decls.last() {
            Decl::Coercion(c) => coercion_edges(decls.drop_last()).push((c.from, c.to)),
            _ => coercion_edges(decls.drop_last()),
        }
    }
}

/// What is wrong with declaration `d`, given the declarations before it.
pub open spec fn fault_of(earlier: Seq<Decl>, d: Decl) -> Option<EnvErrorKind> {
    match d {
        Decl::Struct(s) => if struct_names(earlier).contains(s.name) || signature_keys(
            earlier,
        ).contains((s.name, binding_types(s.fields@))) {
            Some(EnvErrorKind::DuplicateDefinition)
        } else {
            None
        },
        Decl::Function(f) => if signature_keys(earlier).contains(
            (f.name, binding_types(f.params@)),
        ) {
            Some(EnvErrorKind::DuplicateDefinition)
        } else {
            None
        },
        Decl::Coercion(c) => if c.from == c.to || (c.result is Some && c.result != Some(c.to)) {
            Some(EnvErrorKind::InvalidCoercion)
        } else if coercion_edges(earlier).contains((c.from, c.to)) {
            Some(EnvErrorKind::DuplicateDefinition)
        } else {
            None
        },
    }
}

/// The fault of the first declaration that has one.
pub open spec fn first_fault(decls: Seq<Decl>) -> Option<EnvError>
    decreases decls.len(),
{
    if decls.len() == 0 {
        None
    } else {
        match first_fault(decls.drop_last()) {
            Some(e) => Some(e),
            None => match fault_of(decls.drop_last(), decls.last()) {
                Some(kind) => Some(EnvError { kind, at: (decls.len() - 1) as usize }),
                None => None,
            },
        }
    }
}

/// Whether `sig` is what stands in the overload sets for declaration `d`: the
/// function itself, or a struct's constructor, which takes the fields in
/// declared order and returns the struct type.
pub open spec fn stands_for(sig: Signature, d: Decl) -> bool {
    match d {
        Decl::Function(f) => sig == f,
        Decl::Struct(s) => {
            &&& sig.name == s.name
            &&& sig.params@ == s.fields@
            &&& sig.result == Some(Type::Struct(s.name))
            &&& sig.body == Body::Constructor
        },
        Decl::Coercion(_) => false,
    }
}

/// Whether `fns` holds one signature for each function and struct among
/// `decls`, in declaration order.
pub open spec fn signatures_match(fns: Seq<Signature>, decls: Seq<Decl>) -> bool
    decreases decls.len(),
{
    if decls.len() == 0 {
        fns.len() == 0
    } else {
        match decls.last() {
            Decl::Coercion(_) => signatures_match(fns, decls.drop_last()),
            d => fns.len() > 0 && stands_for(fns.last(), d) && signatures_match(
                fns.drop_last(),
                decls.drop_last(),
            ),
        }
    }
}

/// Whether `structs` and `rules` hold the struct and conversion declarations
/// among `decls`, in declaration order.
pub open spec fn tables_match(structs: Seq<StructDecl>, rules: Seq<CoercionDecl>, decls: Seq<Decl>) -> bool
    decreases decls.len(),
{
    if decls.len() == 0 {
        structs.len() == 0 && rules.len() == 0
    } else {
        match decls.last() {
            Decl::Struct(s) => structs.len() > 0 && structs.last() == s && tables_match(
                structs.drop_last(),
                rules,
                decls.drop_last(),
            ),
            Decl::Coercion(c) => rules.len() > 0 && rules.last() == c && tables_match(
                structs,
                rules.drop_last(),
                decls.drop_last(),
            ),
            Decl::Function(_) => tables_match(structs, rules, decls.drop_last()),
        }
    }
}

/// The collected declarations of one compilation unit.
pub struct Environment {
    /// The struct table.
    pub structs: Vec<StructDecl>,
    /// The declared conversions.
    pub rules: Vec<CoercionDecl>,
    /// Every signature, constructors included; an overload set is the
    /// signatures of one symbol and arity.
    pub fns: Vec<Signature>,
    /// The unit's inline functions.
    pub lambdas: Vec<Lambda>,
    /// The distinct types that conversions mention: the graph's nodes.
    pub nodes: Vec<Type>,
    /// Per conversion, the positions of its source and target in `nodes`.
    pub edges: Vec<(usize, usize)>,
}

impl Environment {
    /// The names in the struct table.
    pub open spec fn struct_names(self) -> Seq<Symbol> {
        Seq::new(self.structs@.len(), |i: int| self.structs@[i].name)
    }

    /// Symbol and parameter types of every signature.
    pub open spec fn signature_keys(self) -> Seq<(Symbol, Seq<Type>)> {
        Seq::new(self.fns@.len(), |i: int| (self.fns@[i].name, binding_types(self.fns@[i].params@)))
    }

    /// The conversion graph over types: one edge per declared conversion.
    pub open spec fn rule_edges(self) -> Seq<(Type, Type)> {
        Seq::new(self.rules@.len(), |i: int| (self.rules@[i].from, self.rules@[i].to))
    }

    /// The graph over node positions agrees with the declared conversions.
    pub open spec fn graph_ok(self) -> bool {
        &&& self.edges@.len() == self.rules@.len()
        &&& forall|i: int|
            0 <= i < self.edges@.len() ==> {
                &&& (#[trigger] self.edges@[i]).0 < self.nodes@.len()
                &&& self.edges@[i].1 < self.nodes@.len()
                &&& self.nodes@[self.edges@[i].0 as int] == self.rules@[i].from
                &&& self.nodes@[self.edges@[i].1 as int] == self.rules@[i].to
            }
        &&& forall|a: int, b: int|
            0 <= a < self.nodes@.len() && 0 <= b < self.nodes@.len() && self.nodes@[a]
                == self.nodes@[b] ==> a == b
    }

    /// The environment's invariant: no struct name, no signature and no
    /// conversion occurs twice, no conversion leads from a type to itself,
    /// and the graph agrees with the conversions.
    pub open spec fn wf(self) -> bool {
        &&& self.struct_names().no_duplicates()
        &&& self.signature_keys().no_duplicates()
        &&& self.rule_edges().no_duplicates()
        &&& forall|i: int| 0 <= i < self.rules@.len() ==> (#[trigger] self.rules@[i]).from != self.rules@[i].to
        &&& self.graph_ok()
    }

    /// The position of struct `name` in the struct table.
    pub fn find_struct(&self, name: Symbol) -> (r: Option<usize>)
        ensures
            match r {
                Some(i) => i < self.structs@.len() && self.structs@[i as int].name == name
                    && forall|k: int| 0 <= k < i ==> self.structs@[k].name != name,
                None => !self.struct_names().contains(name),
            },
    {
        let mut i: usize = 0;
        while i < self.structs.len()
            invariant
                i <= self.structs@.len(),
                forall|k: int| 0 <= k < i ==> self.structs@[k].name != name,
            decreases self.structs@.len() - i,
        {
            if self.structs[i].name == name {
                return Some(i);
            }
            i += 1;
        }
        None
    }

    /// Whether a signature with this symbol and these parameter types exists.
    pub fn has_signature(&self, name: Symbol, params: &Vec<Binding>) -> (r: bool)
        ensures
            r == self.signature_keys().contains((name, binding_types(params@))),
    {
        let mut i: usize = 0;
        while i < self.fns.len()
            invariant
                i <= self.fns@.len(),
                forall|k: int|
                    0 <= k < i ==> self.signature_keys()[k] != (name, binding_types(params@)),
            decreases self.fns@.len() - i,
        {
            if self.fns[i].name == name && same_binding_types(&self.fns[i].params, params) {
                assert(self.signature_keys()[i as int] == (name, binding_types(params@)));
                return true;
            }
            i += 1;
        }
        false
    }

    /// Whether a conversion from `from` to `to` is declared.
    pub fn has_rule(&self, from: &Type, to: &Type) -> (r: bool)
        ensures
            r == self.rule_edges().contains((*from, *to)),
    {
        let mut i: usize = 0;
        while i < self.rules.len()
            invariant
                i <= self.rules@.len(),
                forall|k: int| 0 <= k < i ==> self.rule_edges()[k] != (*from, *to),
            decreases self.rules@.len() - i,
        {
            if self.rules[i].from.same(from) && self.rules[i].to.same(to) {
                assert(self.rule_edges()[i as int] == (*from, *to));
                return true;
            }
            i += 1;
        }
        false
    }

    /// The position of `t` among the graph's nodes.
    pub fn find_node(&self, t: &Type) -> (r: Option<usize>)
        ensures
            match r {
                Some(i) => i < self.nodes@.len() && self.nodes@[i as int] == *t,
                None => !self.nodes@.contains(*t),
            },
    {
        let mut i: usize = 0;
        while i < self.nodes.len()
            invariant
                i <= self.nodes@.len(),
                forall|k: int| 0 <= k < i ==> self.nodes@[k] != *t,
            decreases self.nodes@.len() - i,
        {
            if self.nodes[i].same(t) {
                return Some(i);
            }
            i += 1;
        }
        None
    }

    /// Resolves the implicit conversion from `from` to `to`: identity between
    /// equal types, else the one shortest chain of declared conversions, as
    /// positions in `rules` in the order of application.
    pub fn coerce(&self, from: &Type, to: &Type) -> (r: Route)
        requires
            self.graph_ok(),
        ensures
            r@ == route_of(self.rule_edges(), *from, *to),
    {
        if from.same(to) {
            return Route::Identity;
        }
        let source = self.find_node(from);
        let target = self.find_node(to);
        match (source, target) {
            (Some(s), Some(t)) => {
                let r = find_route(self.nodes.len(), &self.edges, s, t);
                proof {
                    self.lemma_graph_route(s, t);
                }
                r
            },
            _ => {
                proof {
                    assert forall|p: Seq<usize>| !is_walk(self.rule_edges(), *from, *to, p) by {
                        if is_walk(self.rule_edges(), *from, *to, p) {
                            lemma_walk_first(self.rule_edges(), *from, *to, p);
                            let a = p[0] as int;
                            let z = p.last() as int;
                            assert(self.nodes@[self.edges@[a].0 as int] == *from);
                            assert(self.nodes@[self.edges@[z].1 as int] == *to);
                        }
                    }
                }
                Route::Unreachable
            },
        }
    }

    /// A walk over node positions is a walk over the types at those nodes.
    pub proof fn lemma_graph_walk(self, s: usize, t: usize, p: Seq<usize>)
        requires
            self.graph_ok(),
            s < self.nodes@.len(),
            t < self.nodes@.len(),
        ensures
            is_walk(self.edges@, s, t, p) == is_walk(
                self.rule_edges(),
                self.nodes@[s as int],
                self.nodes@[t as int],
                p,
            ),
        decreases p.len(),
    {
        if p.len() > 0 && p.last() < self.edges@.len() {
            let j = p.last() as int;
            assert(self.edges@[j].0 < self.nodes@.len());
            self.lemma_graph_walk(s, self.edges@[j].0, p.drop_last());
        }
    }

    /// The route over node positions is the route over the types.
    pub proof fn lemma_graph_route(self, s: usize, t: usize)
        requires
            self.graph_ok(),
            s < self.nodes@.len(),
            t < self.nodes@.len(),
        ensures
            route_of(self.edges@, s, t) == route_of(
                self.rule_edges(),
                self.nodes@[s as int],
                self.nodes@[t as int],
            ),
    {
        let from = self.nodes@[s as int];
        let to = self.nodes@[t as int];
        assert forall|p: Seq<usize>|
            #![trigger is_walk(self.edges@, s, t, p)]
            #![trigger is_walk(self.rule_edges(), from, to, p)]
            is_walk(self.edges@, s, t, p) == is_walk(self.rule_edges(), from, to, p) by {
            self.lemma_graph_walk(s, t, p);
        }
        if s != t {
            if exists|p: Seq<usize>| is_only_shortest(self.edges@, s, t, p) {
                let p = choose|p: Seq<usize>| is_only_shortest(self.edges@, s, t, p);
                assert(is_only_shortest(self.rule_edges(), from, to, p));
                lemma_route_chain(self.rule_edges(), from, to, p);
            } else if exists|p: Seq<usize>| is_walk(self.edges@, s, t, p) {
                let p = choose|p: Seq<usize>| is_walk(self.edges@, s, t, p);
                assert(is_walk(self.rule_edges(), from, to, p));
                if exists|c: Seq<usize>| is_only_shortest(self.rule_edges(), from, to, c) {
                    let c = choose|c: Seq<usize>| is_only_shortest(self.rule_edges(), from, to, c);
                    assert(is_only_shortest(self.edges@, s, t, c));
                }
            } else {
            }
        }
    }
}

/// Whether no type occurs twice in `nodes`.
pub open spec fn distinct_nodes(nodes: Seq<Type>) -> bool {
    forall|a: int, b: int| 0 <= a < nodes.len() && 0 <= b < nodes.len() && nodes[a] == nodes[b] ==> a == b
}

/// The position of `t` in `nodes`, after adding it at the end if it was not
/// there.
fn intern(nodes: &mut Vec<Type>, t: &Type) -> (r: usize)
    requires
        distinct_nodes(old(nodes)@),
    ensures
        distinct_nodes(final(nodes)@),
        r < final(nodes)@.len(),
        final(nodes)@[r as int] == *t,
        old(nodes)@.len() <= final(nodes)@.len(),
        forall|i: int| 0 <= i < old(nodes)@.len() ==> final(nodes)@[i] == old(nodes)@[i],
{
    let mut i: usize = 0;
    while i < nodes.len()
        invariant
            i <= nodes@.len(),
            nodes@ == old(nodes)@,
            distinct_nodes(old(nodes)@),
            forall|k: int| 0 <= k < i ==> nodes@[k] != *t,
        decreases nodes@.len() - i,
    {
        if nodes[i].same(t) {
            return i;
        }
        i += 1;
    }
    nodes.push(t.duplicate());
    i
}

/// The elements of `v` in reverse order.
fn reversed(v: Vec<Decl>) -> (r: Vec<Decl>)
    ensures
        r@.len() == v@.len(),
        forall|i: int| 0 <= i < v@.len() ==> r@[i] == v@[v@.len() - 1 - i],
{
    let mut rest = v;
    let mut out: Vec<Decl> = Vec::new();
    while rest.len() > 0
        invariant
            rest@.len() + out@.len() == v@.len(),
            forall|i: int| 0 <= i < rest@.len() ==> rest@[i] == v@[i],
            forall|i: int| 0 <= i < out@.len() ==> out@[i] == v@[v@.len() - 1 - i],
        decreases rest@.len(),
    {
        let d = rest.pop().unwrap();
        out.push(d);
    }
    out
}

/// A fault among the first `k` declarations is the fault of the whole list.
pub proof fn lemma_fault_prefix(all: Seq<Decl>, k: int)
    requires
        0 <= k <= all.len(),
        first_fault(all.subrange(0, k)) is Some,
    ensures
        first_fault(all) == first_fault(all.subrange(0, k)),
    decreases all.len() - k,
{
    if k < all.len() {
        assert(all.subrange(0, k + 1).drop_last() =~= all.subrange(0, k));
        lemma_fault_prefix(all, k + 1);
    } else {
        assert(all.subrange(0, k) =~= all);
    }
}

/// Collects the declarations of a unit into an environment.
///
/// Declarations are taken in order; the first one at fault ends the build
/// with its fault. Each struct also yields its constructor's signature.
pub fn build(decls: Vec<Decl>, lambdas: Vec<Lambda>) -> (r: Result<Environment, EnvError>)
    ensures
        match r {
            Ok(env) => {
                &&& first_fault(decls@) is None
                &&& env.wf()
                &&& tables_match(env.structs@, env.rules@, decls@)
                &&& signatures_match(env.fns@, decls@)
                &&& env.lambdas == lambdas
            },
            Err(e) => first_fault(decls@) == Some(e),
        },
{
    let ghost all = decls@;
    let total = decls.len();
    let mut pending = reversed(decls);
    let mut env = Environment {
        structs: Vec::new(),
        rules: Vec::new(),
        fns: Vec::new(),
        lambdas,
        nodes: Vec::new(),
        edges: Vec::new(),
    };
    let mut k: usize = 0;
    proof {
        assert(all.subrange(0, 0) =~= Seq::<Decl>::empty());
        assert(env.struct_names() =~= struct_names(all.subrange(0, 0)));
        assert(env.signature_keys() =~= signature_keys(all.subrange(0, 0)));
        assert(env.rule_edges() =~= coercion_edges(all.subrange(0, 0)));
    }
    while pending.len() > 0
        invariant
            all == decls@,
            all.len() == total,
            k + pending@.len() == all.len(),
            forall|i: int| 0 <= i < pending@.len() ==> pending@[i] == all[all.len() - 1 - i],
            first_fault(all.subrange(0, k as int)) is None,
            env.wf(),
            tables_match(env.structs@, env.rules@, all.subrange(0, k as int)),
            signatures_match(env.fns@, all.subrange(0, k as int)),
            env.struct_names() == struct_names(all.subrange(0, k as int)),
            env.signature_keys() == signature_keys(all.subrange(0, k as int)),
            env.rule_edges() == coercion_edges(all.subrange(0, k as int)),
            env.lambdas == lambdas,
        decreases pending@.len(),
    {
        let ghost done = all.subrange(0, k as int);
        let ghost next = all.subrange(0, k + 1);
        let ghost before = env;
        let d = pending.pop().unwrap();
        proof {
            assert(d == all[k as int]);
            assert(next.drop_last() =~= done);
            assert(next.last() == d);
        }
        match d {
            Decl::Struct(s) => {
                let known = env.find_struct(s.name);
                if known.is_some() || env.has_signature(s.name, &s.fields) {
                    proof {
                        if known is Some {
                            assert(env.struct_names()[known->0 as int] == s.name);
                        }
                        lemma_fault_prefix(all, k + 1);
                    }
                    return Err(EnvError { kind: EnvErrorKind::DuplicateDefinition, at: k });
                }
                let ctor = Signature {
                    name: s.name,
                    params: duplicate_bindings(&s.fields),
                    result: Some(Type::Struct(s.name)),
                    body: Body::Constructor,
                };
                let ghost key = (s.name, binding_types(s.fields@));
                let ghost name = s.name;
                env.structs.push(s);
                env.fns.push(ctor);
                proof {
                    assert(env.structs@.drop_last() =~= before.structs@);
                    assert(env.fns@.drop_last() =~= before.fns@);
                    assert(env.struct_names() =~= before.struct_names().push(name));
                    assert(env.signature_keys() =~= before.signature_keys().push(key));
                    assert(env.rule_edges() =~= before.rule_edges());
                }
            },
            Decl::Function(f) => {
                if env.has_signature(f.name, &f.params) {
                    proof {
                        lemma_fault_prefix(all, k + 1);
                    }
                    return Err(EnvError { kind: EnvErrorKind::DuplicateDefinition, at: k });
                }
                let ghost key = (f.name, binding_types(f.params@));
                env.fns.push(f);
                proof {
                    assert(env.fns@.drop_last() =~= before.fns@);
                    assert(env.struct_names() =~= before.struct_names());
                    assert(env.signature_keys() =~= before.signature_keys().push(key));
                    assert(env.rule_edges() =~= before.rule_edges());
                }
            },
            Decl::Coercion(c) => {
                let mismatch = match &c.result {
                    Some(r) => !r.same(&c.to),
                    None => false,
                };
                if c.from.same(&c.to) || mismatch {
                    proof {
                        lemma_fault_prefix(all, k + 1);
                    }
                    return Err(EnvError { kind: EnvErrorKind::InvalidCoercion, at: k });
                }
                if env.has_rule(&c.from, &c.to) {
                    proof {
                        lemma_fault_prefix(all, k + 1);
                    }
                    return Err(EnvError { kind: EnvErrorKind::DuplicateDefinition, at: k });
                }
                let source = intern(&mut env.nodes, &c.from);
                let target = intern(&mut env.nodes, &c.to);
                let ghost edge = (c.from, c.to);
                env.edges.push((source, target));
                env.rules.push(c);
                proof {
                    assert(env.rules@.drop_last() =~= before.rules@);
                    assert(env.struct_names() =~= before.struct_names());
                    assert(env.signature_keys() =~= before.signature_keys());
                    assert(env.rule_edges() =~= before.rule_edges().push(edge));
                    assert forall|i: int| 0 <= i < env.edges@.len() implies {
                        &&& (#[trigger] env.edges@[i]).0 < env.nodes@.len()
                        &&& env.edges@[i].1 < env.nodes@.len()
                        &&& env.nodes@[env.edges@[i].0 as int] == env.rules@[i].from
                        &&& env.nodes@[env.edges@[i].1 as int] == env.rules@[i].to
                    } by {
                        if i < before.edges@.len() {
                            assert(env.edges@[i] == before.edges@[i]);
                            assert(env.rules@[i] == before.rules@[i]);
                        }
                    }
                }
            },
        }
        k += 1;
    }
    proof {
        assert(all.subrange(0, k as int) =~= all);
    }
    Ok(env)
}

} // verus!
