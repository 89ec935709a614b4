use typecore::ast::{Binding, Body, CoercionDecl, Decl, Expr, Signature, StructDecl};
use typecore::chains::{find_route, Route};
use typecore::env::{build, EnvError, EnvErrorKind, Environment};
use typecore::overload::{convert, resolve, Conversion, Resolution};
use typecore::types::{Type, TypeList};

const X: u64 = 1;
const F: u64 = 10;
const G: u64 = 11;
const PLUS: u64 = 20;
const COMPLEX: u64 = 30;
const RE: u64 = 31;
const IM: u64 = 32;
const ALPHA: u64 = 40;
const BETA: u64 = 41;

fn res_bind(name: u64, ty: Type) -> Binding {
    Binding { name, ty }
}

fn res_intrinsic(name: u64, params: Vec<Type>, result: Type) -> Decl {
    let params = params.into_iter().map(|ty| res_bind(X, ty)).collect();
    Decl::Function(Signature { name, params, result: Some(result), body: Body::Intrinsic })
}

fn res_coercion(from: Type, to: Type) -> Decl {
    Decl::Coercion(CoercionDecl { param: X, from, to, result: None, body: Expr::Ident(X) })
}

fn res_struct(name: u64, fields: Vec<(u64, Type)>) -> Decl {
    let fields = fields.into_iter().map(|(n, ty)| res_bind(n, ty)).collect();
    Decl::Struct(StructDecl { name, fields })
}

fn res_env(decls: Vec<Decl>) -> Environment {
    build(decls, Vec::new()).expect("the declarations are in order")
}

fn res_complex() -> Type {
    Type::Struct(COMPLEX)
}

#[test]
fn route_between_equal_nodes_is_identity() {
    let edges = vec![(0, 1), (1, 0)];
    assert!(matches!(find_route(2, &edges, 0, 0), Route::Identity));
    assert!(matches!(find_route(2, &edges, 1, 1), Route::Identity));
    assert!(matches!(find_route(1, &Vec::new(), 0, 0), Route::Identity));
}

#[test]
fn route_follows_the_single_edge() {
    let edges = vec![(0, 1)];
    match find_route(2, &edges, 0, 1) {
        Route::Chain(p) => assert_eq!(p, vec![0]),
        _ => panic!("expected a chain"),
    }
    assert!(matches!(find_route(2, &edges, 1, 0), Route::Unreachable));
}

#[test]
fn route_composes_two_edges() {
    let edges = vec![(1, 2), (0, 1)];
    match find_route(3, &edges, 0, 2) {
        Route::Chain(p) => assert_eq!(p, vec![1, 0]),
        _ => panic!("expected a chain"),
    }
}

#[test]
fn route_prefers_the_shorter_chain() {
    // 0 -> 1 -> 2 -> 3 and the shortcut 0 -> 3.
    let edges = vec![(0, 1), (1, 2), (2, 3), (0, 3)];
    match find_route(4, &edges, 0, 3) {
        Route::Chain(p) => assert_eq!(p, vec![3]),
        _ => panic!("expected a chain"),
    }
}

#[test]
fn route_with_two_shortest_chains_is_ambiguous() {
    // 0 -> 1 -> 3 and 0 -> 2 -> 3.
    let edges = vec![(0, 1), (0, 2), (1, 3), (2, 3)];
    assert!(matches!(find_route(4, &edges, 0, 3), Route::Ambiguous));
    // The nodes on the way are reached unambiguously.
    match find_route(4, &edges, 0, 2) {
        Route::Chain(p) => assert_eq!(p, vec![1]),
        _ => panic!("expected a chain"),
    }
}

#[test]
fn route_behind_an_ambiguous_node_is_ambiguous() {
    // Two ways to 3, then one edge on to 4.
    let edges = vec![(0, 1), (0, 2), (1, 3), (2, 3), (3, 4)];
    assert!(matches!(find_route(5, &edges, 0, 4), Route::Ambiguous));
}

#[test]
fn route_ignores_a_longer_second_chain() {
    // 0 -> 3 directly, and 0 -> 1 -> 2 -> 3.
    let edges = vec![(0, 1), (1, 2), (2, 3), (0, 3), (3, 4)];
    match find_route(5, &edges, 0, 4) {
        Route::Chain(p) => assert_eq!(p, vec![3, 4]),
        _ => panic!("expected a chain"),
    }
}

#[test]
fn route_search_ends_on_cycles() {
    let edges = vec![(0, 1), (1, 0), (1, 1), (2, 3)];
    assert!(matches!(find_route(4, &edges, 0, 3), Route::Unreachable));
    assert!(matches!(find_route(4, &edges, 0, 2), Route::Unreachable));
    match find_route(4, &edges, 1, 0) {
        Route::Chain(p) => assert_eq!(p, vec![1]),
        _ => panic!("expected a chain"),
    }
}

#[test]
fn route_with_a_repeated_edge_is_ambiguous() {
    let edges = vec![(0, 1), (0, 1)];
    assert!(matches!(find_route(2, &edges, 0, 1), Route::Ambiguous));
}

#[test]
fn build_collects_structs_rules_and_signatures() {
    let env = res_env(vec![
        res_coercion(Type::Int, Type::Num),
        res_struct(COMPLEX, vec![(RE, Type::Num), (IM, Type::Num)]),
        res_coercion(Type::Num, res_complex()),
        res_intrinsic(PLUS, vec![res_complex(), res_complex()], res_complex()),
    ]);
    assert_eq!(env.structs.len(), 1);
    assert_eq!(env.rules.len(), 2);
    assert_eq!(env.fns.len(), 2);
    // The struct's constructor takes the fields in order and returns the struct.
    assert_eq!(env.fns[0].name, COMPLEX);
    assert_eq!(env.fns[0].params, vec![res_bind(RE, Type::Num), res_bind(IM, Type::Num)]);
    assert_eq!(env.fns[0].result, Some(res_complex()));
    assert_eq!(env.fns[0].body, Body::Constructor);
    assert_eq!(env.fns[1].name, PLUS);
    assert_eq!(env.nodes, vec![Type::Int, Type::Num, res_complex()]);
    assert_eq!(env.edges, vec![(0, 1), (1, 2)]);
}

#[test]
fn build_refuses_a_struct_declared_twice() {
    let r = build(
        vec![res_struct(COMPLEX, vec![(RE, Type::Num)]), res_struct(COMPLEX, vec![(IM, Type::Int)])],
        Vec::new(),
    );
    assert_eq!(r.err(), Some(EnvError { kind: EnvErrorKind::DuplicateDefinition, at: 1 }));
}

#[test]
fn build_refuses_a_signature_declared_twice() {
    let r = build(
        vec![
            res_intrinsic(F, vec![Type::Int], Type::Int),
            res_intrinsic(F, vec![Type::Num], Type::Int),
            res_intrinsic(F, vec![Type::Int], Type::Bool),
        ],
        Vec::new(),
    );
    assert_eq!(r.err(), Some(EnvError { kind: EnvErrorKind::DuplicateDefinition, at: 2 }));
}

#[test]
fn build_accepts_overloads_that_differ_in_arity_or_types() {
    let env = res_env(vec![
        res_intrinsic(F, vec![Type::Int], Type::Int),
        res_intrinsic(F, vec![Type::Num], Type::Int),
        res_intrinsic(F, vec![Type::Int, Type::Int], Type::Int),
        res_intrinsic(F, vec![], Type::Int),
    ]);
    assert_eq!(env.fns.len(), 4);
}

#[test]
fn build_refuses_a_function_that_repeats_a_constructor() {
    let r = build(
        vec![
            res_struct(COMPLEX, vec![(RE, Type::Num), (IM, Type::Num)]),
            res_intrinsic(COMPLEX, vec![Type::Num, Type::Num], Type::Int),
        ],
        Vec::new(),
    );
    assert_eq!(r.err(), Some(EnvError { kind: EnvErrorKind::DuplicateDefinition, at: 1 }));
}

#[test]
fn build_refuses_a_conversion_to_the_same_type() {
    let r = build(vec![res_coercion(Type::Int, Type::Num), res_coercion(Type::Num, Type::Num)], Vec::new());
    assert_eq!(r.err(), Some(EnvError { kind: EnvErrorKind::InvalidCoercion, at: 1 }));
}

#[test]
fn build_refuses_a_conversion_whose_body_declares_another_result() {
    let bad = Decl::Coercion(CoercionDecl {
        param: X,
        from: Type::Int,
        to: Type::Num,
        result: Some(Type::Bool),
        body: Expr::Ident(X),
    });
    assert_eq!(
        build(vec![bad], Vec::new()).err(),
        Some(EnvError { kind: EnvErrorKind::InvalidCoercion, at: 0 })
    );
    let good = Decl::Coercion(CoercionDecl {
        param: X,
        from: Type::Int,
        to: Type::Num,
        result: Some(Type::Num),
        body: Expr::Ident(X),
    });
    assert!(build(vec![good], Vec::new()).is_ok());
}

#[test]
fn build_refuses_a_conversion_declared_twice() {
    let r = build(
        vec![
            res_coercion(Type::Int, Type::Num),
            res_coercion(Type::Int, Type::Bool),
            res_coercion(Type::Int, Type::Num),
        ],
        Vec::new(),
    );
    assert_eq!(r.err(), Some(EnvError { kind: EnvErrorKind::DuplicateDefinition, at: 2 }));
}

#[test]
fn build_reports_the_first_fault() {
    let r = build(
        vec![
            res_intrinsic(F, vec![Type::Int], Type::Int),
            res_coercion(Type::Int, Type::Int),
            res_intrinsic(F, vec![Type::Int], Type::Int),
        ],
        Vec::new(),
    );
    assert_eq!(r.err(), Some(EnvError { kind: EnvErrorKind::InvalidCoercion, at: 1 }));
}

#[test]
fn coerce_is_identity_on_every_type() {
    let env = res_env(vec![res_coercion(Type::Int, Type::Num), res_coercion(Type::Num, Type::Int)]);
    let types = vec![
        Type::Int,
        Type::Num,
        Type::Bool,
        Type::Str,
        Type::Struct(COMPLEX),
        Type::FixedArray(Box::new(Type::Int), 3),
        Type::DynArray(Box::new(Type::Num)),
        Type::Union(Box::new(TypeList::Cons(Type::Int, Box::new(TypeList::Nil)))),
        Type::Function(Box::new(TypeList::Nil), Box::new(Type::Int)),
    ];
    for t in &types {
        assert!(matches!(env.coerce(t, t), Route::Identity));
    }
    assert_eq!(convert(&env, &Type::Int, &Type::Int), Some(Conversion::Exact));
    assert_eq!(convert(&env, &Type::Num, &Type::Num), Some(Conversion::Exact));
}

#[test]
fn coerce_composes_declared_conversions() {
    let env = res_env(vec![
        res_coercion(Type::Int, Type::Num),
        res_struct(COMPLEX, vec![(RE, Type::Num), (IM, Type::Num)]),
        res_coercion(Type::Num, res_complex()),
    ]);
    match env.coerce(&Type::Int, &res_complex()) {
        Route::Chain(p) => assert_eq!(p, vec![0, 1]),
        _ => panic!("expected a chain"),
    }
    match env.coerce(&Type::Num, &res_complex()) {
        Route::Chain(p) => assert_eq!(p, vec![1]),
        _ => panic!("expected a chain"),
    }
    assert!(matches!(env.coerce(&res_complex(), &Type::Int), Route::Unreachable));
    assert!(matches!(env.coerce(&Type::Bool, &Type::Num), Route::Unreachable));
    assert!(matches!(env.coerce(&Type::Int, &Type::Str), Route::Unreachable));
}

#[test]
fn convert_distinguishes_the_four_kinds() {
    let env = res_env(vec![res_coercion(Type::Int, Type::Num)]);
    let fixed = Type::FixedArray(Box::new(Type::Int), 3);
    let dynamic = Type::DynArray(Box::new(Type::Int));
    let pattern = Type::DynArray(Box::new(Type::Any));
    let empty = Type::FixedArray(Box::new(Type::Any), 0);
    assert_eq!(convert(&env, &Type::Int, &Type::Int), Some(Conversion::Exact));
    assert_eq!(convert(&env, &Type::Int, &Type::Any), Some(Conversion::Generic));
    assert_eq!(convert(&env, &fixed, &pattern), Some(Conversion::Generic));
    assert_eq!(convert(&env, &dynamic, &pattern), Some(Conversion::Generic));
    assert_eq!(convert(&env, &Type::Int, &pattern), None);
    assert_eq!(convert(&env, &fixed, &dynamic), Some(Conversion::Widen));
    assert_eq!(convert(&env, &empty, &dynamic), Some(Conversion::Widen));
    assert_eq!(convert(&env, &empty, &Type::FixedArray(Box::new(Type::Num), 0)), Some(Conversion::Widen));
    assert_eq!(convert(&env, &empty, &pattern), None);
    assert_eq!(convert(&env, &dynamic, &fixed), None);
    assert_eq!(convert(&env, &Type::Int, &Type::Num), Some(Conversion::Chain(vec![0])));
    assert_eq!(convert(&env, &Type::Num, &Type::Int), None);
    assert_eq!(
        convert(&env, &fixed, &Type::DynArray(Box::new(Type::Num))),
        None
    );
}

#[test]
fn convert_through_a_union_parameter() {
    let env = res_env(vec![]);
    let either = Type::Union(Box::new(TypeList::Cons(
        Type::Int,
        Box::new(TypeList::Cons(res_complex(), Box::new(TypeList::Nil))),
    )));
    assert_eq!(convert(&env, &Type::Int, &either), Some(Conversion::Generic));
    assert_eq!(convert(&env, &res_complex(), &either), Some(Conversion::Generic));
    assert_eq!(convert(&env, &Type::Bool, &either), None);
}

#[test]
fn resolve_prefers_the_exact_match() {
    let env = res_env(vec![
        res_coercion(Type::Int, Type::Num),
        res_intrinsic(PLUS, vec![Type::Num, Type::Num], Type::Num),
        res_intrinsic(PLUS, vec![Type::Int, Type::Int], Type::Int),
    ]);
    assert_eq!(
        resolve(&env, PLUS, &vec![Type::Int, Type::Int]),
        Resolution::Match(1, vec![Conversion::Exact, Conversion::Exact])
    );
    assert_eq!(
        resolve(&env, PLUS, &vec![Type::Num, Type::Num]),
        Resolution::Match(0, vec![Conversion::Exact, Conversion::Exact])
    );
    assert_eq!(
        resolve(&env, PLUS, &vec![Type::Int, Type::Num]),
        Resolution::Match(0, vec![Conversion::Chain(vec![0]), Conversion::Exact])
    );
}

#[test]
fn resolve_does_not_depend_on_declaration_order() {
    let overloads = |order: &[usize]| -> Vec<Decl> {
        let mut decls = vec![res_coercion(Type::Int, Type::Num)];
        for k in order {
            decls.push(match k {
                0 => res_intrinsic(PLUS, vec![Type::Num, Type::Num], Type::Num),
                1 => res_intrinsic(PLUS, vec![Type::Int, Type::Int], Type::Int),
                _ => res_intrinsic(PLUS, vec![Type::Any, Type::DynArray(Box::new(Type::Any))], Type::Any),
            });
        }
        decls
    };
    let orders: Vec<Vec<usize>> = vec![
        vec![0, 1, 2],
        vec![0, 2, 1],
        vec![1, 0, 2],
        vec![1, 2, 0],
        vec![2, 0, 1],
        vec![2, 1, 0],
    ];
    let calls = vec![
        vec![Type::Int, Type::Int],
        vec![Type::Int, Type::Num],
        vec![Type::Num, Type::Int],
        vec![Type::Bool, Type::DynArray(Box::new(Type::Int))],
        vec![Type::Bool, Type::Bool],
    ];
    for args in &calls {
        let mut chosen: Vec<Option<(Vec<Type>, Vec<Conversion>)>> = Vec::new();
        for order in &orders {
            let env = res_env(overloads(order));
            chosen.push(match resolve(&env, PLUS, args) {
                Resolution::Match(i, cs) => {
                    Some((env.fns[i].params.iter().map(|b| b.ty.duplicate()).collect(), cs))
                }
                _ => None,
            });
        }
        for c in &chosen {
            assert_eq!(c, &chosen[0]);
        }
    }
}

#[test]
fn resolve_lets_the_specific_signature_beat_the_generic_one() {
    let env = res_env(vec![
        res_intrinsic(F, vec![Type::Any], Type::Int),
        res_intrinsic(F, vec![Type::Int], Type::Int),
    ]);
    assert_eq!(resolve(&env, F, &vec![Type::Int]), Resolution::Match(1, vec![Conversion::Exact]));
    assert_eq!(resolve(&env, F, &vec![Type::Bool]), Resolution::Match(0, vec![Conversion::Generic]));
}

#[test]
fn resolve_ranks_a_generic_match_before_a_conversion() {
    let env = res_env(vec![
        res_coercion(Type::Int, Type::Num),
        res_intrinsic(F, vec![Type::Num], Type::Int),
        res_intrinsic(F, vec![Type::Any], Type::Int),
    ]);
    assert_eq!(resolve(&env, F, &vec![Type::Int]), Resolution::Match(1, vec![Conversion::Generic]));
    assert_eq!(resolve(&env, F, &vec![Type::Num]), Resolution::Match(0, vec![Conversion::Exact]));
}

#[test]
fn resolve_reports_a_tie_as_ambiguous() {
    let env = res_env(vec![
        res_coercion(Type::Int, Type::Struct(ALPHA)),
        res_coercion(Type::Int, Type::Struct(BETA)),
        res_intrinsic(F, vec![Type::Struct(ALPHA)], Type::Int),
        res_intrinsic(F, vec![Type::Struct(BETA)], Type::Int),
    ]);
    assert_eq!(resolve(&env, F, &vec![Type::Int]), Resolution::Ambiguous);
    assert_eq!(
        resolve(&env, F, &vec![Type::Struct(ALPHA)]),
        Resolution::Match(0, vec![Conversion::Exact])
    );
}

#[test]
fn resolve_drops_a_candidate_with_an_ambiguous_chain() {
    // Two chains of length two lead from int to beta; alpha is reached in one way.
    let env = res_env(vec![
        res_coercion(Type::Int, Type::Num),
        res_coercion(Type::Int, Type::Bool),
        res_coercion(Type::Num, Type::Struct(BETA)),
        res_coercion(Type::Bool, Type::Struct(BETA)),
        res_coercion(Type::Struct(BETA), Type::Struct(ALPHA)),
        res_coercion(Type::Int, Type::Str),
        res_intrinsic(F, vec![Type::Struct(BETA)], Type::Int),
        res_intrinsic(G, vec![Type::Struct(BETA)], Type::Int),
        res_intrinsic(G, vec![Type::Str], Type::Int),
    ]);
    assert_eq!(resolve(&env, F, &vec![Type::Int]), Resolution::NoMatch);
    assert_eq!(resolve(&env, G, &vec![Type::Int]), Resolution::Match(2, vec![Conversion::Chain(vec![5])]));
}

#[test]
fn resolve_finds_no_match_without_a_viable_signature() {
    let env = res_env(vec![res_intrinsic(F, vec![Type::Int], Type::Int)]);
    assert_eq!(resolve(&env, F, &vec![Type::Bool]), Resolution::NoMatch);
    assert_eq!(resolve(&env, F, &vec![Type::Int, Type::Int]), Resolution::NoMatch);
    assert_eq!(resolve(&env, G, &vec![Type::Int]), Resolution::NoMatch);
}

#[test]
fn resolve_sums_the_costs_of_all_arguments() {
    // f(num, num) costs two conversions for (int, int); f(int, complex) costs two as well
    // for the second argument alone, so neither ranks first.
    let env = res_env(vec![
        res_coercion(Type::Int, Type::Num),
        res_coercion(Type::Num, res_complex()),
        res_intrinsic(F, vec![Type::Num, Type::Num], Type::Int),
        res_intrinsic(F, vec![Type::Int, res_complex()], Type::Int),
        res_intrinsic(G, vec![Type::Num, Type::Num], Type::Int),
        res_intrinsic(G, vec![res_complex(), res_complex()], Type::Int),
    ]);
    assert_eq!(resolve(&env, F, &vec![Type::Int, Type::Int]), Resolution::Ambiguous);
    assert_eq!(
        resolve(&env, G, &vec![Type::Int, Type::Int]),
        Resolution::Match(2, vec![Conversion::Chain(vec![0]), Conversion::Chain(vec![0])])
    );
    assert_eq!(env.fns[2].name, G);
}

fn walks(edges: &[(usize, usize)], from: usize, to: usize, len: usize) -> Vec<Vec<usize>> {
    if len == 0 {
        return if from == to { vec![vec![]] } else { vec![] };
    }
    let mut out = Vec::new();
    for (j, e) in edges.iter().enumerate() {
        if e.1 == to {
            for mut w in walks(edges, from, e.0, len - 1) {
                w.push(j);
                out.push(w);
            }
        }
    }
    out
}

#[test]
fn route_agrees_with_an_exhaustive_search() {
    // Small graphs from a fixed pseudo-random sequence.
    let mut state: u64 = 0x2545_f491_4f6c_dd1d;
    let mut next = move |bound: usize| -> usize {
        state ^= state << 13;
        state ^= state >> 7;
        state ^= state << 17;
        (state % bound as u64) as usize
    };
    for _ in 0..300 {
        let n = 1 + next(5);
        let m = next(8);
        let edges: Vec<(usize, usize)> = (0..m).map(|_| (next(n), next(n))).collect();
        for from in 0..n {
            for to in 0..n {
                let found = find_route(n, &edges, from, to);
                if from == to {
                    assert!(matches!(found, Route::Identity));
                    continue;
                }
                let mut shortest: Vec<Vec<usize>> = Vec::new();
                for len in 1..=n {
                    shortest = walks(&edges, from, to, len);
                    if !shortest.is_empty() {
                        break;
                    }
                }
                match found {
                    Route::Chain(p) => assert_eq!(vec![p], shortest),
                    Route::Ambiguous => assert!(shortest.len() > 1),
                    Route::Unreachable => assert!(shortest.is_empty()),
                    Route::Identity => panic!("different nodes"),
                }
            }
        }
    }
}
