use typecore::ast::{Binding, Body, CoercionDecl, Decl, Expr, Signature, StructDecl};
use typecore::declare::{
    check_all, check_function, check_rule, check_unit, choices_of, expand, is_enumerable,
    merge_types, DeclError,
};
use typecore::env::{build, EnvError, EnvErrorKind, Environment};
use typecore::mir::Specialization;
use typecore::types::{Type, TypeList};
use typecore::typing::TypeError;

const X: u64 = 1;
const Y: u64 = 2;
const A: u64 = 3;
const B: u64 = 4;
const STAR: u64 = 20;
const EQ: u64 = 21;
const SUB: u64 = 22;
const INT_TO_NUM: u64 = 23;
const F: u64 = 30;
const G: u64 = 31;
const H: u64 = 32;
const FACT: u64 = 33;
const GET: u64 = 34;
const P: u64 = 40;
const Q: u64 = 41;
const R: u64 = 42;
const FX: u64 = 43;

const DEPTH: usize = 8;

fn d_bind(name: u64, ty: Type) -> Binding {
    Binding { name, ty }
}

fn d_intrinsic(name: u64, params: Vec<Type>, result: Type) -> Decl {
    let params = params.into_iter().map(|ty| d_bind(X, ty)).collect();
    Decl::Function(Signature { name, params, result: Some(result), body: Body::Intrinsic })
}

fn d_function(name: u64, params: Vec<(u64, Type)>, result: Option<Type>, body: Expr) -> Decl {
    let params = params.into_iter().map(|(n, ty)| d_bind(n, ty)).collect();
    Decl::Function(Signature { name, params, result, body: Body::Code(body) })
}

fn d_struct(name: u64, fields: Vec<(u64, Type)>) -> Decl {
    let fields = fields.into_iter().map(|(n, ty)| d_bind(n, ty)).collect();
    Decl::Struct(StructDecl { name, fields })
}

fn d_rule(from: Type, to: Type, body: Expr) -> Decl {
    Decl::Coercion(CoercionDecl { param: X, from, to, result: None, body })
}

fn d_union(members: Vec<Type>) -> Type {
    let mut list = TypeList::Nil;
    for m in members.into_iter().rev() {
        list = TypeList::Cons(m, Box::new(list));
    }
    Type::Union(Box::new(list))
}

fn d_call(callee: u64, args: Vec<Expr>) -> Expr {
    Expr::Call(callee, args)
}

fn d_var(symbol: u64) -> Expr {
    Expr::Ident(symbol)
}

fn d_base() -> Vec<Decl> {
    vec![
        d_intrinsic(STAR, vec![Type::Int, Type::Int], Type::Int),
        d_intrinsic(STAR, vec![Type::Num, Type::Num], Type::Num),
        d_intrinsic(EQ, vec![Type::Int, Type::Int], Type::Bool),
        d_intrinsic(EQ, vec![Type::Num, Type::Num], Type::Bool),
        d_intrinsic(SUB, vec![Type::Int, Type::Int], Type::Int),
        d_intrinsic(INT_TO_NUM, vec![Type::Int], Type::Num),
    ]
}

fn d_env(extra: Vec<Decl>) -> Environment {
    let mut decls = d_base();
    decls.extend(extra);
    build(decls, Vec::new()).expect("the declarations are in order")
}

fn d_check(env: &Environment, name: u64) -> Result<Option<Type>, DeclError> {
    let i = env.fns.iter().rposition(|s| s.name == name).expect("the function is declared");
    let mut cache: Vec<Specialization> = Vec::new();
    check_function(env, &mut cache, i, DEPTH)
}

#[test]
fn closed_function_is_typed_where_declared() {
    let env = d_env(vec![
        d_function(F, vec![(X, Type::Int)], Some(Type::Int), d_call(STAR, vec![d_var(X), d_var(X)])),
        d_function(G, vec![(X, Type::Int)], None, d_call(EQ, vec![d_var(X), d_var(X)])),
    ]);
    assert_eq!(d_check(&env, F), Ok(Some(Type::Int)));
    assert_eq!(d_check(&env, G), Ok(Some(Type::Bool)));
}

#[test]
fn recursive_function_is_typed_against_its_declared_result() {
    let body = Expr::If(
        Box::new(d_call(EQ, vec![d_var(X), Expr::IntLit(0)])),
        Box::new(Expr::IntLit(1)),
        Some(Box::new(d_call(
            STAR,
            vec![d_var(X), d_call(FACT, vec![d_call(SUB, vec![d_var(X), Expr::IntLit(1)])])],
        ))),
    );
    let env = d_env(vec![d_function(FACT, vec![(X, Type::Int)], Some(Type::Int), body)]);
    assert_eq!(d_check(&env, FACT), Ok(Some(Type::Int)));
}

#[test]
fn body_that_misses_its_declared_result_is_refused() {
    let env = d_env(vec![d_function(
        F,
        vec![(X, Type::Int)],
        Some(Type::Bool),
        d_call(STAR, vec![d_var(X), d_var(X)]),
    )]);
    assert_eq!(
        d_check(&env, F),
        Err(DeclError { under: vec![Type::Int], error: TypeError::TypeMismatch })
    );
}

#[test]
fn body_error_is_reported_as_it_is() {
    let env = d_env(vec![
        d_function(F, vec![(X, Type::Int)], Some(Type::Int), d_var(Y)),
        d_function(G, vec![(X, Type::Bool)], None, d_call(STAR, vec![d_var(X), d_var(X)])),
    ]);
    assert_eq!(
        d_check(&env, F),
        Err(DeclError { under: vec![Type::Int], error: TypeError::UndefinedSymbol(Y) })
    );
    assert_eq!(
        d_check(&env, G),
        Err(DeclError { under: vec![Type::Bool], error: TypeError::NoMatchingOverload(STAR) })
    );
}

#[test]
fn generic_and_bodiless_functions_are_deferred() {
    let env = d_env(vec![d_function(F, vec![(X, Type::Any)], None, d_call(STAR, vec![d_var(X), d_var(X)]))]);
    assert_eq!(d_check(&env, F), Ok(None));
    assert_eq!(d_check(&env, STAR), Ok(None));
    let with_struct = d_env(vec![d_struct(P, vec![(FX, Type::Num)])]);
    assert_eq!(d_check(&with_struct, P), Ok(None));
}

#[test]
fn union_parameter_is_typed_under_each_member() {
    let either = || d_union(vec![Type::Int, Type::Num]);
    let env = d_env(vec![
        d_function(F, vec![(X, either())], None, d_call(STAR, vec![d_var(X), d_var(X)])),
        d_function(G, vec![(X, either())], None, d_call(EQ, vec![d_var(X), d_var(X)])),
        d_function(
            H,
            vec![(X, d_union(vec![Type::Int, Type::Bool, Type::Num]))],
            None,
            d_call(STAR, vec![d_var(X), d_var(X)]),
        ),
    ]);
    // The result is the union of the members' results ...
    assert_eq!(d_check(&env, F), Ok(Some(d_union(vec![Type::Int, Type::Num]))));
    // ... or the one type that they share.
    assert_eq!(d_check(&env, G), Ok(Some(Type::Bool)));
    // A member under which the body fails is named.
    assert_eq!(
        d_check(&env, H),
        Err(DeclError { under: vec![Type::Bool], error: TypeError::NoMatchingOverload(STAR) })
    );
}

#[test]
fn two_union_parameters_are_typed_under_every_pair() {
    let either = || d_union(vec![Type::Int, Type::Num]);
    let env = d_env(vec![d_function(
        F,
        vec![(A, either()), (B, either())],
        None,
        d_call(STAR, vec![d_var(A), d_var(B)]),
    )]);
    // (int, int) is fine; (int, num) has no overload.
    assert_eq!(
        d_check(&env, F),
        Err(DeclError {
            under: vec![Type::Int, Type::Num],
            error: TypeError::NoMatchingOverload(STAR)
        })
    );
    let converting = {
        let mut decls = d_base();
        decls.push(d_rule(Type::Int, Type::Num, d_call(INT_TO_NUM, vec![d_var(X)])));
        decls.push(d_function(
            F,
            vec![(A, either()), (B, either())],
            None,
            d_call(STAR, vec![d_var(A), d_var(B)]),
        ));
        build(decls, Vec::new()).unwrap()
    };
    assert_eq!(d_check(&converting, F), Ok(Some(d_union(vec![Type::Int, Type::Num]))));
}

#[test]
fn field_of_a_union_of_structs() {
    let env = d_env(vec![
        d_struct(P, vec![(FX, Type::Num)]),
        d_struct(Q, vec![(FX, Type::Num)]),
        d_struct(R, vec![(Y, Type::Num)]),
        d_function(
            GET,
            vec![(X, d_union(vec![Type::Struct(P), Type::Struct(Q)]))],
            None,
            Expr::Field(Box::new(d_var(X)), FX),
        ),
        d_function(
            H,
            vec![(X, d_union(vec![Type::Struct(P), Type::Struct(R)]))],
            None,
            Expr::Field(Box::new(d_var(X)), FX),
        ),
    ]);
    assert_eq!(d_check(&env, GET), Ok(Some(Type::Num)));
    assert_eq!(
        d_check(&env, H),
        Err(DeclError { under: vec![Type::Struct(R)], error: TypeError::UndefinedField(FX) })
    );
}

#[test]
fn choices_and_instances() {
    let either = d_union(vec![Type::Int, Type::Num]);
    assert_eq!(choices_of(&either), vec![Type::Int, Type::Num]);
    assert_eq!(choices_of(&Type::Bool), vec![Type::Bool]);
    assert_eq!(choices_of(&d_union(vec![])), Vec::<Type>::new());
    let params = vec![
        d_bind(A, d_union(vec![Type::Int, Type::Num])),
        d_bind(B, Type::Bool),
        d_bind(X, d_union(vec![Type::Str, Type::Int])),
    ];
    assert_eq!(
        expand(&params),
        vec![
            vec![Type::Int, Type::Bool, Type::Str],
            vec![Type::Int, Type::Bool, Type::Int],
            vec![Type::Num, Type::Bool, Type::Str],
            vec![Type::Num, Type::Bool, Type::Int],
        ]
    );
    assert_eq!(expand(&Vec::new()), vec![Vec::<Type>::new()]);
    assert!(is_enumerable(&params));
    assert!(!is_enumerable(&vec![d_bind(A, Type::Any)]));
    assert!(!is_enumerable(&vec![d_bind(A, d_union(vec![Type::Int, Type::Any]))]));
}

#[test]
fn merge_keeps_first_occurrences() {
    assert_eq!(merge_types(&vec![Type::Int, Type::Int, Type::Int]), Type::Int);
    assert_eq!(
        merge_types(&vec![Type::Int, Type::Num, Type::Int, Type::Bool, Type::Num]),
        d_union(vec![Type::Int, Type::Num, Type::Bool])
    );
    assert_eq!(merge_types(&vec![]), d_union(vec![]));
}

#[test]
fn rule_body_must_reach_the_target() {
    let mut decls = d_base();
    decls.push(d_rule(Type::Int, Type::Num, d_call(INT_TO_NUM, vec![d_var(X)])));
    decls.push(d_rule(Type::Num, Type::Bool, d_call(STAR, vec![d_var(X), d_var(X)])));
    decls.push(d_rule(Type::Bool, Type::Int, d_var(Y)));
    // A body that hands its parameter on does not reach the target by the rule itself.
    decls.push(d_rule(Type::Int, Type::Str, d_var(X)));
    let env = build(decls, Vec::new()).unwrap();
    let mut cache: Vec<Specialization> = Vec::new();
    assert_eq!(check_rule(&env, &mut cache, 0, DEPTH).map(|m| m.ty), Ok(Type::Num));
    assert_eq!(check_rule(&env, &mut cache, 1, DEPTH).err(), Some(TypeError::TypeMismatch));
    assert_eq!(check_rule(&env, &mut cache, 2, DEPTH).err(), Some(TypeError::UndefinedSymbol(Y)));
    assert_eq!(check_rule(&env, &mut cache, 3, DEPTH).err(), Some(TypeError::TypeMismatch));
}

#[test]
fn free_standing_expressions_are_typed_one_by_one() {
    let env = d_env(vec![]);
    let units = vec![
        d_call(STAR, vec![Expr::IntLit(2), Expr::IntLit(3)]),
        d_call(STAR, vec![Expr::IntLit(2), Expr::BoolLit(true)]),
        Expr::StrLit(7),
        d_var(Y),
    ];
    let mut cache: Vec<Specialization> = Vec::new();
    let types: Vec<Result<Type, TypeError>> =
        check_all(&env, &mut cache, &units, DEPTH).into_iter().map(|r| r.map(|m| m.ty)).collect();
    assert_eq!(
        types,
        vec![
            Ok(Type::Int),
            Err(TypeError::NoMatchingOverload(STAR)),
            Ok(Type::Str),
            Err(TypeError::UndefinedSymbol(Y)),
        ]
    );
}

#[test]
fn whole_unit_is_checked_in_one_go() {
    let mut decls = d_base();
    decls.push(d_rule(Type::Int, Type::Num, d_call(INT_TO_NUM, vec![d_var(X)])));
    decls.push(d_function(F, vec![(X, Type::Any)], None, d_call(STAR, vec![d_var(X), d_var(X)])));
    decls.push(d_function(G, vec![(X, Type::Int)], Some(Type::Bool), d_var(X)));
    let units = vec![
        d_call(F, vec![Expr::IntLit(4)]),
        d_call(F, vec![Expr::NumLit(3.4f64.to_bits())]),
        d_call(F, vec![Expr::BoolLit(true)]),
        d_call(F, vec![Expr::IntLit(5)]),
    ];
    let report = check_unit(decls, Vec::new(), &units, DEPTH).expect("the declarations are in order");
    assert_eq!(report.functions.len(), 8);
    for k in 0..6 {
        assert_eq!(report.functions[k], Ok(None));
    }
    assert_eq!(report.functions[6], Ok(None));
    assert_eq!(
        report.functions[7],
        Err(DeclError { under: vec![Type::Int], error: TypeError::TypeMismatch })
    );
    assert_eq!(report.rules.len(), 1);
    assert_eq!(report.rules[0].as_ref().map(|m| &m.ty), Ok(&Type::Num));
    let types: Vec<Result<&Type, &TypeError>> =
        report.units.iter().map(|r| r.as_ref().map(|m| &m.ty)).collect();
    assert_eq!(
        types,
        vec![Ok(&Type::Int), Ok(&Type::Num), Err(&TypeError::TypeMismatch), Ok(&Type::Int)]
    );
    assert_eq!(report.cache.len(), 2);

    let twice = vec![
        d_intrinsic(F, vec![Type::Int], Type::Int),
        d_intrinsic(F, vec![Type::Int], Type::Int),
    ];
    assert_eq!(
        check_unit(twice, Vec::new(), &units, DEPTH).err(),
        Some(EnvError { kind: EnvErrorKind::DuplicateDefinition, at: 1 })
    );
}
