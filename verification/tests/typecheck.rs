use typecore::ast::{Binding, Body, CoercionDecl, Decl, Expr, Lambda, Signature, StructDecl};
use typecore::check::{check_expr, specialize};
use typecore::env::{build, Environment};
use typecore::mir::{Mir, MirNode, Specialization, Target};
use typecore::types::{Type, LEN};
use typecore::typing::{Callee, TypeError};

const X: u64 = 1;
const A: u64 = 2;
const B: u64 = 3;
const I: u64 = 4;
const FUN: u64 = 5;
const DATA: u64 = 6;
const CHECK: u64 = 7;
const PLUS: u64 = 20;
const STAR: u64 = 21;
const EQ: u64 = 22;
const REM: u64 = 23;
const NEG: u64 = 24;
const INT_TO_NUM: u64 = 30;
const COMPLEX: u64 = 40;
const RE: u64 = 41;
const IM: u64 = 42;
const SUR: u64 = 50;
const LHS: u64 = 51;
const RHS: u64 = 52;
const SQUARE_ANY: u64 = 60;
const SQUARE_SHORT: u64 = 61;
const IS_ZERO: u64 = 62;
const MAP: u64 = 63;
const SOME: u64 = 64;
const LOOP: u64 = 65;
const FACT: u64 = 66;
const SUB: u64 = 67;
const ALPHA: u64 = 70;
const BETA: u64 = 71;
const F: u64 = 72;

const DEPTH: usize = 8;

fn bind(name: u64, ty: Type) -> Binding {
    Binding { name, ty }
}

fn intrinsic(name: u64, params: Vec<Type>, result: Type) -> Decl {
    let params = params.into_iter().map(|ty| bind(X, ty)).collect();
    Decl::Function(Signature { name, params, result: Some(result), body: Body::Intrinsic })
}

fn function(name: u64, params: Vec<(u64, Type)>, result: Option<Type>, body: Expr) -> Decl {
    let params = params.into_iter().map(|(n, ty)| bind(n, ty)).collect();
    Decl::Function(Signature { name, params, result, body: Body::Code(body) })
}

fn coercion(from: Type, to: Type, body: Expr) -> Decl {
    Decl::Coercion(CoercionDecl { param: X, from, to, result: None, body })
}

fn structure(name: u64, fields: Vec<(u64, Type)>) -> Decl {
    let fields = fields.into_iter().map(|(n, ty)| bind(n, ty)).collect();
    Decl::Struct(StructDecl { name, fields })
}

fn call(callee: u64, args: Vec<Expr>) -> Expr {
    Expr::Call(callee, args)
}

fn name(symbol: u64) -> Expr {
    Expr::Ident(symbol)
}

fn lit(v: i64) -> Expr {
    Expr::IntLit(v)
}

fn frac(v: f64) -> Expr {
    Expr::NumLit(v.to_bits())
}

fn field(x: Expr, f: u64) -> Expr {
    Expr::Field(Box::new(x), f)
}

fn index(x: Expr, i: Expr) -> Expr {
    Expr::Index(Box::new(x), Box::new(i))
}

fn generator(i: u64, body: Expr, len: Expr) -> Expr {
    Expr::ArrayGen(i, Box::new(body), Box::new(len))
}

fn fixed(elem: Type, n: usize) -> Type {
    Type::FixedArray(Box::new(elem), n)
}

fn dynamic(elem: Type) -> Type {
    Type::DynArray(Box::new(elem))
}

fn complex() -> Type {
    Type::Struct(COMPLEX)
}

fn sur() -> Type {
    Type::Struct(SUR)
}

fn arithmetic() -> Vec<Decl> {
    vec![
        intrinsic(PLUS, vec![Type::Int, Type::Int], Type::Int),
        intrinsic(PLUS, vec![Type::Num, Type::Num], Type::Num),
        intrinsic(SUB, vec![Type::Int, Type::Int], Type::Int),
        intrinsic(STAR, vec![Type::Int, Type::Int], Type::Int),
        intrinsic(STAR, vec![Type::Num, Type::Num], Type::Num),
        intrinsic(REM, vec![Type::Int, Type::Int], Type::Int),
        intrinsic(EQ, vec![Type::Int, Type::Int], Type::Bool),
        intrinsic(EQ, vec![Type::Num, Type::Num], Type::Bool),
        intrinsic(INT_TO_NUM, vec![Type::Int], Type::Num),
    ]
}

fn complex_unit(with_num_to_complex: bool) -> Vec<Decl> {
    let mut decls = arithmetic();
    decls.push(coercion(Type::Int, Type::Num, call(INT_TO_NUM, vec![name(X)])));
    decls.push(structure(COMPLEX, vec![(RE, Type::Num), (IM, Type::Num)]));
    if with_num_to_complex {
        decls.push(coercion(Type::Num, complex(), call(COMPLEX, vec![name(X), frac(0.0)])));
    }
    decls.push(function(
        PLUS,
        vec![(A, complex()), (B, complex())],
        Some(complex()),
        call(
            COMPLEX,
            vec![
                call(PLUS, vec![field(name(A), RE), field(name(B), RE)]),
                call(PLUS, vec![field(name(A), IM), field(name(B), IM)]),
            ],
        ),
    ));
    decls
}

fn env_of(decls: Vec<Decl>, lambdas: Vec<Lambda>) -> Environment {
    build(decls, lambdas).expect("the declarations are in order")
}

fn type_of(env: &Environment, e: &Expr) -> Result<Type, TypeError> {
    let mut cache: Vec<Specialization> = Vec::new();
    check_expr(env, &mut cache, e, DEPTH).map(|m| m.ty)
}

fn position(env: &Environment, name: u64, params: Vec<Type>) -> usize {
    env.fns
        .iter()
        .position(|s| {
            s.name == name
                && s.params.len() == params.len()
                && s.params.iter().zip(params.iter()).all(|(b, t)| &b.ty == t)
        })
        .expect("the signature is declared")
}

fn coerced(rule: usize, to: Type, inner: Mir) -> Mir {
    Mir { ty: to, node: MirNode::Coerce(rule, Box::new(inner)) }
}

fn int_node(v: i64) -> Mir {
    Mir { ty: Type::Int, node: MirNode::IntLit(v) }
}

#[test]
fn literals_have_their_primitive_types() {
    let env = env_of(vec![], vec![]);
    assert_eq!(type_of(&env, &lit(2)), Ok(Type::Int));
    assert_eq!(type_of(&env, &frac(2.5)), Ok(Type::Num));
    assert_eq!(type_of(&env, &Expr::BoolLit(true)), Ok(Type::Bool));
    assert_eq!(type_of(&env, &Expr::StrLit(9)), Ok(Type::Str));
}

#[test]
fn int_literal_is_not_silently_a_num() {
    // `+` on nums only: an int literal is converted by the declared conversion.
    let env = env_of(
        vec![
            intrinsic(PLUS, vec![Type::Num, Type::Num], Type::Num),
            intrinsic(INT_TO_NUM, vec![Type::Int], Type::Num),
            coercion(Type::Int, Type::Num, call(INT_TO_NUM, vec![name(X)])),
        ],
        vec![],
    );
    let mut cache = Vec::new();
    let m = check_expr(&env, &mut cache, &call(PLUS, vec![lit(1), frac(2.0)]), DEPTH).unwrap();
    assert_eq!(m.ty, Type::Num);
    match m.node {
        MirNode::Call(name, target, args) => {
            assert_eq!(name, PLUS);
            assert_eq!(target, Target::Signature(0));
            assert_eq!(args[0], coerced(0, Type::Num, int_node(1)));
            assert_eq!(args[1], Mir { ty: Type::Num, node: MirNode::NumLit(2.0f64.to_bits()) });
        }
        _ => panic!("expected a call"),
    }
    // Without the conversion the call has no match.
    let bare = env_of(vec![intrinsic(PLUS, vec![Type::Num, Type::Num], Type::Num)], vec![]);
    assert_eq!(
        type_of(&bare, &call(PLUS, vec![lit(1), frac(2.0)])),
        Err(TypeError::NoMatchingOverload(PLUS))
    );
}

#[test]
fn exact_match_applies_no_conversion() {
    let env = env_of(complex_unit(true), vec![]);
    let mut cache = Vec::new();
    let m = check_expr(&env, &mut cache, &call(PLUS, vec![lit(1), lit(2)]), DEPTH).unwrap();
    assert_eq!(m.ty, Type::Int);
    match m.node {
        MirNode::Call(_, target, args) => {
            assert_eq!(target, Target::Signature(position(&env, PLUS, vec![Type::Int, Type::Int])));
            assert_eq!(args, vec![int_node(1), int_node(2)]);
        }
        _ => panic!("expected a call"),
    }
}

#[test]
fn coercions_compose_into_a_chain() {
    let env = env_of(complex_unit(true), vec![]);
    let e = call(PLUS, vec![call(COMPLEX, vec![frac(2.0), frac(3.0)]), lit(4)]);
    let mut cache = Vec::new();
    let m = check_expr(&env, &mut cache, &e, DEPTH).unwrap();
    assert_eq!(m.ty, complex());
    match m.node {
        MirNode::Call(name, target, args) => {
            assert_eq!(name, PLUS);
            assert_eq!(target, Target::Signature(position(&env, PLUS, vec![complex(), complex()])));
            // int -> num -> Complex: two nested conversions around the literal.
            assert_eq!(args[1], coerced(1, complex(), coerced(0, Type::Num, int_node(4))));
        }
        _ => panic!("expected a call"),
    }
}

#[test]
fn removing_a_link_of_the_chain_leaves_no_match() {
    let env = env_of(complex_unit(false), vec![]);
    let e = call(PLUS, vec![call(COMPLEX, vec![frac(2.0), frac(3.0)]), lit(4)]);
    assert_eq!(type_of(&env, &e), Err(TypeError::NoMatchingOverload(PLUS)));
}

#[test]
fn two_overloads_one_conversion_each_are_ambiguous() {
    let env = env_of(
        vec![
            coercion(Type::Int, Type::Struct(ALPHA), name(X)),
            coercion(Type::Int, Type::Struct(BETA), name(X)),
            intrinsic(F, vec![Type::Struct(ALPHA)], Type::Int),
            intrinsic(F, vec![Type::Struct(BETA)], Type::Int),
        ],
        vec![],
    );
    assert_eq!(type_of(&env, &call(F, vec![lit(1)])), Err(TypeError::AmbiguousOverload(F)));
}

fn generic_unit() -> Vec<Decl> {
    let mut decls = arithmetic();
    decls.push(function(SQUARE_ANY, vec![(X, Type::Any)], None, call(STAR, vec![name(X), name(X)])));
    decls.push(function(SQUARE_SHORT, vec![(X, Type::Int)], None, call(STAR, vec![name(X), name(X)])));
    decls
}

#[test]
fn generic_function_is_specialized_per_argument_type() {
    let env = env_of(generic_unit(), vec![]);
    let mut cache: Vec<Specialization> = Vec::new();
    let a = check_expr(&env, &mut cache, &call(SQUARE_ANY, vec![lit(4)]), DEPTH).unwrap();
    assert_eq!(a.ty, Type::Int);
    assert_eq!(cache.len(), 1);
    let b = check_expr(&env, &mut cache, &call(SQUARE_ANY, vec![frac(3.4)]), DEPTH).unwrap();
    assert_eq!(b.ty, Type::Num);
    assert_eq!(cache.len(), 2);
    let generic = position(&env, SQUARE_ANY, vec![Type::Any]);
    assert_eq!(cache[0].callee, Callee::Function(generic));
    assert_eq!(cache[0].params, vec![Type::Int]);
    assert_eq!(cache[0].result, Type::Int);
    assert_eq!(cache[1].callee, Callee::Function(generic));
    assert_eq!(cache[1].params, vec![Type::Num]);
    assert_eq!(cache[1].result, Type::Num);
    match (a.node, b.node) {
        (MirNode::Call(_, ta, _), MirNode::Call(_, tb, _)) => {
            assert_eq!(ta, Target::Specialization(0));
            assert_eq!(tb, Target::Specialization(1));
        }
        _ => panic!("expected calls"),
    }
    // The typed bodies differ: each multiplies with the overload of its type.
    match (&cache[0].body.node, &cache[1].body.node) {
        (MirNode::Call(_, ta, _), MirNode::Call(_, tb, _)) => {
            assert_eq!(ta, &Target::Signature(position(&env, STAR, vec![Type::Int, Type::Int])));
            assert_eq!(tb, &Target::Signature(position(&env, STAR, vec![Type::Num, Type::Num])));
        }
        _ => panic!("expected calls"),
    }
}

#[test]
fn repeated_call_reuses_the_specialization() {
    let env = env_of(generic_unit(), vec![]);
    let mut cache: Vec<Specialization> = Vec::new();
    let twice = call(PLUS, vec![call(SQUARE_ANY, vec![lit(4)]), call(SQUARE_ANY, vec![lit(5)])]);
    let m = check_expr(&env, &mut cache, &twice, DEPTH).unwrap();
    assert_eq!(m.ty, Type::Int);
    assert_eq!(cache.len(), 1);
    match m.node {
        MirNode::Call(_, _, args) => {
            for arg in args {
                match arg.node {
                    MirNode::Call(_, target, _) => assert_eq!(target, Target::Specialization(0)),
                    _ => panic!("expected a call"),
                }
            }
        }
        _ => panic!("expected a call"),
    }
    let again = check_expr(&env, &mut cache, &call(SQUARE_ANY, vec![lit(6)]), 1).unwrap();
    assert_eq!(again.ty, Type::Int);
    assert_eq!(cache.len(), 1);
}

#[test]
fn failing_specialization_leaves_the_cache_alone() {
    let env = env_of(generic_unit(), vec![]);
    let mut cache: Vec<Specialization> = Vec::new();
    check_expr(&env, &mut cache, &call(SQUARE_ANY, vec![lit(4)]), DEPTH).unwrap();
    check_expr(&env, &mut cache, &call(SQUARE_ANY, vec![frac(3.4)]), DEPTH).unwrap();
    let r = check_expr(&env, &mut cache, &call(SQUARE_ANY, vec![Expr::BoolLit(true)]), DEPTH);
    assert_eq!(r.err(), Some(TypeError::TypeMismatch));
    assert_eq!(cache.len(), 2);
    assert_eq!(cache[0].params, vec![Type::Int]);
    assert_eq!(cache[0].result, Type::Int);
    assert_eq!(cache[1].params, vec![Type::Num]);
    assert_eq!(cache[1].result, Type::Num);
}

#[test]
fn declared_parameter_type_is_not_generic() {
    let env = env_of(generic_unit(), vec![]);
    // `square_short(x: int) = x * x`: the result type is inferred, the parameter is not.
    assert_eq!(type_of(&env, &call(SQUARE_SHORT, vec![lit(4)])), Ok(Type::Int));
    assert_eq!(
        type_of(&env, &call(SQUARE_SHORT, vec![frac(3.4)])),
        Err(TypeError::NoMatchingOverload(SQUARE_SHORT))
    );
}

#[test]
fn specialize_types_a_body_under_given_types() {
    let env = env_of(generic_unit(), vec![]);
    let generic = position(&env, SQUARE_ANY, vec![Type::Any]);
    let mut cache: Vec<Specialization> = Vec::new();
    assert_eq!(
        specialize(&env, &mut cache, Callee::Function(generic), vec![Type::Num], 1),
        Ok((Type::Num, 0))
    );
    assert_eq!(
        specialize(&env, &mut cache, Callee::Function(generic), vec![Type::Num], 5),
        Ok((Type::Num, 0))
    );
    assert_eq!(
        specialize(&env, &mut cache, Callee::Function(generic), vec![Type::Int], 0),
        Err(TypeError::UnresolvedRecursiveGeneric)
    );
    assert_eq!(
        specialize(&env, &mut cache, Callee::Function(generic), vec![Type::Str], 3),
        Err(TypeError::TypeMismatch)
    );
    assert_eq!(
        specialize(&env, &mut cache, Callee::Function(generic), vec![], 3),
        Err(TypeError::TypeMismatch)
    );
    assert_eq!(cache.len(), 1);
}

#[test]
fn recursive_generic_is_reported() {
    let mut decls = arithmetic();
    decls.push(function(LOOP, vec![(X, Type::Any)], None, call(LOOP, vec![name(X)])));
    let env = env_of(decls, vec![]);
    assert_eq!(
        type_of(&env, &call(LOOP, vec![lit(1)])),
        Err(TypeError::UnresolvedRecursiveGeneric)
    );
}

#[test]
fn recursive_function_with_declared_types_needs_no_look_at_its_body() {
    let mut decls = arithmetic();
    decls.push(function(
        FACT,
        vec![(X, Type::Int)],
        Some(Type::Int),
        Expr::If(
            Box::new(call(EQ, vec![name(X), lit(0)])),
            Box::new(lit(1)),
            Some(Box::new(call(STAR, vec![name(X), call(FACT, vec![call(SUB, vec![name(X), lit(1)])])]))),
        ),
    ));
    let env = env_of(decls, vec![]);
    let mut cache = Vec::new();
    assert_eq!(check_expr(&env, &mut cache, &call(FACT, vec![lit(5)]), 0).map(|m| m.ty), Ok(Type::Int));
    assert!(cache.is_empty());
}

fn surreal_unit() -> Vec<Decl> {
    vec![structure(SUR, vec![(LHS, dynamic(sur())), (RHS, dynamic(sur()))])]
}

#[test]
fn recursive_struct_types_and_constructs() {
    let env = env_of(surreal_unit(), vec![]);
    let zero = || call(SUR, vec![Expr::ArrayLit(vec![]), Expr::ArrayLit(vec![])]);
    assert_eq!(type_of(&env, &zero()), Ok(sur()));
    let one = call(SUR, vec![Expr::ArrayLit(vec![zero()]), Expr::ArrayLit(vec![])]);
    assert_eq!(type_of(&env, &one), Ok(sur()));
    assert_eq!(type_of(&env, &field(zero(), LHS)), Ok(dynamic(sur())));
    assert_eq!(type_of(&env, &index(field(zero(), RHS), lit(0))), Ok(sur()));
}

#[test]
fn constructor_arguments_are_widened() {
    let env = env_of(surreal_unit(), vec![]);
    let zero = || call(SUR, vec![Expr::ArrayLit(vec![]), Expr::ArrayLit(vec![])]);
    let one = call(SUR, vec![Expr::ArrayLit(vec![zero()]), Expr::ArrayLit(vec![])]);
    let mut cache = Vec::new();
    let m = check_expr(&env, &mut cache, &one, DEPTH).unwrap();
    match m.node {
        MirNode::Call(name, target, args) => {
            assert_eq!(name, SUR);
            assert_eq!(target, Target::Signature(0));
            assert_eq!(args[0].ty, dynamic(sur()));
            match &args[0].node {
                MirNode::Widen(inner) => assert_eq!(inner.ty, fixed(sur(), 1)),
                _ => panic!("expected a widening"),
            }
            assert_eq!(args[1].ty, dynamic(sur()));
        }
        _ => panic!("expected a call"),
    }
}

#[test]
fn array_constructors_agree() {
    let env = env_of(vec![], vec![]);
    let repeat = Expr::ArrayRepeat(Box::new(frac(2.3)), 4);
    let list = Expr::ArrayLit(vec![frac(2.3), frac(2.3), frac(2.3), frac(2.3)]);
    let gen = generator(I, frac(2.3), lit(4));
    assert_eq!(type_of(&env, &repeat), Ok(fixed(Type::Num, 4)));
    assert_eq!(type_of(&env, &list), Ok(fixed(Type::Num, 4)));
    assert_eq!(type_of(&env, &gen), Ok(fixed(Type::Num, 4)));
}

#[test]
fn generator_binds_its_index_as_int() {
    let env = env_of(arithmetic(), vec![]);
    let squares = generator(I, call(STAR, vec![name(I), name(I)]), lit(4));
    assert_eq!(type_of(&env, &squares), Ok(fixed(Type::Int, 4)));
    // The index is not in scope outside the body.
    assert_eq!(
        type_of(&env, &Expr::Block(vec![squares_stmt(), name(I)])),
        Err(TypeError::UndefinedSymbol(I))
    );
}

fn squares_stmt() -> Expr {
    generator(I, call(STAR, vec![name(I), name(I)]), lit(4))
}

#[test]
fn generator_length_decides_fixed_or_dynamic() {
    let env = env_of(
        vec![structure(SUR, vec![(LHS, dynamic(Type::Int)), (RHS, fixed(Type::Int, 3))])],
        vec![],
    );
    let s = || call(SUR, vec![Expr::ArrayLit(vec![]), Expr::ArrayLit(vec![lit(1), lit(2), lit(3)])]);
    let over_fixed = generator(I, name(I), field(field(s(), RHS), LEN));
    let over_dynamic = generator(I, name(I), field(field(s(), LHS), LEN));
    let over_computed = generator(I, name(I), index(field(s(), RHS), lit(0)));
    assert_eq!(type_of(&env, &over_fixed), Ok(fixed(Type::Int, 3)));
    assert_eq!(type_of(&env, &over_dynamic), Ok(dynamic(Type::Int)));
    assert_eq!(type_of(&env, &over_computed), Ok(dynamic(Type::Int)));
    assert_eq!(type_of(&env, &generator(I, name(I), lit(-1))), Err(TypeError::TypeMismatch));
    assert_eq!(type_of(&env, &generator(I, name(I), frac(2.0))), Err(TypeError::TypeMismatch));
}

#[test]
fn array_literal_takes_the_common_element_type() {
    let env = env_of(complex_unit(true), vec![]);
    assert_eq!(
        type_of(&env, &Expr::ArrayLit(vec![lit(1), lit(1), lit(2), lit(3), lit(5), lit(8)])),
        Ok(fixed(Type::Int, 6))
    );
    assert_eq!(type_of(&env, &Expr::ArrayLit(vec![lit(1), frac(2.5)])), Ok(fixed(Type::Num, 2)));
    assert_eq!(
        type_of(&env, &Expr::ArrayLit(vec![lit(1), call(COMPLEX, vec![frac(1.0), frac(2.0)])])),
        Ok(fixed(complex(), 2))
    );
    assert_eq!(
        type_of(&env, &Expr::ArrayLit(vec![lit(1), Expr::BoolLit(true)])),
        Err(TypeError::TypeMismatch)
    );
    let mut cache = Vec::new();
    let m = check_expr(&env, &mut cache, &Expr::ArrayLit(vec![lit(1), frac(2.5)]), DEPTH).unwrap();
    match m.node {
        MirNode::ArrayLit(items) => {
            assert_eq!(items[0], coerced(0, Type::Num, int_node(1)));
            assert_eq!(items[1].ty, Type::Num);
        }
        _ => panic!("expected an array literal"),
    }
}

#[test]
fn empty_array_literal_alone_has_no_type() {
    let env = env_of(vec![], vec![]);
    assert_eq!(type_of(&env, &Expr::ArrayLit(vec![])), Err(TypeError::TypeMismatch));
}

#[test]
fn complex_addition_converts_its_int_fields() {
    let env = env_of(complex_unit(true), vec![]);
    let e = call(
        PLUS,
        vec![call(COMPLEX, vec![lit(2), lit(3)]), call(COMPLEX, vec![lit(2), lit(2)])],
    );
    let mut cache = Vec::new();
    let m = check_expr(&env, &mut cache, &e, DEPTH).unwrap();
    assert_eq!(m.ty, complex());
    let ctor = position(&env, COMPLEX, vec![Type::Num, Type::Num]);
    match m.node {
        MirNode::Call(name, target, args) => {
            assert_eq!(name, PLUS);
            assert_eq!(target, Target::Signature(position(&env, PLUS, vec![complex(), complex()])));
            assert_eq!(
                args[0],
                Mir {
                    ty: complex(),
                    node: MirNode::Call(
                        COMPLEX,
                        Target::Signature(ctor),
                        vec![
                            coerced(0, Type::Num, int_node(2)),
                            coerced(0, Type::Num, int_node(3)),
                        ],
                    ),
                }
            );
            assert_eq!(
                args[1],
                Mir {
                    ty: complex(),
                    node: MirNode::Call(
                        COMPLEX,
                        Target::Signature(ctor),
                        vec![
                            coerced(0, Type::Num, int_node(2)),
                            coerced(0, Type::Num, int_node(2)),
                        ],
                    ),
                }
            );
        }
        _ => panic!("expected a call"),
    }
    assert!(cache.is_empty());
}

fn map_decl() -> Decl {
    function(
        MAP,
        vec![(X, dynamic(Type::Any)), (FUN, Type::Any)],
        Some(dynamic(Type::Any)),
        generator(I, call(FUN, vec![index(name(X), name(I))]), field(name(X), LEN)),
    )
}

#[test]
fn array_overload_is_chosen_for_an_array() {
    let mut decls = arithmetic();
    decls.push(function(IS_ZERO, vec![(X, Type::Int)], Some(Type::Bool), call(EQ, vec![name(X), lit(0)])));
    decls.push(function(
        IS_ZERO,
        vec![(X, dynamic(Type::Any))],
        Some(dynamic(Type::Bool)),
        call(MAP, vec![name(X), name(IS_ZERO)]),
    ));
    decls.push(map_decl());
    let env = env_of(decls, vec![]);
    let e = call(IS_ZERO, vec![Expr::ArrayLit(vec![lit(2), lit(3), lit(4), lit(0)])]);
    let mut cache = Vec::new();
    let m = check_expr(&env, &mut cache, &e, DEPTH).unwrap();
    assert_eq!(m.ty, fixed(Type::Bool, 4));
    let over_arrays = position(&env, IS_ZERO, vec![dynamic(Type::Any)]);
    let over_ints = position(&env, IS_ZERO, vec![Type::Int]);
    let map = position(&env, MAP, vec![dynamic(Type::Any), Type::Any]);
    // The inner specialization (of `map`) is finished first.
    assert_eq!(cache.len(), 2);
    assert_eq!(cache[0].callee, Callee::Function(map));
    assert_eq!(cache[0].params, vec![fixed(Type::Int, 4), Type::FnItem(IS_ZERO)]);
    assert_eq!(cache[0].result, fixed(Type::Bool, 4));
    assert_eq!(cache[1].callee, Callee::Function(over_arrays));
    assert_eq!(cache[1].params, vec![fixed(Type::Int, 4)]);
    assert_eq!(cache[1].result, fixed(Type::Bool, 4));
    match m.node {
        MirNode::Call(_, target, _) => assert_eq!(target, Target::Specialization(1)),
        _ => panic!("expected a call"),
    }
    // Inside `map`, the element call goes to the overload on ints.
    match &cache[0].body.node {
        MirNode::ArrayGen(_, body, _) => match &body.node {
            MirNode::Call(name, target, _) => {
                assert_eq!(*name, FUN);
                assert_eq!(target, &Target::Signature(over_ints));
            }
            _ => panic!("expected a call"),
        },
        _ => panic!("expected a generator"),
    }
    // On an int the call goes to the first overload directly.
    assert_eq!(type_of(&env, &call(IS_ZERO, vec![lit(0)])), Ok(Type::Bool));
}

#[test]
fn early_return_inside_a_generator_types_as_bool() {
    let mut decls = arithmetic();
    decls.push(function(
        SOME,
        vec![(DATA, dynamic(Type::Any)), (CHECK, Type::Any)],
        Some(Type::Bool),
        Expr::Block(vec![
            generator(
                I,
                Expr::If(
                    Box::new(call(CHECK, vec![index(name(DATA), name(I))])),
                    Box::new(Expr::Return(Box::new(Expr::BoolLit(true)))),
                    Some(Box::new(Expr::Block(vec![]))),
                ),
                field(name(DATA), LEN),
            ),
            Expr::BoolLit(false),
        ]),
    ));
    let even = Lambda { params: vec![X], body: call(EQ, vec![call(REM, vec![name(X), lit(2)]), lit(0)]) };
    let env = env_of(decls, vec![even]);
    let e = call(SOME, vec![Expr::ArrayLit(vec![lit(2), lit(4), lit(3)]), Expr::Lambda(0)]);
    let mut cache = Vec::new();
    let m = check_expr(&env, &mut cache, &e, DEPTH).unwrap();
    assert_eq!(m.ty, Type::Bool);
    assert_eq!(cache.len(), 2);
    assert_eq!(cache[0].callee, Callee::Lambda(0));
    assert_eq!(cache[0].params, vec![Type::Int]);
    assert_eq!(cache[0].result, Type::Bool);
    assert_eq!(cache[1].params, vec![fixed(Type::Int, 3), Type::Closure(0)]);
    // The `return` sits inside the generator and has no value of its own.
    match &cache[1].body.node {
        MirNode::Block(stmts) => match &stmts[0].node {
            MirNode::ArrayGen(_, body, _) => match &body.node {
                MirNode::If(_, then, _) => assert_eq!(then.ty, Type::Never),
                _ => panic!("expected an if"),
            },
            _ => panic!("expected a generator"),
        },
        _ => panic!("expected a block"),
    }
}

#[test]
fn return_must_fit_the_declared_result() {
    let mut decls = arithmetic();
    decls.push(function(
        F,
        vec![(X, Type::Any)],
        Some(Type::Bool),
        Expr::Block(vec![Expr::Return(Box::new(name(X))), Expr::BoolLit(false)]),
    ));
    let env = env_of(decls, vec![]);
    assert_eq!(type_of(&env, &call(F, vec![Expr::BoolLit(true)])), Ok(Type::Bool));
    assert_eq!(type_of(&env, &call(F, vec![lit(1)])), Err(TypeError::TypeMismatch));
}

#[test]
fn return_sites_must_agree_where_the_result_is_inferred() {
    let mut decls = arithmetic();
    decls.push(function(
        F,
        vec![(X, Type::Any)],
        None,
        Expr::Block(vec![
            Expr::If(
                Box::new(Expr::BoolLit(true)),
                Box::new(Expr::Return(Box::new(name(X)))),
                None,
            ),
            lit(0),
        ]),
    ));
    let env = env_of(decls, vec![]);
    assert_eq!(type_of(&env, &call(F, vec![lit(1)])), Ok(Type::Int));
    assert_eq!(type_of(&env, &call(F, vec![frac(1.0)])), Err(TypeError::TypeMismatch));
    assert_eq!(
        type_of(&env, &Expr::Return(Box::new(lit(1)))),
        Err(TypeError::TypeMismatch)
    );
}

#[test]
fn lambda_is_typed_when_called() {
    let mut decls = arithmetic();
    decls.push(map_decl());
    decls.push(intrinsic(NEG, vec![Type::Int], Type::Int));
    let plus_two = Lambda { params: vec![X], body: call(PLUS, vec![name(X), lit(2)]) };
    let env = env_of(decls, vec![plus_two]);
    let over_ints = call(MAP, vec![Expr::ArrayLit(vec![lit(3), lit(7), lit(5)]), Expr::Lambda(0)]);
    let over_nums = call(MAP, vec![Expr::ArrayLit(vec![frac(3.0)]), Expr::Lambda(0)]);
    let over_bools = call(MAP, vec![Expr::ArrayLit(vec![Expr::BoolLit(true)]), Expr::Lambda(0)]);
    assert_eq!(type_of(&env, &over_ints), Ok(fixed(Type::Int, 3)));
    // Without a conversion from int to num, `x + 2` has no overload for a num.
    assert_eq!(type_of(&env, &over_nums), Err(TypeError::TypeMismatch));
    assert_eq!(type_of(&env, &over_bools), Err(TypeError::TypeMismatch));
    assert_eq!(type_of(&env, &Expr::Lambda(0)), Ok(Type::Closure(0)));
    assert_eq!(type_of(&env, &Expr::Lambda(1)), Err(TypeError::TypeMismatch));
}

#[test]
fn lambda_sees_no_enclosing_local() {
    let mut decls = arithmetic();
    decls.push(map_decl());
    // |x| x + b, with `b` a local of the caller.
    let capture = Lambda { params: vec![X], body: call(PLUS, vec![name(X), name(B)]) };
    let env = env_of(decls, vec![capture]);
    let e = Expr::Block(vec![
        Expr::Let(B, Box::new(lit(4))),
        call(MAP, vec![Expr::ArrayLit(vec![lit(1), lit(2)]), Expr::Lambda(0)]),
    ]);
    assert_eq!(type_of(&env, &e), Err(TypeError::TypeMismatch));
}

#[test]
fn block_scopes_its_lets() {
    let env = env_of(arithmetic(), vec![]);
    let e = Expr::Block(vec![
        Expr::Let(X, Box::new(lit(2))),
        Expr::Let(A, Box::new(call(PLUS, vec![name(X), lit(1)]))),
        call(EQ, vec![name(A), lit(3)]),
    ]);
    assert_eq!(type_of(&env, &e), Ok(Type::Bool));
    assert_eq!(type_of(&env, &Expr::Block(vec![])), Ok(Type::Unit));
    assert_eq!(type_of(&env, &Expr::Block(vec![Expr::Let(X, Box::new(lit(2)))])), Ok(Type::Unit));
    // A later let of the same name shadows the earlier one.
    let shadow = Expr::Block(vec![
        Expr::Let(X, Box::new(lit(2))),
        Expr::Let(X, Box::new(frac(2.0))),
        name(X),
    ]);
    assert_eq!(type_of(&env, &shadow), Ok(Type::Num));
    // A let inside a nested block does not reach the outer one.
    let nested = Expr::Block(vec![Expr::Block(vec![Expr::Let(X, Box::new(lit(2)))]), name(X)]);
    assert_eq!(type_of(&env, &nested), Err(TypeError::UndefinedSymbol(X)));
}

#[test]
fn if_needs_a_bool_and_agreeing_branches() {
    let env = env_of(complex_unit(true), vec![]);
    let pick = |c: Expr, a: Expr, b: Expr| Expr::If(Box::new(c), Box::new(a), Some(Box::new(b)));
    assert_eq!(type_of(&env, &pick(Expr::BoolLit(true), lit(1), lit(2))), Ok(Type::Int));
    assert_eq!(type_of(&env, &pick(Expr::BoolLit(true), lit(1), frac(2.0))), Ok(Type::Num));
    assert_eq!(
        type_of(&env, &pick(Expr::BoolLit(true), lit(1), Expr::StrLit(3))),
        Err(TypeError::TypeMismatch)
    );
    assert_eq!(type_of(&env, &pick(lit(1), lit(1), lit(2))), Err(TypeError::TypeMismatch));
    let bare = Expr::If(Box::new(Expr::BoolLit(true)), Box::new(Expr::Block(vec![])), None);
    assert_eq!(type_of(&env, &bare), Ok(Type::Unit));
    let valued = Expr::If(Box::new(Expr::BoolLit(true)), Box::new(lit(1)), None);
    assert_eq!(type_of(&env, &valued), Err(TypeError::TypeMismatch));
}

#[test]
fn every_error_has_an_input() {
    let env = env_of(complex_unit(true), vec![]);
    let c = || call(COMPLEX, vec![frac(1.0), frac(2.0)]);
    assert_eq!(type_of(&env, &name(F)), Err(TypeError::UndefinedSymbol(F)));
    assert_eq!(type_of(&env, &call(F, vec![lit(1)])), Err(TypeError::UndefinedSymbol(F)));
    assert_eq!(type_of(&env, &field(c(), LHS)), Err(TypeError::UndefinedField(LHS)));
    assert_eq!(type_of(&env, &field(Expr::ArrayLit(vec![lit(1)]), RE)), Err(TypeError::UndefinedField(RE)));
    assert_eq!(type_of(&env, &field(lit(1), RE)), Err(TypeError::TypeMismatch));
    assert_eq!(type_of(&env, &call(COMPLEX, vec![frac(1.0)])), Err(TypeError::ArityMismatch(COMPLEX)));
    assert_eq!(
        type_of(&env, &call(PLUS, vec![lit(1), lit(2), lit(3)])),
        Err(TypeError::ArityMismatch(PLUS))
    );
    assert_eq!(
        type_of(&env, &call(PLUS, vec![Expr::BoolLit(true), lit(2)])),
        Err(TypeError::NoMatchingOverload(PLUS))
    );
    assert_eq!(type_of(&env, &index(lit(1), lit(0))), Err(TypeError::TypeMismatch));
    assert_eq!(
        type_of(&env, &index(Expr::ArrayLit(vec![lit(1)]), frac(0.0))),
        Err(TypeError::TypeMismatch)
    );
    assert_eq!(type_of(&env, &field(c(), RE)), Ok(Type::Num));
    assert_eq!(type_of(&env, &field(Expr::ArrayLit(vec![lit(1)]), LEN)), Ok(Type::Int));
    assert_eq!(type_of(&env, &index(Expr::ArrayLit(vec![lit(3), lit(7), lit(5)]), lit(1))), Ok(Type::Int));
}

#[test]
fn function_name_is_a_value() {
    let env = env_of(arithmetic(), vec![]);
    assert_eq!(type_of(&env, &name(PLUS)), Ok(Type::FnItem(PLUS)));
    let through_local = Expr::Block(vec![
        Expr::Let(FUN, Box::new(name(PLUS))),
        call(FUN, vec![frac(1.0), frac(2.0)]),
    ]);
    assert_eq!(type_of(&env, &through_local), Ok(Type::Num));
    let not_callable = Expr::Block(vec![Expr::Let(FUN, Box::new(lit(1))), call(FUN, vec![lit(1)])]);
    assert_eq!(type_of(&env, &not_callable), Err(TypeError::TypeMismatch));
}
