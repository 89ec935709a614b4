//! Lookups that the type checker makes: names in scope, struct fields and
//! declared symbols.

use vstd::prelude::*;
use crate::ast::Binding;
use crate::env::Environment;
use crate::types::{Symbol, Type};
use crate::typing::{declares, declares_arity, field_type, lookup, struct_fields, TypeError};
use crate::types::LEN;

verus! {

/// The type that the innermost binding of `x` gives it.
pub fn find_binding(scope: &Vec<Binding>, x: Symbol) -> (r: Option<Type>)
    ensures
        r == lookup(scope@, x),
{
    let mut i: usize = scope.len();
    assert(scope@.subrange(0, i as int) =~= scope@);
    while i > 0
        invariant
            i <= scope@.len(),
            lookup(scope@, x) == lookup(scope@.subrange(0, i as int), x),
        decreases i,
    {
        let ghost prefix = scope@.subrange(0, i as int);
        proof {
            assert(prefix.last() == scope@[i - 1]);
            assert(prefix.drop_last() =~= scope@.subrange(0, i - 1));
        }
        if scope[i - 1].name == x {
            return Some(scope[i - 1].ty.duplicate());
        }
        i -= 1;
    }
    proof {
        assert(scope@.subrange(0, 0).len() == 0);
    }
    None
}

/// The position of struct `name` in the struct table.
pub fn find_fields(env: &Environment, name: Symbol) -> (r: Option<usize>)
    ensures
        match r {
            Some(k) => k < env.structs@.len() && struct_fields(env.structs@, name) == Some(
                env.structs@[k as int].fields@,
            ),
            None => struct_fields(env.structs@, name) is None,
        },
{
    let mut i: usize = env.structs.len();
    assert(env.structs@.subrange(0, i as int) =~= env.structs@);
    while i > 0
        invariant
            i <= env.structs@.len(),
            struct_fields(env.structs@, name) == struct_fields(
                env.structs@.subrange(0, i as int),
                name,
            ),
        decreases i,
    {
        let ghost prefix = env.structs@.subrange(0, i as int);
        proof {
            assert(prefix.last() == env.structs@[i - 1]);
            assert(prefix.drop_last() =~= env.structs@.subrange(0, i - 1));
        }
        if env.structs[i - 1].name == name {
            return Some(i - 1);
        }
        i -= 1;
    }
    proof {
        assert(env.structs@.subrange(0, 0).len() == 0);
    }
    None
}

/// Whether some signature has the symbol `name`.
pub fn is_declared(env: &Environment, name: Symbol) -> (r: bool)
    ensures
        r == declares(env.fns@, name),
{
    let mut i: usize = 0;
    while i < env.fns.len()
        invariant
            i <= env.fns@.len(),
            forall|k: int| 0 <= k < i ==> (#[trigger] env.fns@[k]).name != name,
        decreases env.fns@.len() - i,
    {
        if env.fns[i].name == name {
            return true;
        }
        i += 1;
    }
    false
}

/// Whether some signature has the symbol `name` and `n` parameters.
pub fn is_declared_with(env: &Environment, name: Symbol, n: usize) -> (r: bool)
    ensures
        r == declares_arity(env.fns@, name, n as nat),
{
    let mut i: usize = 0;
    while i < env.fns.len()
        invariant
            i <= env.fns@.len(),
            forall|k: int|
                0 <= k < i ==> !((#[trigger] env.fns@[k]).name == name && env.fns@[k].params@.len()
                    == n),
        decreases env.fns@.len() - i,
    {
        if env.fns[i].name == name && env.fns[i].params.len() == n {
            return true;
        }
        i += 1;
    }
    false
}

/// The type of field `f` of a value of type `t`.
pub fn find_field(env: &Environment, t: &Type, f: Symbol) -> (r: Result<Type, TypeError>)
    ensures
        r == field_type(*env, *t, f),
{
    match t {
        Type::FixedArray(_, _) | Type::DynArray(_) => {
            if f == LEN {
                Ok(Type::Int)
            } else {
                Err(TypeError::UndefinedField(f))
            }
        },
        Type::Struct(s) => match find_fields(env, *s) {
            None => Err(TypeError::UndefinedSymbol(*s)),
            Some(k) => match find_binding(&env.structs[k].fields, f) {
                Some(ft) => Ok(ft),
                None => Err(TypeError::UndefinedField(f)),
            },
        },
        _ => Err(TypeError::TypeMismatch),
    }
}

} // verus!
