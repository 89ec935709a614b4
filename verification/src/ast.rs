//! The syntax tree that the type checker consumes, and the declarations that
//! the environment is built from.

use vstd::prelude::*;
use crate::types::{Symbol, Type};

verus! {

/// An expression. Operator uses and struct literals are calls: the callee is
/// the operator's symbol or the struct's name.
#[derive(Debug, PartialEq, Eq)]
pub enum Expr {
    /// A literal without a fractional part.
    IntLit(i64),
    /// A literal with a fractional part, as the bits of its value.
    NumLit(u64),
    BoolLit(bool),
    /// A string literal, by its interned text.
    StrLit(Symbol),
    /// A reference to a local name or to a function.
    Ident(Symbol),
    /// A call of a named function, an operator use or a struct literal.
    Call(Symbol, Vec<Expr>),
    /// `x.f`
    Field(Box<Expr>, Symbol),
    /// `x[i]`
    Index(Box<Expr>, Box<Expr>),
    /// `[e1, e2, ...]`
    ArrayLit(Vec<Expr>),
    /// `[e; N]`
    ArrayRepeat(Box<Expr>, usize),
    /// `[i => body; len]`: the index name, the body and the length.
    ArrayGen(Symbol, Box<Expr>, Box<Expr>),
    /// An inline function, by its position in the unit's table.
    Lambda(usize),
    /// `let name = value`; binds the name for the rest of the enclosing block.
    Let(Symbol, Box<Expr>),
    /// `{ s1; s2; ... }`; its value is that of the last statement.
    Block(Vec<Expr>),
    /// `if (c) a else b`; the else branch may be absent.
    If(Box<Expr>, Box<Expr>, Option<Box<Expr>>),
    /// `return e`: leaves the nearest enclosing function.
    Return(Box<Expr>),
}

/// A name with its type: a struct field, or a function parameter (whose type
/// is `Any` where the declaration leaves it to the call site).
#[derive(Debug, PartialEq, Eq)]
pub struct Binding {
    pub name: Symbol,
    pub ty: Type,
}

/// An inline function: parameter names and a body. It captures nothing.
#[derive(Debug, PartialEq, Eq)]
pub struct Lambda {
    pub params: Vec<Symbol>,
    pub body: Expr,
}

/// What stands behind a signature.
#[derive(Debug, PartialEq, Eq)]
pub enum Body {
    /// Provided by the runtime; the result type is declared.
    Intrinsic,
    /// The implicit constructor of a struct.
    Constructor,
    /// A body written in the language.
    Code(Expr),
}

/// A function or operator signature.
#[derive(Debug, PartialEq, Eq)]
pub struct Signature {
    pub name: Symbol,
    pub params: Vec<Binding>,
    /// The declared result type; `None` where it is inferred from the body.
    pub result: Option<Type>,
    pub body: Body,
}

/// A struct declaration.
#[derive(Debug, PartialEq, Eq)]
pub struct StructDecl {
    pub name: Symbol,
    pub fields: Vec<Binding>,
}

/// A declared implicit conversion from `from` to `to`.
#[derive(Debug, PartialEq, Eq)]
pub struct CoercionDecl {
    pub param: Symbol,
    pub from: Type,
    pub to: Type,
    /// The result type written on the body, where one is written.
    pub result: Option<Type>,
    pub body: Expr,
}

/// A top-level declaration.
#[derive(Debug, PartialEq, Eq)]
pub enum Decl {
    Struct(StructDecl),
    Coercion(CoercionDecl),
    Function(Signature),
}

/// The types of a list of bindings, in order.
pub open spec fn binding_types(bs: Seq<Binding>) -> Seq<Type> {
    Seq::new(bs.len(), |i: int| bs[i].ty)
}

/// Whether two lists of bindings have the same types in the same order.
pub fn same_binding_types(a: &Vec<Binding>, b: &Vec<Binding>) -> (r: bool)
    ensures
        r == (binding_types(a@) == binding_types(b@)),
{
    if a.len() != b.len() {
        assert(binding_types(a@).len() != binding_types(b@).len());
        return false;
    }
    let mut i: usize = 0;
    while i < a.len()
        invariant
            i <= a.len(),
            a.len() == b.len(),
            forall|k: int| 0 <= k < i ==> a[k].ty == b[k].ty,
        decreases a.len() - i,
    {
        if !a[i].ty.same(&b[i].ty) {
            assert(binding_types(a@)[i as int] != binding_types(b@)[i as int]);
            return false;
        }
        i += 1;
    }
    assert(binding_types(a@) =~= binding_types(b@));
    true
}

/// A copy of a list of bindings.
pub fn duplicate_bindings(a: &Vec<Binding>) -> (r: Vec<Binding>)
    ensures
        r@ == a@,
{
    let mut out: Vec<Binding> = Vec::new();
    let mut i: usize = 0;
    while i < a.len()
        invariant
            i <= a.len(),
            out.len() == i,
            forall|k: int| 0 <= k < i ==> out[k] == a[k],
        decreases a.len() - i,
    {
        out.push(Binding { name: a[i].name, ty: a[i].ty.duplicate() });
        i += 1;
    }
    assert(out@ =~= a@);
    out
}

} // verus!
