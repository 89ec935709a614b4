//! The canonical representation of types.
//!
//! Struct types are nominal: a struct type holds its name only, and its fields
//! live in the environment's struct table. A struct may therefore mention
//! itself in its own fields without the type growing without bound.

use vstd::prelude::*;

verus! {

/// An interned name: an identifier, an operator or a string literal's text.
pub type Symbol = u64;

/// The name under which an array offers its length as a field.
pub const LEN: Symbol = 0;

/// A type of the language.
#[derive(Debug, PartialEq, Eq)]
pub enum Type {
    /// Whole numbers; literals without a fractional part.
    Int,
    /// Literals with a fractional part.
    Num,
    Bool,
    Str,
    /// The type of an empty block and of an `if` without `else`.
    Unit,
    /// The type of `return`: control never arrives with a value.
    Never,
    /// A struct, identified by its name alone.
    Struct(Symbol),
    /// An array whose length is part of its type.
    FixedArray(Box<Type>, usize),
    /// An array whose length is known at run time only.
    DynArray(Box<Type>),
    /// One of several member types; legal on parameters.
    Union(Box<TypeList>),
    /// A callable value with known parameter and result types.
    Function(Box<TypeList>, Box<Type>),
    /// A function name used as a value: it stands for the whole overload set
    /// of that name, and is typed when it is called.
    FnItem(Symbol),
    /// An inline function, by its position in the unit's table of inline
    /// functions; its parameters are typed when it is called.
    Closure(usize),
    /// The placeholder for a parameter type that each call site decides.
    Any,
}

/// A list of types, for union members and parameter lists within a type.
#[derive(Debug, PartialEq, Eq)]
pub enum TypeList {
    Nil,
    Cons(Type, Box<TypeList>),
}

impl TypeList {
    /// The members in order.
    pub open spec fn to_seq(self) -> Seq<Type>
        decreases self,
    {
        match self {
            TypeList::Nil => Seq::empty(),
            TypeList::Cons(head, tail) => seq![head] + tail.to_seq(),
        }
    }

    /// Whether some member is open.
    pub open spec fn any_open(self) -> bool
        decreases self,
    {
        match self {
            TypeList::Nil => false,
            TypeList::Cons(head, tail) => head.is_open() || tail.any_open(),
        }
    }

    /// Whether some member admits `arg`.
    pub open spec fn some_admits(self, arg: Type) -> bool
        decreases self,
    {
        match self {
            TypeList::Nil => false,
            TypeList::Cons(head, tail) => head.admits(arg) || tail.some_admits(arg),
        }
    }

    /// Structural equality, decided at run time.
    pub fn same(&self, other: &TypeList) -> (r: bool)
        ensures
            r == (*self == *other),
        decreases *self,
    {
        match (self, other) {
            (TypeList::Nil, TypeList::Nil) => true,
            (TypeList::Cons(a, x), TypeList::Cons(b, y)) => a.same(b) && x.same(y),
            _ => false,
        }
    }

    /// A copy of the list.
    pub fn duplicate(&self) -> (r: TypeList)
        ensures
            r == *self,
        decreases *self,
    {
        match self {
            TypeList::Nil => TypeList::Nil,
            TypeList::Cons(a, x) => TypeList::Cons(a.duplicate(), Box::new(x.duplicate())),
        }
    }

    /// Decides `any_open`.
    pub fn has_open(&self) -> (r: bool)
        ensures
            r == self.any_open(),
        decreases *self,
    {
        match self {
            TypeList::Nil => false,
            TypeList::Cons(a, x) => a.open() || x.has_open(),
        }
    }

    /// Decides `some_admits`.
    pub fn admits_some(&self, arg: &Type) -> (r: bool)
        ensures
            r == self.some_admits(*arg),
        decreases *self,
    {
        match self {
            TypeList::Nil => false,
            TypeList::Cons(a, x) => a.accepts(arg) || x.admits_some(arg),
        }
    }
}

impl Type {
    /// A type is open when a call site still has to decide it: it mentions
    /// `Any`, or it is a union. Every other type is concrete.
    pub open spec fn is_open(self) -> bool
        decreases self,
    {
        match self {
            Type::Any => true,
            Type::Union(_) => true,
            Type::FixedArray(elem, _) => elem.is_open(),
            Type::DynArray(elem) => elem.is_open(),
            Type::Function(params, result) => params.any_open() || result.is_open(),
            _ => false,
        }
    }

    /// Whether the open parameter type `self` admits an argument of type
    /// `arg`: `Any` admits every type, a union admits what one of its members
    /// admits, an array pattern admits arrays whose element type it admits (a
    /// dynamic array pattern also those of fixed length), and every other
    /// type admits itself only.
    pub open spec fn admits(self, arg: Type) -> bool
        decreases self,
    {
        match self {
            Type::Any => true,
            Type::Union(members) => members.some_admits(arg),
            Type::FixedArray(elem, n) => match arg {
                Type::FixedArray(e, m) => n == m && elem.admits(*e),
                _ => false,
            },
            Type::DynArray(elem) => match arg {
                Type::FixedArray(e, _) => elem.admits(*e),
                Type::DynArray(e) => elem.admits(*e),
                _ => false,
            },
            _ => self == arg,
        }
    }

    /// Structural equality, decided at run time.
    pub fn same(&self, other: &Type) -> (r: bool)
        ensures
            r == (*self == *other),
        decreases *self,
    {
        match (self, other) {
            (Type::Int, Type::Int) => true,
            (Type::Num, Type::Num) => true,
            (Type::Bool, Type::Bool) => true,
            (Type::Str, Type::Str) => true,
            (Type::Unit, Type::Unit) => true,
            (Type::Never, Type::Never) => true,
            (Type::Any, Type::Any) => true,
            (Type::Struct(a), Type::Struct(b)) => *a == *b,
            (Type::FnItem(a), Type::FnItem(b)) => *a == *b,
            (Type::Closure(a), Type::Closure(b)) => *a == *b,
            (Type::FixedArray(a, n), Type::FixedArray(b, m)) => *n == *m && a.same(b),
            (Type::DynArray(a), Type::DynArray(b)) => a.same(b),
            (Type::Union(a), Type::Union(b)) => a.same(b),
            (Type::Function(p, a), Type::Function(q, b)) => p.same(q) && a.same(b),
            _ => false,
        }
    }

    /// A copy of the type.
    pub fn duplicate(&self) -> (r: Type)
        ensures
            r == *self,
        decreases *self,
    {
        match self {
            Type::Int => Type::Int,
            Type::Num => Type::Num,
            Type::Bool => Type::Bool,
            Type::Str => Type::Str,
            Type::Unit => Type::Unit,
            Type::Never => Type::Never,
            Type::Any => Type::Any,
            Type::Struct(a) => Type::Struct(*a),
            Type::FnItem(a) => Type::FnItem(*a),
            Type::Closure(a) => Type::Closure(*a),
            Type::FixedArray(a, n) => Type::FixedArray(Box::new(a.duplicate()), *n),
            Type::DynArray(a) => Type::DynArray(Box::new(a.duplicate())),
            Type::Union(a) => Type::Union(Box::new(a.duplicate())),
            Type::Function(p, a) => Type::Function(
                Box::new(p.duplicate()),
                Box::new(a.duplicate()),
            ),
        }
    }

    /// Decides `is_open`.
    pub fn open(&self) -> (r: bool)
        ensures
            r == self.is_open(),
        decreases *self,
    {
        match self {
            Type::Any => true,
            Type::Union(_) => true,
            Type::FixedArray(elem, _) => elem.open(),
            Type::DynArray(elem) => elem.open(),
            Type::Function(params, result) => params.has_open() || result.open(),
            _ => false,
        }
    }

    /// Decides `admits`.
    pub fn accepts(&self, arg: &Type) -> (r: bool)
        ensures
            r == self.admits(*arg),
        decreases *self,
    {
        match self {
            Type::Any => true,
            Type::Union(members) => members.admits_some(arg),
            Type::FixedArray(elem, n) => match arg {
                Type::FixedArray(e, m) => *n == *m && elem.accepts(e),
                _ => false,
            },
            Type::DynArray(elem) => match arg {
                Type::FixedArray(e, _) => elem.accepts(e),
                Type::DynArray(e) => elem.accepts(e),
                _ => false,
            },
            _ => self.same(arg),
        }
    }
}

/// Whether two lists of types are equal position by position.
pub fn same_types(a: &Vec<Type>, b: &Vec<Type>) -> (r: bool)
    ensures
        r == (a@ == b@),
{
    if a.len() != b.len() {
        return false;
    }
    let mut i: usize = 0;
    while i < a.len()
        invariant
            i <= a.len(),
            a.len() == b.len(),
            forall|k: int| 0 <= k < i ==> a[k] == b[k],
        decreases a.len() - i,
    {
        if !a[i].same(&b[i]) {
            return false;
        }
        i += 1;
    }
    assert(a@ =~= b@);
    true
}

/// A copy of a list of types.
pub fn duplicate_types(a: &Vec<Type>) -> (r: Vec<Type>)
    ensures
        r@ == a@,
{
    let mut out: Vec<Type> = Vec::new();
    let mut i: usize = 0;
    while i < a.len()
        invariant
            i <= a.len(),
            out.len() == i,
            forall|k: int| 0 <= k < i ==> out[k] == a[k],
        decreases a.len() - i,
    {
        out.push(a[i].duplicate());
        i += 1;
    }
    assert(out@ =~= a@);
    out
}

} // verus!
