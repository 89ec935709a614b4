//! Surreal numbers: a value is a pair of arrays of surreal numbers, its left
//! and right options. Order and arithmetic are defined by recursion over the
//! options.

use vstd::prelude::*;

verus! {

/// A surreal number form `{ lhs | rhs }`.
pub struct Sur {
    pub lhs: Vec<Sur>,
    pub rhs: Vec<Sur>,
}

/// A surreal number form as a mathematical value.
pub struct Form {
    pub left: Seq<Form>,
    pub right: Seq<Form>,
}

/// The forms of the first `k` of `s`.
pub open spec fn forms(s: Seq<Sur>, k: nat) -> Seq<Form>
    decreases s, k,
{
    if k == 0 || k > s.len() {
        Seq::empty()
    } else {
        forms(s, (k - 1) as nat).push(form(s[k - 1]))
    }
}

/// The form of `x`.
pub open spec fn form(x: Sur) -> Form
    decreases x, 0nat,
{
    Form { left: forms(x.lhs@, x.lhs@.len()), right: forms(x.rhs@, x.rhs@.len()) }
}

impl View for Sur {
    type V = Form;

    open spec fn view(&self) -> Form {
        form(*self)
    }
}

/// The forms of a list are the forms of its entries, in order.
pub proof fn lemma_forms(s: Seq<Sur>, k: nat)
    requires
        k <= s.len(),
    ensures
        forms(s, k).len() == k,
        forall|i: int| 0 <= i < k ==> (#[trigger] forms(s, k)[i]) == form(s[i]),
    decreases k,
{
    if k > 0 {
        lemma_forms(s, (k - 1) as nat);
    }
}

/// The number of forms in `f`, itself included.
pub open spec fn size(f: Form) -> nat
    decreases f, 0nat,
{
    1 + size_all(f.left, f.left.len()) + size_all(f.right, f.right.len())
}

/// The number of forms in the first `k` of `fs`.
pub open spec fn size_all(fs: Seq<Form>, k: nat) -> nat
    decreases fs, k,
{
    if k == 0 || k > fs.len() {
        0
    } else {
        size_all(fs, (k - 1) as nat) + size(fs[k - 1])
    }
}

proof fn lemma_size_entry(fs: Seq<Form>, k: nat, i: int)
    requires
        0 <= i < k <= fs.len(),
    ensures
        size(fs[i]) <= size_all(fs, k),
    decreases k,
{
    if i < k - 1 {
        lemma_size_entry(fs, (k - 1) as nat, i);
    }
}

/// A left option is smaller than the form that has it.
pub proof fn lemma_size_left(f: Form, i: int)
    requires
        0 <= i < f.left.len(),
    ensures
        size(f.left[i]) < size(f),
{
    lemma_size_entry(f.left, f.left.len(), i);
}

/// A right option is smaller than the form that has it.
pub proof fn lemma_size_right(f: Form, i: int)
    requires
        0 <= i < f.right.len(),
    ensures
        size(f.right[i]) < size(f),
{
    lemma_size_entry(f.right, f.right.len(), i);
}

/// The options of a value are the options of its form.
pub proof fn lemma_options(x: Sur)
    ensures
        x@.left.len() == x.lhs@.len(),
        x@.right.len() == x.rhs@.len(),
        forall|i: int| 0 <= i < x.lhs@.len() ==> (#[trigger] x@.left[i]) == x.lhs@[i]@,
        forall|i: int| 0 <= i < x.rhs@.len() ==> (#[trigger] x@.right[i]) == x.rhs@[i]@,
{
    lemma_forms(x.lhs@, x.lhs@.len());
    lemma_forms(x.rhs@, x.rhs@.len());
}

/// The negations of the first `k` of `fs`.
pub open spec fn negate_all(fs: Seq<Form>, k: nat) -> Seq<Form>
    decreases fs, k,
{
    if k == 0 || k > fs.len() {
        Seq::empty()
    } else {
        negate_all(fs, (k - 1) as nat).push(negate(fs[k - 1]))
    }
}

/// `-f`: the negated right options on the left, the negated left options on
/// the right.
pub open spec fn negate(f: Form) -> Form
    decreases f, 0nat,
{
    Form { left: negate_all(f.right, f.right.len()), right: negate_all(f.left, f.left.len()) }
}

/// Whether none of the first `k` left options of `a` is at least `b`.
pub open spec fn left_below(a: Form, b: Form, k: nat) -> bool
    decreases size(a) + size(b), 0nat, k,
{
    if k == 0 || k > a.left.len() {
        true
    } else {
        proof {
            lemma_size_left(a, k - 1);
        }
        left_below(a, b, (k - 1) as nat) && !at_most(b, a.left[k - 1])
    }
}

/// Whether none of the first `k` right options of `b` is at most `a`.
pub open spec fn right_above(a: Form, b: Form, k: nat) -> bool
    decreases size(a) + size(b), 0nat, k,
{
    if k == 0 || k > b.right.len() {
        true
    } else {
        proof {
            lemma_size_right(b, k - 1);
        }
        right_above(a, b, (k - 1) as nat) && !at_most(b.right[k - 1], a)
    }
}

/// `a <= b`: no left option of `a` is at least `b`, and no right option of
/// `b` is at most `a`.
pub open spec fn at_most(a: Form, b: Form) -> bool
    decreases size(a) + size(b), 1nat, 0nat,
{
    left_below(a, b, a.left.len()) && right_above(a, b, b.right.len())
}

/// The sums of the first `k` left options of `a` with `b`.
pub open spec fn left_sums(a: Form, b: Form, k: nat) -> Seq<Form>
    decreases size(a) + size(b), 0nat, k,
{
    if k == 0 || k > a.left.len() {
        Seq::empty()
    } else {
        proof {
            lemma_size_left(a, k - 1);
        }
        left_sums(a, b, (k - 1) as nat).push(sum(a.left[k - 1], b))
    }
}

/// The sums of the first `k` right options of `a` with `b`.
pub open spec fn right_sums(a: Form, b: Form, k: nat) -> Seq<Form>
    decreases size(a) + size(b), 0nat, k,
{
    if k == 0 || k > a.right.len() {
        Seq::empty()
    } else {
        proof {
            lemma_size_right(a, k - 1);
        }
        right_sums(a, b, (k - 1) as nat).push(sum(a.right[k - 1], b))
    }
}

/// `a + b`: on each side, the options of `a` each added to `b`, followed by
/// the options of `b` each added to `a`.
pub open spec fn sum(a: Form, b: Form) -> Form
    decreases size(a) + size(b), 1nat, 0nat,
{
    Form {
        left: left_sums(a, b, a.left.len()) + left_sums(b, a, b.left.len()),
        right: right_sums(a, b, a.right.len()) + right_sums(b, a, b.right.len()),
    }
}

/// A list's forms do not change when the list grows at its end.
proof fn lemma_forms_push(s: Seq<Sur>, x: Sur)
    ensures
        forms(s.push(x), s.len() + 1) == forms(s, s.len()).push(form(x)),
{
    lemma_forms(s, s.len());
    lemma_forms(s.push(x), s.len() + 1);
    assert(forms(s.push(x), s.len() + 1) =~= forms(s, s.len()).push(form(x)));
}

/// The value with the given options.
fn assemble(lhs: Vec<Sur>, rhs: Vec<Sur>) -> (r: Sur)
    ensures
        r@ == (Form { left: forms(lhs@, lhs@.len()), right: forms(rhs@, rhs@.len()) }),
{
    Sur { lhs, rhs }
}

/// The elements of `a` followed by those of `b`.
fn joined(a: Vec<Sur>, b: Vec<Sur>) -> (r: Vec<Sur>)
    ensures
        r@ == a@ + b@,
        forms(r@, r@.len()) == forms(a@, a@.len()) + forms(b@, b@.len()),
{
    let mut out = a;
    let mut rest = b;
    out.append(&mut rest);
    proof {
        lemma_forms(a@, a@.len());
        lemma_forms(b@, b@.len());
        lemma_forms(out@, out@.len());
        assert(forms(out@, out@.len()) =~= forms(a@, a@.len()) + forms(b@, b@.len()));
    }
    out
}

/// The form with the given left options and no right option.
#[allow(non_snake_case)]
pub fn Sur(x: Vec<Sur>) -> (r: Sur)
    ensures
        r.lhs@ == x@,
        r.rhs@.len() == 0,
        r@ == (Form { left: forms(x@, x@.len()), right: Seq::empty() }),
{
    Sur { lhs: x, rhs: Vec::new() }
}

/// Zero: the form with no option on either side.
#[allow(non_snake_case)]
pub fn S0() -> (r: Sur)
    ensures
        r.lhs@.len() == 0,
        r.rhs@.len() == 0,
        r@ == (Form { left: Seq::empty(), right: Seq::empty() }),
{
    Sur { lhs: Vec::new(), rhs: Vec::new() }
}

/// One: the form whose only option is zero, on the left.
#[allow(non_snake_case)]
pub fn S1() -> (r: Sur)
    ensures
        r@ == (Form {
            left: seq![Form { left: Seq::empty(), right: Seq::empty() }],
            right: Seq::empty(),
        }),
{
    let mut lhs: Vec<Sur> = Vec::new();
    let zero = S0();
    proof {
        lemma_forms_push(lhs@, zero);
    }
    lhs.push(zero);
    let r = Sur(lhs);
    assert(r@.left =~= seq![Form { left: Seq::empty(), right: Seq::empty() }]);
    r
}

impl Sur {
    /// `-self`
    pub fn neg(&self) -> (r: Sur)
        ensures
            r@ == negate(self@),
        decreases self,
    {
        proof {
            lemma_options(*self);
        }
        let mut left: Vec<Sur> = Vec::new();
        let mut i: usize = 0;
        while i < self.rhs.len()
            invariant
                i <= self.rhs@.len(),
                left@.len() == i,
                self@.right.len() == self.rhs@.len(),
                forall|k: int| 0 <= k < self.rhs@.len() ==> (#[trigger] self@.right[k]) == self.rhs@[k]@,
                forms(left@, i as nat) == negate_all(self@.right, i as nat),
            decreases self.rhs@.len() - i,
        {
            let item = self.rhs[i].neg();
            proof {
                lemma_forms_push(left@, item);
            }
            left.push(item);
            i += 1;
        }
        let mut right: Vec<Sur> = Vec::new();
        let mut j: usize = 0;
        while j < self.lhs.len()
            invariant
                j <= self.lhs@.len(),
                right@.len() == j,
                self@.left.len() == self.lhs@.len(),
                forall|k: int| 0 <= k < self.lhs@.len() ==> (#[trigger] self@.left[k]) == self.lhs@[k]@,
                forms(right@, j as nat) == negate_all(self@.left, j as nat),
            decreases self.lhs@.len() - j,
        {
            let item = self.lhs[j].neg();
            proof {
                lemma_forms_push(right@, item);
            }
            right.push(item);
            j += 1;
        }
        assemble(left, right)
    }

    /// `self <= other`
    pub fn le(&self, other: &Sur) -> (r: bool)
        ensures
            r == at_most(self@, other@),
        decreases size(self@) + size(other@),
    {
        proof {
            lemma_options(*self);
            lemma_options(*other);
        }
        let mut i: usize = 0;
        while i < self.lhs.len()
            invariant
                i <= self.lhs@.len(),
                self@.left.len() == self.lhs@.len(),
                forall|k: int| 0 <= k < self.lhs@.len() ==> (#[trigger] self@.left[k]) == self.lhs@[k]@,
                left_below(self@, other@, i as nat),
            decreases self.lhs@.len() - i,
        {
            proof {
                lemma_size_left(self@, i as int);
            }
            if other.le(&self.lhs[i]) {
                proof {
                    lemma_left_fails(self@, other@, (i + 1) as nat, self@.left.len());
                }
                return false;
            }
            i += 1;
        }
        let mut j: usize = 0;
        while j < other.rhs.len()
            invariant
                j <= other.rhs@.len(),
                other@.right.len() == other.rhs@.len(),
                forall|k: int|
                    0 <= k < other.rhs@.len() ==> (#[trigger] other@.right[k]) == other.rhs@[k]@,
                left_below(self@, other@, self@.left.len()),
                right_above(self@, other@, j as nat),
            decreases other.rhs@.len() - j,
        {
            proof {
                lemma_size_right(other@, j as int);
            }
            if other.rhs[j].le(self) {
                proof {
                    lemma_right_fails(self@, other@, (j + 1) as nat, other@.right.len());
                }
                return false;
            }
            j += 1;
        }
        true
    }

    /// `self < other`
    pub fn lt(&self, other: &Sur) -> (r: bool)
        ensures
            r == (at_most(self@, other@) && !at_most(other@, self@)),
    {
        let below = self.le(other);
        let above = other.le(self);
        below && !above
    }

    /// `self > other`
    pub fn gt(&self, other: &Sur) -> (r: bool)
        ensures
            r == (at_most(other@, self@) && !at_most(self@, other@)),
    {
        let above = other.le(self);
        let below = self.le(other);
        above && !below
    }

    /// `self >= other`
    pub fn ge(&self, other: &Sur) -> (r: bool)
        ensures
            r == at_most(other@, self@),
    {
        other.le(self)
    }

    /// `self == other`: each is at most the other. Forms that differ may be
    /// the same number.
    pub fn same_number(&self, other: &Sur) -> (r: bool)
        ensures
            r == (at_most(self@, other@) && at_most(other@, self@)),
    {
        let below = self.le(other);
        let above = other.le(self);
        below && above
    }

    /// `self != other`
    pub fn other_number(&self, other: &Sur) -> (r: bool)
        ensures
            r == !(at_most(self@, other@) && at_most(other@, self@)),
    {
        !self.same_number(other)
    }

    /// `self + other`
    pub fn plus(&self, other: &Sur) -> (r: Sur)
        ensures
            r@ == sum(self@, other@),
        decreases size(self@) + size(other@), 1nat,
    {
        let left_a = self.left_plus(other);
        let left_b = other.left_plus(self);
        let right_a = self.right_plus(other);
        let right_b = other.right_plus(self);
        assemble(joined(left_a, left_b), joined(right_a, right_b))
    }

    /// Each left option of `self` added to `other`.
    fn left_plus(&self, other: &Sur) -> (r: Vec<Sur>)
        ensures
            forms(r@, r@.len()) == left_sums(self@, other@, self@.left.len()),
        decreases size(self@) + size(other@), 0nat,
    {
        proof {
            lemma_options(*self);
        }
        let mut out: Vec<Sur> = Vec::new();
        let mut i: usize = 0;
        while i < self.lhs.len()
            invariant
                i <= self.lhs@.len(),
                out@.len() == i,
                self@.left.len() == self.lhs@.len(),
                forall|k: int| 0 <= k < self.lhs@.len() ==> (#[trigger] self@.left[k]) == self.lhs@[k]@,
                forms(out@, i as nat) == left_sums(self@, other@, i as nat),
            decreases self.lhs@.len() - i,
        {
            proof {
                lemma_size_left(self@, i as int);
            }
            let item = self.lhs[i].plus(other);
            proof {
                lemma_forms_push(out@, item);
            }
            out.push(item);
            i += 1;
        }
        out
    }

    /// Each right option of `self` added to `other`.
    fn right_plus(&self, other: &Sur) -> (r: Vec<Sur>)
        ensures
            forms(r@, r@.len()) == right_sums(self@, other@, self@.right.len()),
        decreases size(self@) + size(other@), 0nat,
    {
        proof {
            lemma_options(*self);
        }
        let mut out: Vec<Sur> = Vec::new();
        let mut i: usize = 0;
        while i < self.rhs.len()
            invariant
                i <= self.rhs@.len(),
                out@.len() == i,
                self@.right.len() == self.rhs@.len(),
                forall|k: int| 0 <= k < self.rhs@.len() ==> (#[trigger] self@.right[k]) == self.rhs@[k]@,
                forms(out@, i as nat) == right_sums(self@, other@, i as nat),
            decreases self.rhs@.len() - i,
        {
            proof {
                lemma_size_right(self@, i as int);
            }
            let item = self.rhs[i].plus(other);
            proof {
                lemma_forms_push(out@, item);
            }
            out.push(item);
            i += 1;
        }
        out
    }

    /// `self - other`, that is `self + -other`.
    pub fn minus(&self, other: &Sur) -> (r: Sur)
        ensures
            r@ == sum(self@, negate(other@)),
    {
        let negated = other.neg();
        self.plus(&negated)
    }
}

proof fn lemma_left_fails(a: Form, b: Form, k: nat, n: nat)
    requires
        k <= n <= a.left.len(),
        !left_below(a, b, k),
    ensures
        !left_below(a, b, n),
    decreases n - k,
{
    if k < n {
        lemma_left_fails(a, b, k, (n - 1) as nat);
    }
}

proof fn lemma_right_fails(a: Form, b: Form, k: nat, n: nat)
    requires
        k <= n <= b.right.len(),
        !right_above(a, b, k),
    ensures
        !right_above(a, b, n),
    decreases n - k,
{
    if k < n {
        lemma_right_fails(a, b, k, (n - 1) as nat);
    }
}

} // verus!
