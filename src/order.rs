//! Total orders stated over models, and the lexicographic order they induce
//! on sequences.
use std::cmp::Ordering;
use vstd::prelude::*;

verus! {

/// The `Ordering` that a three-way comparison result stands for.
pub open spec fn ordering_of(c: int) -> Ordering {
    if c < 0 {
        Ordering::Less
    } else if c == 0 {
        Ordering::Equal
    } else {
        Ordering::Greater
    }
}

/// `cmp` is a three-way comparison that orders all values of `A` totally.
pub open spec fn is_total_order<A>(cmp: spec_fn(A, A) -> int) -> bool {
    &&& forall|a: A, b: A| -1 <= #[trigger] cmp(a, b) <= 1
    &&& forall|a: A, b: A| (#[trigger] cmp(a, b) == 0) == (a == b)
    &&& forall|a: A, b: A| #[trigger] cmp(a, b) == -cmp(b, a)
    &&& forall|a: A, b: A, c: A| #[trigger] cmp(a, b) < 0 && #[trigger] cmp(b, c) < 0 ==> cmp(a, c) < 0
}

/// Values with a decidable total order, stated over their models.
pub trait Canonical: Sized + View {
    /// Three-way comparison of two models: -1, 0 or 1.
    spec fn order(a: Self::V, b: Self::V) -> int;

    proof fn lemma_order(a: Self::V, b: Self::V, c: Self::V)
        ensures
            -1 <= Self::order(a, b) <= 1,
            (Self::order(a, b) == 0) == (a == b),
            Self::order(a, b) == -Self::order(b, a),
            Self::order(a, b) < 0 && Self::order(b, c) < 0 ==> Self::order(a, c) < 0,
    ;

    fn compare(&self, other: &Self) -> (r: Ordering)
        ensures
            r == ordering_of(Self::order(self@, other@)),
    ;
}

/// The order of a `Canonical` type as a spec closure.
pub open spec fn order_fn<T: Canonical>() -> spec_fn(T::V, T::V) -> int {
    |a: T::V, b: T::V| T::order(a, b)
}

pub proof fn lemma_order_fn<T: Canonical>()
    ensures
        is_total_order(order_fn::<T>()),
{
    assert forall|a: T::V, b: T::V| -1 <= #[trigger] order_fn::<T>()(a, b) <= 1 by {
        T::lemma_order(a, b, a);
    }
    assert forall|a: T::V, b: T::V| (#[trigger] order_fn::<T>()(a, b) == 0) == (a == b) by {
        T::lemma_order(a, b, a);
    }
    assert forall|a: T::V, b: T::V| #[trigger] order_fn::<T>()(a, b) == -order_fn::<T>()(b, a) by {
        T::lemma_order(a, b, a);
    }
    assert forall|a: T::V, b: T::V, c: T::V|
        #[trigger] order_fn::<T>()(a, b) < 0 && #[trigger] order_fn::<T>()(b, c) < 0 implies order_fn::<
        T,
    >()(a, c) < 0 by {
        T::lemma_order(a, b, c);
    }
}

/// Lexicographic comparison of `x` and `y` from position `i` on: the first
/// position where they differ decides, and a proper prefix comes first.
pub open spec fn lex_from<A>(x: Seq<A>, y: Seq<A>, i: int, cmp: spec_fn(A, A) -> int) -> int
    decreases x.len() - i,
{
    if i < 0 || i >= x.len() || i >= y.len() {
        if x.len() == y.len() {
            0
        } else if x.len() < y.len() {
            -1
        } else {
            1
        }
    } else if cmp(x[i], y[i]) != 0 {
        cmp(x[i], y[i])
    } else {
        lex_from(x, y, i + 1, cmp)
    }
}

pub open spec fn lex_cmp<A>(x: Seq<A>, y: Seq<A>, cmp: spec_fn(A, A) -> int) -> int {
    lex_from(x, y, 0, cmp)
}

pub open spec fn same_from<A>(x: Seq<A>, y: Seq<A>, i: int) -> bool {
    x.len() == y.len() && forall|j: int| i <= j < x.len() ==> x[j] == y[j]
}

proof fn lemma_lex_from<A>(x: Seq<A>, y: Seq<A>, z: Seq<A>, i: int, cmp: spec_fn(A, A) -> int)
    requires
        is_total_order(cmp),
        0 <= i,
    ensures
        -1 <= lex_from(x, y, i, cmp) <= 1,
        (lex_from(x, y, i, cmp) == 0) == same_from(x, y, i),
        lex_from(x, y, i, cmp) == -lex_from(y, x, i, cmp),
        lex_from(x, y, i, cmp) < 0 && lex_from(y, z, i, cmp) < 0 ==> lex_from(x, z, i, cmp) < 0,
    decreases x.len() - i,
{
    if i < x.len() && i < y.len() {
        lemma_lex_from(x, y, z, i + 1, cmp);
        if cmp(x[i], y[i]) == 0 {
            assert(x[i] == y[i]);
        }
        if i < z.len() {
            let (a, b, c) = (x[i], y[i], z[i]);
            assert(cmp(a, b) < 0 && cmp(b, c) < 0 ==> cmp(a, c) < 0);
            assert(cmp(a, b) == 0 ==> a == b);
            assert(cmp(b, c) == 0 ==> b == c);
        }
        if !same_from(x, y, i + 1) && same_from(x, y, i) {
            assert(false) by {
                assert forall|j: int| i + 1 <= j < x.len() implies x[j] == y[j] by {}
            }
        }
    }
}

/// Lexicographic order under a total order is a total order.
pub proof fn lemma_lex<A>(cmp: spec_fn(A, A) -> int)
    requires
        is_total_order(cmp),
    ensures
        is_total_order(|x: Seq<A>, y: Seq<A>| lex_cmp(x, y, cmp)),
{
    let f = |x: Seq<A>, y: Seq<A>| lex_cmp(x, y, cmp);
    assert forall|x: Seq<A>, y: Seq<A>| -1 <= #[trigger] f(x, y) <= 1 by {
        lemma_lex_from(x, y, x, 0, cmp);
    }
    assert forall|x: Seq<A>, y: Seq<A>| (#[trigger] f(x, y) == 0) == (x == y) by {
        lemma_lex_from(x, y, x, 0, cmp);
        if same_from(x, y, 0) {
            assert(x =~= y);
        }
    }
    assert forall|x: Seq<A>, y: Seq<A>| #[trigger] f(x, y) == -f(y, x) by {
        lemma_lex_from(x, y, x, 0, cmp);
    }
    assert forall|x: Seq<A>, y: Seq<A>, z: Seq<A>|
        #[trigger] f(x, y) < 0 && #[trigger] f(y, z) < 0 implies f(x, z) < 0 by {
        lemma_lex_from(x, y, z, 0, cmp);
    }
}

/// Comparison of characters by scalar value.
pub open spec fn char_order(a: char, b: char) -> int {
    if (a as int) < (b as int) {
        -1
    } else if a == b {
        0
    } else {
        1
    }
}

pub open spec fn int_order(a: int, b: int) -> int {
    if a < b {
        -1
    } else if a == b {
        0
    } else {
        1
    }
}

impl Canonical for char {
    open spec fn order(a: char, b: char) -> int {
        char_order(a, b)
    }

    proof fn lemma_order(a: char, b: char, c: char) {
    }

    fn compare(&self, other: &char) -> (r: Ordering) {
        if *self < *other {
            Ordering::Less
        } else if *self == *other {
            Ordering::Equal
        } else {
            Ordering::Greater
        }
    }
}

impl Canonical for i32 {
    open spec fn order(a: i32, b: i32) -> int {
        int_order(a as int, b as int)
    }

    proof fn lemma_order(a: i32, b: i32, c: i32) {
    }

    fn compare(&self, other: &i32) -> (r: Ordering) {
        if *self < *other {
            Ordering::Less
        } else if *self == *other {
            Ordering::Equal
        } else {
            Ordering::Greater
        }
    }
}

} // verus!
