//! What a contract can say of a function that is passed in as a value.

use vstd::prelude::*;

verus! {

/// `f` may be called on every item.
pub open spec fn total<F: Fn(&A) -> B, A, B>(f: F) -> bool {
    forall|x: A| #[trigger] call_requires(f, (&x,))
}

/// `f` computes `g`: whatever a call of `f` on an item `x` returns is `g(x)`.
pub open spec fn computes<F: Fn(&A) -> B, A, B>(f: F, g: spec_fn(A) -> B) -> bool {
    forall|x: A, out: B| #[trigger] call_ensures(f, (&x,), out) ==> out == g(x)
}

/// `f` may be called on every pair of items.
pub open spec fn total2<F: Fn(&A, &A) -> B, A, B>(f: F) -> bool {
    forall|x: A, y: A| #[trigger] call_requires(f, (&x, &y))
}

/// `f` computes `g`: whatever a call of `f` on `x` and `y` returns is `g(x, y)`.
pub open spec fn computes2<F: Fn(&A, &A) -> B, A, B>(f: F, g: spec_fn(A, A) -> B) -> bool {
    forall|x: A, y: A, out: B| #[trigger] call_ensures(f, (&x, &y), out) ==> out == g(x, y)
}

} // verus!
