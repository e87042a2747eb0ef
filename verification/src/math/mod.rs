//! Arithmetic helpers and pairs of items of a slice.

pub mod pairs;

pub use pairs::twos_perm_non_sym;
pub use pairs::twos_perm_sym;

use vstd::arithmetic::power::lemma_pow_increases;
use vstd::arithmetic::power::pow;
use vstd::prelude::*;
use vstd::std_specs::cmp::PartialOrdIs;
use vstd::std_specs::cmp::PartialOrdSpec;
use vstd::std_specs::ops::SubSpec;

verus! {

/// The difference between `a` and `b`: the smaller taken from the greater.
///
/// The one subtraction that is made has to be allowed. For the unsigned
/// integers it always is.
pub fn diff<T: core::ops::Sub<Output = T> + PartialOrd>(a: T, b: T) -> (r: T)
    requires
        T::obeys_partial_cmp_spec() ==> if a.is_gt(&b) {
            a.sub_req(b)
        } else {
            b.sub_req(a)
        },
        !T::obeys_partial_cmp_spec() ==> a.sub_req(b) && b.sub_req(a),
    ensures
        T::obeys_partial_cmp_spec() && T::obeys_sub_spec() ==> r == if a.is_gt(&b) {
            a.sub_spec(b)
        } else {
            b.sub_spec(a)
        },
{
    if a > b {
        a - b
    } else {
        b - a
    }
}

/// `base` to the power `exponent`, taken modulo `modulo`. The base is
/// reduced first; the power of the reduced base has to fit the machine
/// word.
pub fn pow_mod(base: usize, exponent: u32, modulo: usize) -> (r: usize)
    requires
        modulo > 0,
        pow((base % modulo) as int, exponent as nat) <= usize::MAX,
    ensures
        r == pow((base % modulo) as int, exponent as nat) % (modulo as int),
        r == pow(base as int, exponent as nat) % (modulo as int),
        r < modulo,
{
    let b = base % modulo;
    let mut acc: usize = 1;
    let mut i: u32 = 0;
    proof {
        vstd::arithmetic::power::lemma_pow0(b as int);
    }
    while i < exponent
        invariant
            i <= exponent,
            b == base % modulo,
            acc == pow(b as int, i as nat),
            pow(b as int, exponent as nat) <= usize::MAX,
        decreases exponent - i,
    {
        proof {
            let next = (i + 1) as nat;
            assert(pow(b as int, next) == b * pow(b as int, i as nat)) by {
                vstd::arithmetic::power::lemma_pow_adds(b as int, 1, i as nat);
                vstd::arithmetic::power::lemma_pow1(b as int);
            }
            if b > 0 {
                lemma_pow_increases(b as nat, next, exponent as nat);
            } else {
                assert(b * pow(b as int, i as nat) == 0) by (nonlinear_arith)
                    requires
                        b == 0,
                ;
            }
        }
        acc = acc * b;
        i += 1;
    }
    proof {
        vstd::arithmetic::power::lemma_pow_mod_noop(base as int, exponent as nat, modulo as int);
    }
    acc % modulo
}

} // verus!
