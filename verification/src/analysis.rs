//! Helpers for choosing LWE parameters and measuring keys: a trial-division
//! primality test, the search for a prime modulus in [n^2, 2n^2], and key sizes.
use crate::zq::Zq;
use crate::PubKeyTy;
use vstd::arithmetic::div_mod::*;
use vstd::arithmetic::mul::*;
use vstd::prelude::*;

verus! {

/// `v` is prime: at least 2, with no divisor in `2..v`.
pub open spec fn is_prime_spec(v: nat) -> bool {
    v >= 2 && forall|d: nat| 2 <= d < v ==> #[trigger] (v % d) != 0
}

/// An even number does not divide an odd one.
proof fn lemma_even_divisor(v: int, d: int)
    requires
        v >= 0,
        d > 0,
        d % 2 == 0,
        v % d == 0,
    ensures
        v % 2 == 0,
{
    lemma_fundamental_div_mod(d, 2);
    lemma_mod_mod(v, 2, d / 2);
}

/// If `v` has no divisor below `i` and `i * i > v`, it has no divisor in `i..v` either.
proof fn lemma_no_large_divisor(v: nat, i: nat)
    requires
        v >= 2,
        i >= 2,
        i * i > v,
        forall|d: nat| 2 <= d < i ==> #[trigger] (v % d) != 0,
    ensures
        forall|d: nat| 2 <= d < v ==> #[trigger] (v % d) != 0,
{
    assert forall|d: nat| 2 <= d < v implies #[trigger] (v % d) != 0 by {
        if d >= i && v % d == 0 {
            let e = v / d;
            lemma_fundamental_div_mod(v as int, d as int);
            assert(v == d * e);
            if e <= 1 {
                lemma_mul_inequality(e as int, 1, d as int);
                lemma_mul_is_commutative(d as int, e as int);
            }
            if e >= i {
                lemma_mul_inequality(i as int, d as int, i as int);
                lemma_mul_inequality(i as int, e as int, d as int);
                lemma_mul_is_commutative(i as int, d as int);
                lemma_mul_is_commutative(e as int, d as int);
            }
            lemma_mul_is_commutative(d as int, e as int);
            lemma_mod_multiples_basic(d as int, e as int);
            assert(v % e == 0);
        }
    }
}

/// Trial-division primality test (divisors up to the square root).
pub fn is_prime(v: u64) -> (r: bool)
    ensures
        r == is_prime_spec(v as nat),
{
    if v < 2 {
        return false;
    }
    if v % 2 == 0 {
        proof {
            if v > 2 {
                assert((v as nat) % 2 == 0);
            }
        }
        return v == 2;
    }
    let mut i: u64 = 3;
    while i <= v / i
        invariant
            3 <= i,
            i % 2 == 1,
            v % 2 == 1,
            v >= 3,
            forall|d: nat| 2 <= d < i ==> #[trigger] ((v as nat) % d) != 0,
        decreases v - i,
    {
        proof {
            lemma_fundamental_div_mod(v as int, i as int);
            lemma_mul_inequality(i as int, (v / i) as int, i as int);
            lemma_mul_is_commutative(i as int, (v / i) as int);
            assert(i * i <= v);
            lemma_mul_inequality(3, i as int, i as int);
        }
        if v % i == 0 {
            return false;
        }
        proof {
            assert forall|d: nat| 2 <= d < i + 2 implies #[trigger] ((v as nat) % d) != 0 by {
                if d == i + 1 && (v as nat) % d == 0 {
                    lemma_even_divisor(v as int, d as int);
                }
            }
        }
        i = i + 2;
    }
    proof {
        lemma_fundamental_div_mod(v as int, i as int);
        assert(i * i > v) by (nonlinear_arith)
            requires
                v == i * (v / i) + v % i,
                v % i < i,
                v / i < i,
                i > 0,
        ;
        lemma_no_large_divisor(v as nat, i as nat);
    }
    true
}

/// The smallest prime in `[max(n^2, 2), 2 n^2]`, or `None` when that range holds no prime.
pub fn find_prime_in_range(n: usize) -> (r: Option<u64>)
    requires
        2 * n * n <= u64::MAX,
    ensures
        ({
            let lower = if n * n >= 2 { n * n } else { 2 };
            &&& r is None <==> forall|p: nat| lower <= p <= 2 * n * n ==> !#[trigger] is_prime_spec(p)
            &&& r matches Some(p) ==> {
                &&& lower <= p <= 2 * n * n
                &&& is_prime_spec(p as nat)
                &&& forall|p2: nat| lower <= p2 < p ==> !#[trigger] is_prime_spec(p2)
            }
        }),
{
    proof {
        assert(n * n <= u64::MAX && 2 * (n * n) == 2 * n * n) by (nonlinear_arith)
            requires
                2 * n * n <= u64::MAX,
        ;
    }
    let lower = (n as u64) * (n as u64);
    let upper = 2 * lower;
    let mut candidate = if lower >= 2 {
        lower
    } else {
        2
    };
    let ghost start = candidate;
    while candidate <= upper
        invariant
            lower == n * n,
            upper == 2 * n * n,
            upper == 2 * lower,
            upper <= u64::MAX,
            start == if n * n >= 2 { n * n } else { 2 },
            start <= candidate,
            candidate <= upper + 1 || candidate == start,
            forall|p: nat| start <= p < candidate ==> !#[trigger] is_prime_spec(p),
        decreases upper + 1 - candidate,
    {
        if is_prime(candidate) {
            return Some(candidate);
        }
        candidate = candidate + 1;
    }
    None
}

/// The bytes that a public key's elements of Z_q take: `(len + 1) * size_of::<Zq<u64>>()`
/// summed over its first `k` rows.
pub open spec fn pub_key_size(pk: Seq<(Vec<Zq<u64>>, Zq<u64>)>, k: int) -> int
    decreases k,
{
    if k <= 0 {
        0
    } else {
        pub_key_size(pk, k - 1) + pk[k - 1].0.len() * vstd::layout::size_of::<Zq<u64>>()
            + vstd::layout::size_of::<Zq<u64>>()
    }
}

proof fn lemma_pub_key_size_grows(pk: Seq<(Vec<Zq<u64>>, Zq<u64>)>, k: int, l: int)
    requires
        0 <= k <= l,
    ensures
        pub_key_size(pk, k) <= pub_key_size(pk, l),
    decreases l,
{
    if k < l {
        lemma_pub_key_size_grows(pk, k, l - 1);
        lemma_mul_nonnegative(pk[l - 1].0.len() as int, vstd::layout::size_of::<Zq<u64>>() as int);
    }
}

/// Every row of the public key holds a vector of `n` elements.
pub open spec fn rows_of_len(pk: Seq<(Vec<Zq<u64>>, Zq<u64>)>, n: nat) -> bool {
    forall|i: int| 0 <= i < pk.len() ==> (#[trigger] pk[i]).0.len() == n
}

/// The first `k` rows of a key whose rows all hold `n` elements take `k * (n + 1)` elements.
proof fn lemma_pub_key_size_uniform(pk: Seq<(Vec<Zq<u64>>, Zq<u64>)>, n: nat, k: int)
    requires
        rows_of_len(pk, n),
        0 <= k <= pk.len(),
    ensures
        pub_key_size(pk, k) == k * (n + 1) * vstd::layout::size_of::<Zq<u64>>(),
    decreases k,
{
    if k > 0 {
        lemma_pub_key_size_uniform(pk, n, k - 1);
        assert(pk[k - 1].0.len() == n);
        let s = vstd::layout::size_of::<Zq<u64>>() as int;
        assert((k - 1) * (n + 1) * s + n * s + s == k * (n + 1) * s) by (nonlinear_arith);
    } else {
        let s = vstd::layout::size_of::<Zq<u64>>() as int;
        assert(k * (n + 1) * s == 0) by (nonlinear_arith)
            requires
                k == 0,
        ;
    }
}

/// The size of the first `k` rows does not depend on the rows after them.
proof fn lemma_pub_key_size_prefix(pk: Seq<(Vec<Zq<u64>>, Zq<u64>)>, other: Seq<(Vec<Zq<u64>>, Zq<u64>)>, k: int)
    requires
        0 <= k <= pk.len(),
        k <= other.len(),
        forall|i: int| 0 <= i < k ==> pk[i] == other[i],
    ensures
        pub_key_size(pk, k) == pub_key_size(other, k),
    decreases k,
{
    if k > 0 {
        lemma_pub_key_size_prefix(pk, other, k - 1);
    }
}

/// Each row of a public key adds the bytes of its own vector and of its value to the size:
/// appending a row `(a, b)` to a key adds `(a.len() + 1) * size_of::<Zq<u64>>()`, whatever the
/// number of rows; the empty key takes no bytes.
pub proof fn law_pub_key_size_per_row(pk: Seq<(Vec<Zq<u64>>, Zq<u64>)>, row: (Vec<Zq<u64>>, Zq<u64>))
    ensures
        pub_key_size(Seq::empty(), 0) == 0,
        pub_key_size(pk.push(row), pk.len() + 1int) == pub_key_size(pk, pk.len() as int) + (row.0.len()
            + 1) * vstd::layout::size_of::<Zq<u64>>(),
{
    lemma_pub_key_size_prefix(pk, pk.push(row), pk.len() as int);
    assert(pk.push(row)[pk.len() as int] == row);
    let s = vstd::layout::size_of::<Zq<u64>>() as int;
    assert(row.0.len() * s + s == (row.0.len() + 1) * s) by (nonlinear_arith);
}

/// A public key of `m` rows that each hold `n` elements takes `m * (n + 1) * size_of::<Zq<u64>>()`
/// bytes.
pub proof fn law_pub_key_size_uniform(pk: Seq<(Vec<Zq<u64>>, Zq<u64>)>, n: nat)
    requires
        rows_of_len(pk, n),
    ensures
        pub_key_size(pk, pk.len() as int) == pk.len() * (n + 1) * vstd::layout::size_of::<Zq<u64>>(),
{
    lemma_pub_key_size_uniform(pk, n, pk.len() as int);
}

/// The bytes that the elements of Z_q of a public key take: each row counts its own vector and
/// its value, so a key of `m` rows of `n` elements takes `m * (n + 1) * size_of::<Zq<u64>>()`.
pub fn pub_key_bytes(pub_key: &PubKeyTy) -> (r: usize)
    requires
        pub_key_size(pub_key@, pub_key.len() as int) <= usize::MAX,
    ensures
        r == pub_key_size(pub_key@, pub_key.len() as int),
        forall|n: nat|
            #[trigger] rows_of_len(pub_key@, n) ==> r == pub_key.len() * (n + 1)
                * vstd::layout::size_of::<Zq<u64>>(),
{
    let s = core::mem::size_of::<Zq<u64>>();
    let mut total: usize = 0;
    let n = pub_key.len();
    for i in 0..n
        invariant
            n == pub_key.len(),
            s == vstd::layout::size_of::<Zq<u64>>(),
            pub_key_size(pub_key@, n as int) <= usize::MAX,
            total == pub_key_size(pub_key@, i as int),
    {
        proof {
            lemma_pub_key_size_grows(pub_key@, i + 1, n as int);
            lemma_mul_nonnegative(pub_key@[i as int].0.len() as int, s as int);
        }
        let row_len = pub_key[i].0.len();
        total = total + (row_len * s + s);
    }
    proof {
        assert forall|w: nat| #[trigger] rows_of_len(pub_key@, w) implies total == pub_key.len() * (w
            + 1) * vstd::layout::size_of::<Zq<u64>>() by {
            lemma_pub_key_size_uniform(pub_key@, w, pub_key.len() as int);
        }
    }
    total
}

/// The bytes that the elements of Z_q of a private key take.
pub fn priv_key_bytes(priv_key: &Vec<Zq<u64>>) -> (r: usize)
    requires
        priv_key.len() * vstd::layout::size_of::<Zq<u64>>() <= usize::MAX,
    ensures
        r == priv_key.len() * vstd::layout::size_of::<Zq<u64>>(),
{
    priv_key.len() * core::mem::size_of::<Zq<u64>>()
}

} // verus!
