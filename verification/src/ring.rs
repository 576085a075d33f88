//! R_q = Z_q[x]/(x^n+1): the polynomial ring that Ring-LWE works over.
//!
//! An element holds `n` coefficients, each a `Zq<T>`; `coeffs[i]` is the
//! coefficient of x^i. Multiplication is negacyclic convolution: x^n = -1.
use crate::zq::{all_modulus, list_debug_text, zero_mod, zero_vec, zq_list_text, Zq, ZqLimb};
use vstd::arithmetic::div_mod::*;
use vstd::prelude::*;
use vstd::string::*;

verus! {

/// An element of R_q = Z_q[x]/(x^n+1); `coeffs[i]` is the coefficient of x^i.
#[verifier::reject_recursive_types(T)]
#[derive(Clone, Debug, PartialEq, Eq)]
pub struct Rq<T: ZqLimb> {
    pub coeffs: Vec<Zq<T>>,
}

/// The contribution of the product of coefficients `i` of `a` and `j` of `b`
/// to coefficient `k` of the product in Z[x]/(x^n+1), as an integer.
pub open spec fn nc_term<T: ZqLimb>(a: Seq<Zq<T>>, b: Seq<Zq<T>>, i: int, j: int, k: int) -> int {
    let n = a.len() as int;
    if i + j == k {
        (a[i].val_nat() * b[j].val_nat()) as int
    } else if i + j == k + n {
        -(a[i].val_nat() * b[j].val_nat())
    } else {
        0
    }
}

/// Sum of `nc_term(a, b, i, j, k)` over `j` in `0..jn`.
pub open spec fn nc_row<T: ZqLimb>(a: Seq<Zq<T>>, b: Seq<Zq<T>>, i: int, jn: int, k: int) -> int
    decreases jn,
{
    if jn <= 0 {
        0
    } else {
        nc_row(a, b, i, jn - 1, k) + nc_term(a, b, i, jn - 1, k)
    }
}

/// Sum of `nc_row(a, b, i, n, k)` over `i` in `0..im`.
pub open spec fn nc_rows<T: ZqLimb>(a: Seq<Zq<T>>, b: Seq<Zq<T>>, im: int, k: int) -> int
    decreases im,
{
    if im <= 0 {
        0
    } else {
        nc_rows(a, b, im - 1, k) + nc_row(a, b, im - 1, a.len() as int, k)
    }
}

/// Coefficient `k` of the product of `a` and `b` in Z[x]/(x^n+1), before reduction modulo q:
/// the sum of a_i * b_j over i + j == k, minus the sum over i + j == k + n.
pub open spec fn negacyclic_coeff<T: ZqLimb>(a: Seq<Zq<T>>, b: Seq<Zq<T>>, k: int) -> int {
    nc_rows(a, b, a.len() as int, k)
}

impl<T: ZqLimb> Rq<T> {
    /// Every coefficient has modulus `q`.
    pub open spec fn has_modulus(self, q: T) -> bool {
        all_modulus(self.coeffs@, q)
    }

    /// The zero element with `n` coefficients, modulo `q`.
    pub fn zero(n: usize, q: T) -> (r: Self)
        requires
            q.limb_nat() > 0,
        ensures
            r.coeffs.len() == n,
            r.has_modulus(q),
            forall|i: int| 0 <= i < n ==> (#[trigger] r.coeffs[i]).val_nat() == 0,
    {
        Rq { coeffs: zero_vec(n, q) }
    }

    /// The element as text: `"Rq { coeffs: [...] }"`, each coefficient as
    /// `"{residue} (mod {modulus})"`.
    pub fn debug_text(&self) -> (r: String)
        ensures
            r@ == "Rq { coeffs: "@ + zq_list_text(self.coeffs@) + " }"@,
    {
        let mut s = String::from_str("Rq { coeffs: ");
        let t = list_debug_text(self.coeffs.as_slice());
        s.append(t.as_str());
        s.append(" }");
        s
    }

    /// The degree bound n: the number of coefficients.
    pub fn n(&self) -> (r: usize)
        ensures
            r == self.coeffs.len(),
    {
        self.coeffs.len()
    }

    /// The modulus q, read from the first coefficient.
    pub fn modulus(&self) -> (r: T)
        requires
            self.coeffs.len() > 0,
        ensures
            r == self.coeffs[0].spec_modulus(),
            r.limb_nat() > 0,
    {
        self.coeffs[0].modulus()
    }

    /// Coefficient-wise sum.
    pub fn add(&self, rhs: &Self) -> (r: Self)
        requires
            self.coeffs.len() > 0,
            self.coeffs.len() == rhs.coeffs.len(),
            forall|i: int|
                0 <= i < self.coeffs.len() ==> (#[trigger] rhs.coeffs[i]).spec_modulus()
                    == self.coeffs[i].spec_modulus(),
        ensures
            r.coeffs.len() == self.coeffs.len(),
            forall|i: int|
                0 <= i < self.coeffs.len() ==> (#[trigger] r.coeffs[i]).spec_modulus()
                    == self.coeffs[i].spec_modulus() && r.coeffs[i].val_nat() == (
                self.coeffs[i].val_nat() + rhs.coeffs[i].val_nat()) % self.coeffs[i].q_nat(),
    {
        let n = self.coeffs.len();
        let mut coeffs: Vec<Zq<T>> = Vec::new();
        for i in 0..n
            invariant
                n == self.coeffs.len(),
                n == rhs.coeffs.len(),
                forall|j: int|
                    0 <= j < n ==> (#[trigger] rhs.coeffs[j]).spec_modulus()
                        == self.coeffs[j].spec_modulus(),
                coeffs.len() == i,
                forall|j: int|
                    0 <= j < i ==> (#[trigger] coeffs[j]).spec_modulus()
                        == self.coeffs[j].spec_modulus() && coeffs[j].val_nat() == (
                    self.coeffs[j].val_nat() + rhs.coeffs[j].val_nat()) % self.coeffs[j].q_nat(),
        {
            let a = self.coeffs[i];
            let b = rhs.coeffs[i];
            coeffs.push(a + b);
        }
        Rq { coeffs }
    }

    /// Coefficient-wise difference.
    pub fn sub(&self, rhs: &Self) -> (r: Self)
        requires
            self.coeffs.len() > 0,
            self.coeffs.len() == rhs.coeffs.len(),
            forall|i: int|
                0 <= i < self.coeffs.len() ==> (#[trigger] rhs.coeffs[i]).spec_modulus()
                    == self.coeffs[i].spec_modulus(),
        ensures
            r.coeffs.len() == self.coeffs.len(),
            forall|i: int|
                0 <= i < self.coeffs.len() ==> (#[trigger] r.coeffs[i]).spec_modulus()
                    == self.coeffs[i].spec_modulus() && r.coeffs[i].val_nat() == (
                self.coeffs[i].val_nat() - rhs.coeffs[i].val_nat()) % (
                self.coeffs[i].q_nat() as int),
    {
        let n = self.coeffs.len();
        let mut coeffs: Vec<Zq<T>> = Vec::new();
        for i in 0..n
            invariant
                n == self.coeffs.len(),
                n == rhs.coeffs.len(),
                forall|j: int|
                    0 <= j < n ==> (#[trigger] rhs.coeffs[j]).spec_modulus()
                        == self.coeffs[j].spec_modulus(),
                coeffs.len() == i,
                forall|j: int|
                    0 <= j < i ==> (#[trigger] coeffs[j]).spec_modulus()
                        == self.coeffs[j].spec_modulus() && coeffs[j].val_nat() == (
                    self.coeffs[j].val_nat() - rhs.coeffs[j].val_nat()) % (
                    self.coeffs[j].q_nat() as int),
        {
            let a = self.coeffs[i];
            let b = rhs.coeffs[i];
            coeffs.push(a - b);
        }
        Rq { coeffs }
    }

    /// Negacyclic convolution: multiplication in Z_q[x]/(x^n+1), by the schoolbook method.
    pub fn mul(&self, rhs: &Self) -> (r: Self)
        requires
            self.coeffs.len() > 0,
            self.coeffs.len() == rhs.coeffs.len(),
            self.has_modulus(self.coeffs[0].spec_modulus()),
            rhs.has_modulus(self.coeffs[0].spec_modulus()),
        ensures
            r.coeffs.len() == self.coeffs.len(),
            r.has_modulus(self.coeffs[0].spec_modulus()),
            forall|k: int|
                0 <= k < self.coeffs.len() ==> (#[trigger] r.coeffs[k]).val_nat()
                    == negacyclic_coeff(self.coeffs@, rhs.coeffs@, k) % (
                self.coeffs[0].q_nat() as int),
    {
        let n = self.coeffs.len();
        let q = self.modulus();
        let ghost a = self.coeffs@;
        let ghost b = rhs.coeffs@;
        let ghost qi = q.limb_nat() as int;
        let mut acc = Rq::zero(n, q).coeffs;
        proof {
            assert forall|k: int| 0 <= k < n implies (#[trigger] acc[k]).val_nat() == nc_rows(
                a,
                b,
                0,
                k,
            ) % qi by {
                lemma_small_mod(0, qi as nat);
            }
        }
        for i in 0..n
            invariant
                n == self.coeffs.len(),
                n == rhs.coeffs.len(),
                a == self.coeffs@,
                b == rhs.coeffs@,
                qi == q.limb_nat(),
                qi > 0,
                q == self.coeffs[0].spec_modulus(),
                self.has_modulus(q),
                rhs.has_modulus(q),
                acc.len() == n,
                all_modulus(acc@, q),
                forall|k: int| 0 <= k < n ==> (#[trigger] acc[k]).val_nat() == nc_rows(a, b, i as int, k) % qi,
        {
            for j in 0..n
                invariant
                    n == self.coeffs.len(),
                    n == rhs.coeffs.len(),
                    0 <= i < n,
                    a == self.coeffs@,
                    b == rhs.coeffs@,
                    qi == q.limb_nat(),
                    qi > 0,
                    self.has_modulus(q),
                    rhs.has_modulus(q),
                    acc.len() == n,
                    all_modulus(acc@, q),
                    forall|k: int|
                        0 <= k < n ==> (#[trigger] acc[k]).val_nat() == (nc_rows(a, b, i as int, k)
                            + nc_row(a, b, i as int, j as int, k)) % qi,
            {
                let x = self.coeffs[i];
                let y = rhs.coeffs[j];
                let prod = x * y;
                let ghost old_acc = acc@;
                let ghost t = (x.val_nat() * y.val_nat()) as int;
                if j < n - i {
                    let k = i + j;
                    let cur = acc[k];
                    acc.set(k, cur + prod);
                    proof {
                        let c = nc_rows(a, b, i as int, k as int) + nc_row(a, b, i as int, j as int, k as int);
                        lemma_add_mod_noop(c, t, qi);
                        lemma_mod_twice(c, qi);
                        lemma_mod_twice(t, qi);
                    }
                } else {
                    let k = j - (n - i);
                    let cur = acc[k];
                    acc.set(k, cur - prod);
                    proof {
                        let c = nc_rows(a, b, i as int, k as int) + nc_row(a, b, i as int, j as int, k as int);
                        lemma_sub_mod_noop(c, t, qi);
                        lemma_mod_twice(c, qi);
                        lemma_mod_twice(t, qi);
                    }
                }
                proof {
                    assert forall|k: int| 0 <= k < n implies (#[trigger] acc[k]).val_nat() == (nc_rows(
                        a,
                        b,
                        i as int,
                        k,
                    ) + nc_row(a, b, i as int, j + 1, k)) % qi by {
                        assert(nc_row(a, b, i as int, j + 1, k) == nc_row(a, b, i as int, j as int, k)
                            + nc_term(a, b, i as int, j as int, k));
                    }
                    assert(all_modulus(acc@, q));
                }
            }
            proof {
                assert forall|k: int| 0 <= k < n implies (#[trigger] acc[k]).val_nat() == nc_rows(
                    a,
                    b,
                    i + 1,
                    k,
                ) % qi by {
                    assert(nc_rows(a, b, i + 1, k) == nc_rows(a, b, i as int, k) + nc_row(a, b, i as int, n as int, k));
                }
            }
        }
        Rq { coeffs: acc }
    }
}

/// Subtraction undoes addition, coefficient by coefficient: if `c` is what `a.add(b)` returns and
/// `d` what `c.sub(b)` returns, then `d` has the coefficients of `a`.
pub proof fn law_ring_sub_undoes_add<T: ZqLimb>(a: Rq<T>, b: Rq<T>, c: Rq<T>, d: Rq<T>)
    requires
        a.coeffs.len() == b.coeffs.len(),
        c.coeffs.len() == a.coeffs.len(),
        d.coeffs.len() == a.coeffs.len(),
        forall|i: int| 0 <= i < a.coeffs.len() ==> (#[trigger] a.coeffs[i]).wf(),
        forall|i: int|
            0 <= i < a.coeffs.len() ==> (#[trigger] c.coeffs[i]).spec_modulus()
                == a.coeffs[i].spec_modulus() && c.coeffs[i].val_nat() == (a.coeffs[i].val_nat()
                + b.coeffs[i].val_nat()) % a.coeffs[i].q_nat(),
        forall|i: int|
            0 <= i < a.coeffs.len() ==> (#[trigger] d.coeffs[i]).val_nat() == (c.coeffs[i].val_nat()
                - b.coeffs[i].val_nat()) % (c.coeffs[i].q_nat() as int),
    ensures
        forall|i: int| 0 <= i < a.coeffs.len() ==> (#[trigger] d.coeffs[i]).val_nat() == a.coeffs[i].val_nat(),
{
    assert forall|i: int| 0 <= i < a.coeffs.len() implies (#[trigger] d.coeffs[i]).val_nat()
        == a.coeffs[i].val_nat() by {
        let x = a.coeffs[i].val_nat() as int;
        let y = b.coeffs[i].val_nat() as int;
        let q = a.coeffs[i].q_nat() as int;
        a.coeffs[i].lemma_bounds();
        lemma_small_mod(x as nat, q as nat);
        lemma_sub_mod_noop(x + y, y, q);
        lemma_mod_twice(x + y, q);
        lemma_sub_mod_noop((x + y) % q, y, q);
    }
}

/// The sum over `j < jn` of `f(i, j)`.
pub open spec fn sum_j(f: spec_fn(int, int) -> int, i: int, jn: int) -> int
    decreases jn,
{
    if jn <= 0 {
        0
    } else {
        sum_j(f, i, jn - 1) + f(i, jn - 1)
    }
}

/// The sum over `i < im` and `j < jn` of `f(i, j)`, row by row.
pub open spec fn sum_ij(f: spec_fn(int, int) -> int, im: int, jn: int) -> int
    decreases im,
{
    if im <= 0 {
        0
    } else {
        sum_ij(f, im - 1, jn) + sum_j(f, im - 1, jn)
    }
}

/// Summing the other way round: over columns first.
proof fn lemma_sum_swap(f: spec_fn(int, int) -> int, im: int, jn: int)
    requires
        im >= 0,
        jn >= 0,
    ensures
        sum_ij(f, im, jn) == sum_ij(|j: int, i: int| f(i, j), jn, im),
    decreases im,
{
    let g = |j: int, i: int| f(i, j);
    if im == 0 {
        lemma_sum_ij_zero_width(g, jn);
    } else {
        lemma_sum_swap(f, im - 1, jn);
        lemma_sum_ij_split(g, jn, im);
        lemma_sum_j_ext(|i: int, j: int| g(j, i), f, im - 1, jn);
    }
}

proof fn lemma_sum_ij_zero_width(g: spec_fn(int, int) -> int, jn: int)
    ensures
        sum_ij(g, jn, 0) == 0,
    decreases jn,
{
    if jn > 0 {
        lemma_sum_ij_zero_width(g, jn - 1);
    }
}

/// Summing rows of length `im` is summing rows of length `im - 1`, plus the last column.
proof fn lemma_sum_ij_split(g: spec_fn(int, int) -> int, jn: int, im: int)
    requires
        im > 0,
        jn >= 0,
    ensures
        sum_ij(g, jn, im) == sum_ij(g, jn, im - 1) + sum_j(|i: int, j: int| g(j, i), im - 1, jn),
    decreases jn,
{
    if jn > 0 {
        lemma_sum_ij_split(g, jn - 1, im);
    }
}

proof fn lemma_nc_row_is_sum<T: ZqLimb>(a: Seq<Zq<T>>, b: Seq<Zq<T>>, i: int, jn: int, k: int)
    ensures
        nc_row(a, b, i, jn, k) == sum_j(|x: int, y: int| nc_term(a, b, x, y, k), i, jn),
    decreases jn,
{
    if jn > 0 {
        lemma_nc_row_is_sum(a, b, i, jn - 1, k);
    }
}

proof fn lemma_nc_rows_is_sum<T: ZqLimb>(a: Seq<Zq<T>>, b: Seq<Zq<T>>, im: int, k: int)
    ensures
        nc_rows(a, b, im, k) == sum_ij(|x: int, y: int| nc_term(a, b, x, y, k), im, a.len() as int),
    decreases im,
{
    if im > 0 {
        lemma_nc_rows_is_sum(a, b, im - 1, k);
        lemma_nc_row_is_sum(a, b, im - 1, a.len() as int, k);
    }
}

proof fn lemma_sum_ij_ext(f: spec_fn(int, int) -> int, g: spec_fn(int, int) -> int, im: int, jn: int)
    requires
        forall|i: int, j: int| 0 <= i < im && 0 <= j < jn ==> #[trigger] f(i, j) == g(i, j),
    ensures
        sum_ij(f, im, jn) == sum_ij(g, im, jn),
    decreases im,
{
    if im > 0 {
        lemma_sum_ij_ext(f, g, im - 1, jn);
        lemma_sum_j_ext(f, g, im - 1, jn);
    }
}

proof fn lemma_sum_j_ext(f: spec_fn(int, int) -> int, g: spec_fn(int, int) -> int, i: int, jn: int)
    requires
        forall|j: int| 0 <= j < jn ==> #[trigger] f(i, j) == g(i, j),
    ensures
        sum_j(f, i, jn) == sum_j(g, i, jn),
    decreases jn,
{
    if jn > 0 {
        lemma_sum_j_ext(f, g, i, jn - 1);
    }
}

/// Multiplication in Z_q[x]/(x^n+1) is commutative: coefficient `k` of `a * b` and of `b * a`
/// agree before reduction, hence after.
pub proof fn law_mul_commutes<T: ZqLimb>(a: Seq<Zq<T>>, b: Seq<Zq<T>>, k: int)
    requires
        a.len() == b.len(),
    ensures
        negacyclic_coeff(a, b, k) == negacyclic_coeff(b, a, k),
{
    let n = a.len() as int;
    let f = |x: int, y: int| nc_term(a, b, x, y, k);
    let g = |x: int, y: int| nc_term(b, a, x, y, k);
    lemma_nc_rows_is_sum(a, b, n, k);
    lemma_nc_rows_is_sum(b, a, n, k);
    lemma_sum_swap(f, n, n);
    assert forall|x: int, y: int| 0 <= x < n && 0 <= y < n implies #[trigger] g(x, y) == (|j: int, i: int| f(i, j))(x, y) by {
        vstd::arithmetic::mul::lemma_mul_is_commutative(b[x].val_nat() as int, a[y].val_nat() as int);
    }
    lemma_sum_ij_ext(g, |j: int, i: int| f(i, j), n, n);
}

/// The residue that `encode_bits` puts at position `i`: floor(q/2) for a set bit, 0 otherwise
/// (positions past the end of `bits` hold 0).
pub open spec fn encoded_coeff(bits: Seq<bool>, i: int, q: nat) -> nat {
    if 0 <= i < bits.len() && bits[i] {
        q / 2
    } else {
        0
    }
}

/// The bit that a residue `v` modulo `q` decodes to: set iff `q/4 <= v <= 3q/4` (floors).
pub open spec fn threshold_bit(v: int, q: int) -> bool {
    q / 4 <= v && v <= (3 * q) / 4
}

/// Encodes up to n bits into a ring element, each bit scaled to 0 or floor(q/2),
/// independently per coefficient.
pub fn encode_bits<T: ZqLimb>(bits: &[bool], n: usize, q: T) -> (r: Rq<T>)
    requires
        bits.len() <= n,
        q.limb_nat() > 0,
    ensures
        r.coeffs.len() == n,
        r.has_modulus(q),
        forall|i: int|
            0 <= i < n ==> (#[trigger] r.coeffs[i]).val_nat() == encoded_coeff(bits@, i, q.limb_nat()),
{
    let q128 = q.to_i128();
    let h = T::from_i128(q128 / 2);
    proof {
        T::lemma_limb_facts(q);
        T::lemma_limb_of((q128 / 2) as int);
        lemma_small_mod((q128 / 2) as nat, T::limb_modulus());
        lemma_small_mod((q128 / 2) as nat, q.limb_nat());
    }
    let half_q = Zq::new(h, q);
    let zero = zero_mod(q);
    let mut coeffs: Vec<Zq<T>> = Vec::new();
    for i in 0..n
        invariant
            bits.len() <= n,
            coeffs.len() == i,
            half_q.spec_modulus() == q,
            half_q.val_nat() == q.limb_nat() / 2,
            zero.spec_modulus() == q,
            zero.val_nat() == 0,
            forall|j: int| 0 <= j < i ==> (#[trigger] coeffs[j]).spec_modulus() == q,
            forall|j: int|
                0 <= j < i ==> (#[trigger] coeffs[j]).val_nat() == encoded_coeff(bits@, j, q.limb_nat()),
    {
        if i < bits.len() && bits[i] {
            coeffs.push(half_q);
        } else {
            coeffs.push(zero);
        }
    }
    Rq { coeffs }
}

/// Decodes a ring element back to bits: coefficient `i` gives `q/4 <= c_i <= 3q/4`.
pub fn decode_bits<T: ZqLimb>(poly: &Rq<T>) -> (r: Vec<bool>)
    ensures
        r.len() == poly.coeffs.len(),
        forall|i: int|
            0 <= i < r.len() ==> #[trigger] r[i] == threshold_bit(
                poly.coeffs[i].val_nat() as int,
                poly.coeffs[i].q_nat() as int,
            ),
{
    let n = poly.coeffs.len();
    let mut out: Vec<bool> = Vec::new();
    for i in 0..n
        invariant
            n == poly.coeffs.len(),
            out.len() == i,
            forall|j: int|
                0 <= j < i ==> #[trigger] out[j] == threshold_bit(
                    poly.coeffs[j].val_nat() as int,
                    poly.coeffs[j].q_nat() as int,
                ),
    {
        let c = poly.coeffs[i];
        let v = c.value().to_i128();
        let q = c.modulus().to_i128();
        proof {
            T::lemma_limb_facts(c.spec_modulus());
        }
        out.push(v >= q / 4 && v <= (3 * q) / 4);
    }
    out
}

/// Decoding undoes encoding whenever q >= 4: coefficient `i` of `encode_bits(bits, n, q)` decodes
/// to bit `i` of `bits`, and positions past the end of `bits` decode to `false`.
pub proof fn law_decode_encode(bits: Seq<bool>, q: nat, i: int)
    requires
        q >= 4,
    ensures
        threshold_bit(encoded_coeff(bits, i, q) as int, q as int) == (0 <= i < bits.len() && bits[i]),
{
}

} // verus!
