//! Arithmetic in Z_q, the integers modulo a positive modulus q, over unsigned
//! limbs (`u32` or `u64`), and dot products and sums of vectors in Z_q^n.
use crate::text::{append_item, decimal, decimal_string, joined, lemma_joined_push, list_text};
use vstd::arithmetic::div_mod::*;
use vstd::arithmetic::mul::*;
use vstd::prelude::*;
use vstd::string::*;
use vstd::std_specs::ops::{AddSpec, MulSpec, SubSpec};

verus! {

/// The primitive type that holds a residue and its modulus (`u32` or `u64`).
///
/// A limb stands for the natural number `limb_nat()`, below `limb_modulus()`
/// (2^32 or 2^64); `limb_of(n)` is the limb that holds `n` reduced modulo
/// `limb_modulus()`, which is what a truncating cast gives.
pub trait ZqLimb: Copy + Eq + core::fmt::Debug {
    spec fn limb_nat(self) -> nat;

    spec fn limb_modulus() -> nat;

    spec fn limb_of(n: int) -> Self;

    proof fn lemma_limb_facts(x: Self)
        ensures
            0x1_0000_0000 <= Self::limb_modulus() <= 0x1_0000_0000_0000_0000,
            x.limb_nat() < Self::limb_modulus(),
            Self::limb_of(x.limb_nat() as int) == x,
    ;

    proof fn lemma_limb_of(n: int)
        ensures
            Self::limb_of(n).limb_nat() == n % (Self::limb_modulus() as int),
    ;

    /// Truncates a wide value to a limb.
    fn narrow(wide: u128) -> (r: Self)
        ensures
            r == Self::limb_of(wide as int),
    ;

    fn to_i128(self) -> (r: i128)
        ensures
            r == self.limb_nat(),
    ;

    /// Truncates (two's complement) a signed value to a limb.
    fn from_i128(v: i128) -> (r: Self)
        ensures
            r == Self::limb_of(v as int),
    ;

    /// The limb as a wide unsigned value, wide enough for the product of two limbs.
    fn widen(self) -> (r: u128)
        ensures
            r == self.limb_nat(),
    ;
}

impl ZqLimb for u32 {
    open spec fn limb_nat(self) -> nat {
        self as nat
    }

    open spec fn limb_modulus() -> nat {
        0x1_0000_0000
    }

    open spec fn limb_of(n: int) -> u32 {
        (n % 0x1_0000_0000) as u32
    }

    proof fn lemma_limb_facts(x: u32) {
    }

    proof fn lemma_limb_of(n: int) {
    }

    fn narrow(wide: u128) -> (r: u32) {
        assert((wide as u32) == ((wide % 0x1_0000_0000u128) as u32)) by (bit_vector);
        wide as u32
    }

    fn to_i128(self) -> (r: i128) {
        self as i128
    }

    fn from_i128(v: i128) -> (r: u32) {
        assert((v as u32) == ((v % 0x1_0000_0000i128) as u32)) by (bit_vector);
        v as u32
    }

    fn widen(self) -> (r: u128) {
        self as u128
    }
}

impl ZqLimb for u64 {
    open spec fn limb_nat(self) -> nat {
        self as nat
    }

    open spec fn limb_modulus() -> nat {
        0x1_0000_0000_0000_0000
    }

    open spec fn limb_of(n: int) -> u64 {
        (n % 0x1_0000_0000_0000_0000) as u64
    }

    proof fn lemma_limb_facts(x: u64) {
    }

    proof fn lemma_limb_of(n: int) {
    }

    fn narrow(wide: u128) -> (r: u64) {
        assert((wide as u64) == ((wide % 0x1_0000_0000_0000_0000u128) as u64)) by (bit_vector);
        wide as u64
    }

    fn to_i128(self) -> (r: i128) {
        self as i128
    }

    fn from_i128(v: i128) -> (r: u64) {
        assert((v as u64) == ((v % 0x1_0000_0000_0000_0000i128) as u64)) by (bit_vector);
        v as u64
    }

    fn widen(self) -> (r: u128) {
        self as u128
    }
}

/// An element of Z_q: a residue `val` with `0 <= val < q`, together with its modulus `q > 0`.
#[verifier::reject_recursive_types(T)]
#[derive(Copy, PartialEq, Eq, Debug)]
pub struct Zq<T: ZqLimb> {
    val: T,
    q: T,
}

impl<T: ZqLimb> Clone for Zq<T> {
    fn clone(&self) -> (r: Self)
        ensures
            r == *self,
    {
        *self
    }
}

/// The representative of the residue `v` modulo `q` in `(-q/2, q/2]`.
pub open spec fn centered_int(v: nat, q: nat) -> int {
    if v > q / 2 {
        v - q
    } else {
        v as int
    }
}

/// The residue of `a` modulo a positive `q`, as a limb (the same limb type as `q`).
pub open spec fn reduce<T: ZqLimb>(a: int, q: T) -> T {
    T::limb_of(a % (q.limb_nat() as int))
}

impl<T: ZqLimb> Zq<T> {
    /// The residue lies below the modulus.
    #[verifier::type_invariant]
    pub closed spec fn wf(self) -> bool {
        self.val.limb_nat() < self.q.limb_nat()
    }

    /// The residue, as a limb.
    pub closed spec fn spec_value(self) -> T {
        self.val
    }

    /// The modulus, as a limb.
    pub closed spec fn spec_modulus(self) -> T {
        self.q
    }

    /// The residue, as a natural number.
    pub open spec fn val_nat(self) -> nat {
        self.spec_value().limb_nat()
    }

    /// The modulus, as a natural number.
    pub open spec fn q_nat(self) -> nat {
        self.spec_modulus().limb_nat()
    }

    /// The residue lies below the modulus, and the modulus is positive.
    pub proof fn lemma_bounds(self)
        requires
            self.wf(),
        ensures
            self.val_nat() < self.q_nat(),
            0 < self.q_nat() < T::limb_modulus(),
    {
        T::lemma_limb_facts(self.q);
    }

    /// The element of Z_q that `value` stands for: `value mod q`.
    pub fn new(value: T, q: T) -> (r: Self)
        requires
            q.limb_nat() > 0,
        ensures
            r.spec_modulus() == q,
            r.spec_value() == reduce(value.limb_nat() as int, q),
            r.val_nat() == value.limb_nat() % q.limb_nat(),
    {
        proof {
            T::lemma_limb_facts(value);
            T::lemma_limb_facts(q);
        }
        let v = value.widen() % q.widen();
        let r = T::narrow(v);
        proof {
            T::lemma_limb_of(v as int);
            lemma_small_mod(v as nat, T::limb_modulus());
        }
        Zq { val: r, q }
    }

    /// The element of Z_q congruent to the signed integer `val`.
    pub fn from_signed(val: i64, q: T) -> (r: Self)
        requires
            q.limb_nat() > 0,
        ensures
            r.spec_modulus() == q,
            r.spec_value() == reduce(val as int, q),
            r.val_nat() == (val as int) % (q.limb_nat() as int),
    {
        proof {
            T::lemma_limb_facts(q);
        }
        let q128 = q.to_i128();
        let v128 = (val as i128).checked_rem_euclid(q128).unwrap();
        let v = T::from_i128(v128);
        proof {
            T::lemma_limb_of(v128 as int);
            lemma_small_mod(v128 as nat, T::limb_modulus());
        }
        Zq { val: v, q }
    }

    /// The centred representative of the residue: in `(-q/2, q/2]`, congruent to it modulo q.
    pub open spec fn centered(self) -> int {
        centered_int(self.val_nat(), self.q_nat())
    }

    /// The centred representative of the residue (it always fits in `i64`).
    pub fn to_signed(self) -> (r: i64)
        ensures
            r as int == self.centered(),
    {
        proof {
            use_type_invariant(&self);
            T::lemma_limb_facts(self.q);
        }
        let q128 = self.q.to_i128();
        let v128 = self.val.to_i128();
        let signed = if v128 > q128 / 2 {
            v128 - q128
        } else {
            v128
        };
        signed as i64
    }

    pub fn value(self) -> (r: T)
        ensures
            r == self.spec_value(),
            r.limb_nat() < self.q_nat(),
    {
        proof {
            use_type_invariant(&self);
        }
        self.val
    }

    pub fn modulus(self) -> (r: T)
        ensures
            r == self.spec_modulus(),
            r.limb_nat() > self.val_nat(),
    {
        proof {
            use_type_invariant(&self);
        }
        self.q
    }

    /// The element with residue `v`, already reduced, and modulus `q`.
    pub closed spec fn with_residue(v: int, q: T) -> Self {
        Zq { val: T::limb_of(v), q }
    }

    /// Builds the element from a residue known to lie below the modulus.
    fn from_reduced(v: u128, q: T) -> (r: Self)
        requires
            (v as nat) < q.limb_nat(),
        ensures
            r == Self::with_residue(v as int, q),
            r.val_nat() == v,
            r.spec_modulus() == q,
    {
        proof {
            T::lemma_limb_facts(q);
            T::lemma_limb_of(v as int);
            lemma_small_mod(v as nat, T::limb_modulus());
        }
        Zq { val: T::narrow(v), q }
    }

    /// Two elements with the same residue and the same modulus are the same element.
    pub proof fn lemma_ext(self, other: Self)
        requires
            self.val_nat() == other.val_nat(),
            self.spec_modulus() == other.spec_modulus(),
        ensures
            self == other,
    {
        T::lemma_limb_facts(self.val);
        T::lemma_limb_facts(other.val);
    }
}

impl<T: ZqLimb> core::ops::Add for Zq<T> {
    type Output = Self;

    /// Sum modulo q.
    fn add(self, rhs: Self) -> (r: Self)
        ensures
            r.spec_modulus() == self.spec_modulus(),
            r.val_nat() == (self.val_nat() + rhs.val_nat()) % self.q_nat(),
    {
        proof {
            use_type_invariant(&self);
            use_type_invariant(&rhs);
            T::lemma_limb_facts(self.q);
        }
        let q_w = self.q.widen();
        let sum = self.val.widen() + rhs.val.widen();
        let r = if sum >= q_w {
            sum - q_w
        } else {
            sum
        };
        proof {
            let a = self.val_nat() as int;
            let b = rhs.val_nat() as int;
            let q = self.q_nat() as int;
            if a + b >= q {
                lemma_mod_sub_multiples_vanish(a + b, q);
                lemma_small_mod((a + b - q) as nat, q as nat);
            } else {
                lemma_small_mod((a + b) as nat, q as nat);
            }
        }
        Zq::from_reduced(r, self.q)
    }
}

impl<T: ZqLimb> vstd::std_specs::ops::AddSpecImpl for Zq<T> {
    open spec fn obeys_add_spec() -> bool {
        true
    }

    open spec fn add_req(self, rhs: Self) -> bool {
        self.spec_modulus() == rhs.spec_modulus()
    }

    open spec fn add_spec(self, rhs: Self) -> Self {
        Zq::with_residue(((self.val_nat() + rhs.val_nat()) % self.q_nat()) as int, self.spec_modulus())
    }
}


impl<T: ZqLimb> core::ops::Sub for Zq<T> {
    type Output = Self;

    /// Difference modulo q.
    fn sub(self, rhs: Self) -> (r: Self)
        ensures
            r.spec_modulus() == self.spec_modulus(),
            r.val_nat() == (self.val_nat() - rhs.val_nat()) % (self.q_nat() as int),
    {
        proof {
            use_type_invariant(&self);
            use_type_invariant(&rhs);
            T::lemma_limb_facts(self.q);
        }
        let q_w = self.q.widen();
        let a = self.val.widen();
        let b = rhs.val.widen();
        let r = if a >= b {
            a - b
        } else {
            a + q_w - b
        };
        proof {
            let a = self.val_nat() as int;
            let b = rhs.val_nat() as int;
            let q = self.q_nat() as int;
            if a >= b {
                lemma_small_mod((a - b) as nat, q as nat);
            } else {
                lemma_mod_add_multiples_vanish(a - b, q);
                lemma_small_mod((q + a - b) as nat, q as nat);
            }
        }
        Zq::from_reduced(r, self.q)
    }
}

impl<T: ZqLimb> vstd::std_specs::ops::SubSpecImpl for Zq<T> {
    open spec fn obeys_sub_spec() -> bool {
        true
    }

    open spec fn sub_req(self, rhs: Self) -> bool {
        self.spec_modulus() == rhs.spec_modulus()
    }

    open spec fn sub_spec(self, rhs: Self) -> Self {
        Zq::with_residue((self.val_nat() - rhs.val_nat()) % (self.q_nat() as int), self.spec_modulus())
    }
}

impl<T: ZqLimb> core::ops::Mul for Zq<T> {
    type Output = Self;

    /// Product modulo q.
    fn mul(self, rhs: Self) -> (r: Self)
        ensures
            r.spec_modulus() == self.spec_modulus(),
            r.val_nat() == (self.val_nat() * rhs.val_nat()) % self.q_nat(),
    {
        proof {
            use_type_invariant(&self);
            use_type_invariant(&rhs);
            T::lemma_limb_facts(self.q);
            T::lemma_limb_facts(self.val);
            T::lemma_limb_facts(rhs.val);
            lemma_mul_upper_bound(
                self.val_nat() as int,
                0xffff_ffff_ffff_ffff,
                rhs.val_nat() as int,
                0xffff_ffff_ffff_ffff,
            );
        }
        let q_w = self.q.widen();
        let prod = self.val.widen() * rhs.val.widen();
        let r = prod % q_w;
        Zq::from_reduced(r, self.q)
    }
}

impl<T: ZqLimb> vstd::std_specs::ops::MulSpecImpl for Zq<T> {
    open spec fn obeys_mul_spec() -> bool {
        true
    }

    open spec fn mul_req(self, rhs: Self) -> bool {
        self.spec_modulus() == rhs.spec_modulus()
    }

    open spec fn mul_spec(self, rhs: Self) -> Self {
        Zq::with_residue(((self.val_nat() * rhs.val_nat()) % self.q_nat()) as int, self.spec_modulus())
    }
}

impl<T: ZqLimb> core::ops::Neg for Zq<T> {
    type Output = Self;

    /// Additive inverse modulo q.
    fn neg(self) -> (r: Self)
        ensures
            r.spec_modulus() == self.spec_modulus(),
            r.val_nat() == (-(self.val_nat() as int)) % (self.q_nat() as int),
    {
        proof {
            use_type_invariant(&self);
            T::lemma_limb_facts(self.q);
            lemma_mod_add_multiples_vanish(-(self.val_nat() as int), self.q_nat() as int);
        }
        let q_w = self.q.widen();
        let a = self.val.widen();
        let r = (q_w - a) % q_w;
        Zq::from_reduced(r, self.q)
    }
}

impl<T: ZqLimb> vstd::std_specs::ops::NegSpecImpl for Zq<T> {
    open spec fn obeys_neg_spec() -> bool {
        true
    }

    open spec fn neg_req(self) -> bool {
        true
    }

    open spec fn neg_spec(self) -> Self {
        Zq::with_residue((-(self.val_nat() as int)) % (self.q_nat() as int), self.spec_modulus())
    }
}


/// `from_signed` undoes `to_signed`: the centred representative of an element is congruent to
/// its residue, so reducing it modulo q gives the element back.
pub proof fn law_signed_round_trip<T: ZqLimb>(x: Zq<T>)
    requires
        x.wf(),
    ensures
        reduce(x.centered(), x.spec_modulus()) == x.spec_value(),
        x.centered() % (x.q_nat() as int) == x.val_nat(),
{
    let v = x.val_nat() as int;
    let q = x.q_nat() as int;
    lemma_small_mod(v as nat, q as nat);
    if v > q / 2 {
        lemma_mod_sub_multiples_vanish(v, q);
    }
    T::lemma_limb_facts(x.val);
}

/// Subtraction undoes addition: `(a + b) - b == a` for elements with the same modulus.
pub proof fn law_sub_undoes_add<T: ZqLimb>(a: Zq<T>, b: Zq<T>)
    requires
        a.wf(),
        b.wf(),
        a.spec_modulus() == b.spec_modulus(),
    ensures
        a.add_spec(b).sub_spec(b) == a,
{
    let x = a.val_nat() as int;
    let y = b.val_nat() as int;
    let q = a.q_nat() as int;
    T::lemma_limb_facts(a.q);
    let s = (x + y) % q;
    T::lemma_limb_of(s);
    lemma_small_mod(s as nat, T::limb_modulus());
    lemma_add_mod_noop(x, y, q);
    lemma_mod_twice(x + y, q);
    lemma_sub_mod_noop(x + y, y, q);
    lemma_sub_mod_noop(s, y, q);
    lemma_small_mod(x as nat, q as nat);
    T::lemma_limb_facts(a.val);
}

/// Addition is commutative: `a + b == b + a` for elements with the same modulus.
pub proof fn law_add_commutes<T: ZqLimb>(a: Zq<T>, b: Zq<T>)
    requires
        a.spec_modulus() == b.spec_modulus(),
    ensures
        a.add_spec(b) == b.add_spec(a),
{
}

/// Multiplication is commutative: `a * b == b * a` for elements with the same modulus.
pub proof fn law_mul_commutes<T: ZqLimb>(a: Zq<T>, b: Zq<T>)
    requires
        a.spec_modulus() == b.spec_modulus(),
    ensures
        a.mul_spec(b) == b.mul_spec(a),
{
    lemma_mul_is_commutative(a.val_nat() as int, b.val_nat() as int);
}

/// Every element of `s` has modulus `q`.
pub open spec fn all_modulus<T: ZqLimb>(s: Seq<Zq<T>>, q: T) -> bool {
    forall|i: int| 0 <= i < s.len() ==> (#[trigger] s[i]).spec_modulus() == q
}

/// The integer sum of the products of residues at positions `0..k`.
pub open spec fn dot_prefix<T: ZqLimb>(l: Seq<Zq<T>>, r: Seq<Zq<T>>, k: int) -> nat
    decreases k,
{
    if k <= 0 {
        0
    } else {
        dot_prefix(l, r, k - 1) + l[k - 1].val_nat() * r[k - 1].val_nat()
    }
}

/// The zero of Z_q.
pub(crate) fn zero_mod<T: ZqLimb>(q: T) -> (r: Zq<T>)
    requires
        q.limb_nat() > 0,
    ensures
        r.spec_modulus() == q,
        r.val_nat() == 0,
{
    let z = T::from_i128(0);
    proof {
        T::lemma_limb_of(0);
        T::lemma_limb_facts(q);
        lemma_small_mod(0, T::limb_modulus());
        lemma_small_mod(0, q.limb_nat());
    }
    Zq::new(z, q)
}

/// The vector of `n` zeros of Z_q.
pub(crate) fn zero_vec<T: ZqLimb>(n: usize, q: T) -> (r: Vec<Zq<T>>)
    requires
        q.limb_nat() > 0,
    ensures
        r.len() == n,
        all_modulus(r@, q),
        forall|i: int| 0 <= i < n ==> (#[trigger] r[i]).val_nat() == 0,
{
    let z = zero_mod(q);
    let mut out: Vec<Zq<T>> = Vec::new();
    for i in 0..n
        invariant
            out.len() == i,
            z.spec_modulus() == q,
            z.val_nat() == 0,
            forall|j: int| 0 <= j < i ==> #[trigger] out[j] == z,
    {
        out.push(z);
    }
    out
}

/// Dot product of two vectors of the same length over Z_q.
pub fn dot<T: ZqLimb>(lhs: &[Zq<T>], rhs: &[Zq<T>], q: T) -> (r: Zq<T>)
    requires
        q.limb_nat() > 0,
        lhs.len() == rhs.len(),
        all_modulus(lhs@, q),
        all_modulus(rhs@, q),
    ensures
        r.spec_modulus() == q,
        r.val_nat() == dot_prefix(lhs@, rhs@, lhs.len() as int) % q.limb_nat(),
{
    let mut acc = zero_mod(q);
    let n = lhs.len();
    proof {
        lemma_small_mod(0, q.limb_nat());
    }
    for i in 0..n
        invariant
            n == lhs.len(),
            n == rhs.len(),
            q.limb_nat() > 0,
            all_modulus(lhs@, q),
            all_modulus(rhs@, q),
            acc.spec_modulus() == q,
            acc.val_nat() == dot_prefix(lhs@, rhs@, i as int) % q.limb_nat(),
    {
        let r_v = rhs[i];
        let l_v = lhs[i];
        let prod = r_v * l_v;
        let old_acc = acc;
        acc = acc + prod;
        proof {
            let qi = q.limb_nat() as int;
            let p = dot_prefix(lhs@, rhs@, i as int) as int;
            let x = l_v.val_nat() as int;
            let y = r_v.val_nat() as int;
            lemma_mul_is_commutative(x, y);
            lemma_add_mod_noop(p, x * y, qi);
            lemma_mod_twice(x * y, qi);
            assert(dot_prefix(lhs@, rhs@, i + 1) == p + x * y);
        }
    }
    acc
}

/// Element-wise sum of two vectors of the same length over Z_q.
pub fn add<T: ZqLimb>(lhs: &[Zq<T>], rhs: &[Zq<T>]) -> (r: Vec<Zq<T>>)
    requires
        lhs.len() == rhs.len(),
        forall|i: int| 0 <= i < lhs.len() ==> (#[trigger] rhs[i]).spec_modulus() == lhs[i].spec_modulus(),
    ensures
        r.len() == lhs.len(),
        forall|i: int|
            0 <= i < lhs.len() ==> (#[trigger] r[i]).spec_modulus() == lhs[i].spec_modulus() && r[i].val_nat()
                == (lhs[i].val_nat() + rhs[i].val_nat()) % lhs[i].q_nat(),
{
    let n = lhs.len();
    let mut out: Vec<Zq<T>> = Vec::new();
    for i in 0..n
        invariant
            n == lhs.len(),
            n == rhs.len(),
            forall|j: int| 0 <= j < n ==> (#[trigger] rhs[j]).spec_modulus() == lhs[j].spec_modulus(),
            out.len() == i,
            forall|j: int|
                0 <= j < i ==> (#[trigger] out[j]).spec_modulus() == lhs[j].spec_modulus() && out[j].val_nat()
                    == (lhs[j].val_nat() + rhs[j].val_nat()) % lhs[j].q_nat(),
    {
        let r_v = rhs[i];
        let l_v = lhs[i];
        out.push(r_v + l_v);
    }
    out
}

/// How an element of Z_q is written: its residue and then its modulus, as in `3 (mod 17)`.
pub open spec fn zq_text<T: ZqLimb>(x: Zq<T>) -> Seq<char> {
    decimal(x.val_nat()) + " (mod "@ + decimal(x.q_nat()) + ")"@
}

/// How a list of elements of Z_q is written: `[3 (mod 17), 5 (mod 17)]`.
pub open spec fn zq_list_text<T: ZqLimb>(s: Seq<Zq<T>>) -> Seq<char> {
    list_text(s.map_values(|x: Zq<T>| zq_text(x)))
}

impl<T: ZqLimb> Zq<T> {
    /// The element as text: `"{residue} (mod {modulus})"`.
    pub fn debug_text(&self) -> (r: String)
        ensures
            r@ == zq_text(*self),
    {
        let mut s = decimal_string(self.val.widen());
        s.append(" (mod ");
        let t = decimal_string(self.q.widen());
        s.append(t.as_str());
        s.append(")");
        s
    }
}

/// A list of elements of Z_q as text: `"[{x0}, {x1}, ...]"`, each as `debug_text` writes it.
pub fn list_debug_text<T: ZqLimb>(s: &[Zq<T>]) -> (r: String)
    ensures
        r@ == zq_list_text(s@),
{
    let ghost parts = s@.map_values(|x: Zq<T>| zq_text(x));
    let mut out = String::from_str("[");
    let ghost start = out@;
    for i in 0..s.len()
        invariant
            parts == s@.map_values(|x: Zq<T>| zq_text(x)),
            start == "["@,
            out@ == start + joined(parts.take(i as int)),
    {
        let t = s[i].debug_text();
        append_item(&mut out, i == 0, t.as_str());
        proof {
            lemma_joined_push(parts, i as int);
            assert(parts[i as int] == zq_text(s@[i as int]));
        }
    }
    out.append("]");
    proof {
        assert(parts.take(s.len() as int) =~= parts);
    }
    out
}

} // verus!
