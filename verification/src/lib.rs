//! Learning With Errors public-key encryption (Regev's scheme), with the
//! modular arithmetic, polynomial ring and bit codecs it is built on.
pub mod analysis;
pub mod bitcodec;
pub mod correctness;
pub mod ring;
pub mod ring_laws;
pub mod text;
pub mod zq;

use crate::bitcodec::BitCodec;
use crate::ring::threshold_bit;
use crate::text::{append_item, joined, lemma_joined_push, list_text};
use crate::zq::{
    all_modulus, centered_int, dot, dot_prefix, list_debug_text, zero_mod, zero_vec, zq_list_text, zq_text, Zq,
};
use vstd::arithmetic::div_mod::*;
use vstd::prelude::*;
use vstd::string::*;

verus! {

pub type PubKeyTy = Vec<(Vec<Zq<u64>>, Zq<u64>)>;

pub type PrivKeyTy = Vec<Zq<u64>>;

pub type LWEBitCiphertext = (Vec<Zq<u64>>, Zq<u64>);

pub type LWEStringCiphertext = Vec<(Vec<Zq<u64>>, Zq<u64>)>;

/// The parameters of a key: dimension `n`, number of public samples `m`, modulus `q`.
#[derive(Clone, Copy, Debug)]
pub struct Params {
    n: usize,
    m: usize,
    q: u64,
}

impl Params {
    pub closed spec fn spec_n(self) -> nat {
        self.n as nat
    }

    pub closed spec fn spec_m(self) -> nat {
        self.m as nat
    }

    pub closed spec fn spec_q(self) -> u64 {
        self.q
    }

    /// The dimension n.
    pub fn n(&self) -> (r: usize)
        ensures
            r == self.spec_n(),
    {
        self.n
    }

    /// The number m of public samples.
    pub fn m(&self) -> (r: usize)
        ensures
            r == self.spec_m(),
    {
        self.m
    }

    /// The modulus q.
    pub fn q(&self) -> (r: u64)
        ensures
            r == self.spec_q(),
    {
        self.q
    }
}

/// A private key: `n` elements of Z_q.
pub open spec fn sk_well_formed(sk: Seq<Zq<u64>>, n: nat, q: u64) -> bool {
    sk.len() == n && all_modulus(sk, q)
}

/// A public key: `m` pairs of a vector of `n` elements of Z_q and one element of Z_q.
pub open spec fn pk_well_formed(pk: Seq<(Vec<Zq<u64>>, Zq<u64>)>, n: nat, m: nat, q: u64) -> bool {
    &&& pk.len() == m
    &&& forall|i: int|
        0 <= i < pk.len() ==> (#[trigger] pk[i]).0.len() == n && all_modulus(pk[i].0@, q)
            && pk[i].1.spec_modulus() == q
}

/// A key pair with its parameters.
#[derive(Debug)]
pub struct LWESystem {
    public_key: PubKeyTy,
    private_key: PrivKeyTy,
    params: Params,
}

/// The sum, over `j` in `0..k`, of the residues `s[j] mod q` times `r[j] mod q`.
pub open spec fn reduced_dot(s: Seq<u64>, r: Seq<u64>, q: nat, k: int) -> nat
    decreases k,
{
    if k <= 0 {
        0
    } else {
        reduced_dot(s, r, q, k - 1) + (s[k - 1] as nat % q) * (r[k - 1] as nat % q)
    }
}

/// The centred residue of the inner product of the secret with row `i`, plus error `i`:
/// the integer that key generation reduces modulo q to get the public value `b_i`.
pub open spec fn noisy_value(secret: Seq<u64>, row: Seq<u64>, e: i64, q: nat) -> int {
    centered_int(reduced_dot(secret, row, q, secret.len() as int) % q, q) + e
}

/// Fits in `i64`.
pub open spec fn fits_i64(x: int) -> bool {
    i64::MIN <= x <= i64::MAX
}

impl LWESystem {
    #[verifier::type_invariant]
    closed spec fn wf(self) -> bool {
        &&& (self.params.q > 0 || (self.params.n == 0 && self.params.m == 0))
        &&& sk_well_formed(self.private_key@, self.params.n as nat, self.params.q)
        &&& pk_well_formed(self.public_key@, self.params.n as nat, self.params.m as nat, self.params.q)
    }

    pub closed spec fn spec_public_key(self) -> PubKeyTy {
        self.public_key
    }

    pub closed spec fn spec_private_key(self) -> PrivKeyTy {
        self.private_key
    }

    pub closed spec fn spec_params(self) -> Params {
        self.params
    }

    /// Key generation from already drawn samples: `secret` (n values), `matrix` (m rows of n
    /// values) and `errors` (m rounded Gaussian errors). Each drawn value becomes an element of
    /// Z_q; public value `b_i` is `<s, a_i> + e_i` modulo q, computed from the centred inner product.
    ///
    /// Returns `None` when q < n^2 (the parameter rule of the scheme) or when the centred inner
    /// product plus the error of some row overflows `i64`.
    pub fn key_gen_from_samples(
        n: usize,
        m: usize,
        q: u64,
        secret: &[u64],
        matrix: &[Vec<u64>],
        errors: &[i64],
    ) -> (r: Option<Self>)
        requires
            q > 0 || (n == 0 && m == 0),
            secret.len() == n,
            matrix.len() == m,
            errors.len() == m,
            forall|i: int| 0 <= i < m ==> (#[trigger] matrix[i]).len() == n,
        ensures
            r is None <==> (n * n > q || exists|i: int|
                0 <= i < m && !fits_i64(
                    #[trigger] noisy_value(secret@, matrix[i]@, errors[i], q as nat),
                )),
            r matches Some(sys) ==> {
                &&& sys.spec_params().spec_n() == n
                &&& sys.spec_params().spec_m() == m
                &&& sys.spec_params().spec_q() == q
                &&& forall|j: int|
                    0 <= j < n ==> (#[trigger] sys.spec_private_key()[j]).val_nat() == secret[j]
                        % q
                &&& forall|i: int, j: int|
                    0 <= i < m && 0 <= j < n ==> (#[trigger] sys.spec_public_key()[i].0[j]).val_nat()
                        == matrix[i][j] % q
                &&& forall|i: int|
                    0 <= i < m ==> (#[trigger] sys.spec_public_key()[i].1).val_nat() == noisy_value(
                        secret@,
                        matrix[i]@,
                        errors[i],
                        q as nat,
                    ) % (q as int)
            },
    {
        proof {
            vstd::arithmetic::mul::lemma_mul_upper_bound(
                n as int,
                0xffff_ffff_ffff_ffff,
                n as int,
                0xffff_ffff_ffff_ffff,
            );
        }
        if (n as u128) * (n as u128) > q as u128 {
            return None;
        }
        let mut private_key: PrivKeyTy = Vec::new();
        for j in 0..n
            invariant
                n > 0 ==> q > 0,
                n == secret.len(),
                private_key.len() == j,
                all_modulus(private_key@, q),
                forall|k: int| 0 <= k < j ==> (#[trigger] private_key[k]).val_nat() == secret[k] % q,
        {
            private_key.push(Zq::new(secret[j], q));
        }
        let mut public_key: PubKeyTy = Vec::new();
        for i in 0..m
            invariant
                m > 0 ==> q > 0,
                n == secret.len(),
                m == matrix.len(),
                m == errors.len(),
                forall|k: int| 0 <= k < m ==> (#[trigger] matrix[k]).len() == n,
                private_key.len() == n,
                all_modulus(private_key@, q),
                forall|k: int| 0 <= k < n ==> (#[trigger] private_key[k]).val_nat() == secret[k] % q,
                pk_well_formed(public_key@, n as nat, i as nat, q),
                forall|k: int, j: int|
                    0 <= k < i && 0 <= j < n ==> (#[trigger] public_key[k].0[j]).val_nat()
                        == matrix[k][j] % q,
                forall|k: int|
                    0 <= k < i ==> (#[trigger] public_key[k].1).val_nat() == noisy_value(
                        secret@,
                        matrix[k]@,
                        errors[k],
                        q as nat,
                    ) % (q as int),
                forall|k: int|
                    0 <= k < i ==> fits_i64(
                        #[trigger] noisy_value(secret@, matrix[k]@, errors[k], q as nat),
                    ),
        {
            let src = &matrix[i];
            let mut row: Vec<Zq<u64>> = Vec::new();
            for j in 0..n
                invariant
                    q > 0,
                    n == src.len(),
                    row.len() == j,
                    all_modulus(row@, q),
                    forall|k: int| 0 <= k < j ==> (#[trigger] row[k]).val_nat() == src[k] % q,
            {
                row.push(Zq::new(src[j], q));
            }
            let dot_prod = dot(&private_key, &row, q);
            proof {
                lemma_dot_of_reduced(private_key@, row@, secret@, src@, q as nat, n as int);
            }
            let centred = dot_prod.to_signed();
            let b = match centred.checked_add(errors[i]) {
                Some(t) => Zq::from_signed(t, q),
                None => {
                    proof {
                        assert(!fits_i64(noisy_value(secret@, matrix[i as int]@, errors[i as int], q as nat)));
                    }
                    return None;
                },
            };
            public_key.push((row, b));
        }
        Some(LWESystem { public_key, private_key, params: Params { n, m, q } })
    }

    /// Encrypts one bit with the rows of the public key that `mask` selects (Regev's scheme):
    /// `a` is the sum of the selected vectors and `b` the sum of the selected values plus
    /// floor(q/2) for a 1 bit, all modulo q. The public key is all that it needs.
    pub fn encrypt_bit_with_mask(
        public_key: &PubKeyTy,
        params: Params,
        mask: &[bool],
        x_bit: bool,
    ) -> (r: LWEBitCiphertext)
        requires
            params.spec_q() > 0,
            mask.len() == params.spec_m(),
            mask_nonempty(mask@),
            pk_well_formed(public_key@, params.spec_n(), params.spec_m(), params.spec_q()),
        ensures
            r.0.len() == params.spec_n(),
            all_modulus(r.0@, params.spec_q()),
            r.1.spec_modulus() == params.spec_q(),
            forall|j: int|
                0 <= j < params.spec_n() ==> (#[trigger] r.0[j]).val_nat() == masked_col_sum(
                    public_key@,
                    mask@,
                    params.spec_m() as int,
                    j,
                ) % (params.spec_q() as nat),
            r.1.val_nat() == (masked_b_sum(public_key@, mask@, params.spec_m() as int) + bit_offset(
                x_bit,
                params.spec_q() as nat,
            )) % (params.spec_q() as nat),
    {
        let m = params.m;
        let n = params.n;
        let q = params.q;
        let ghost pk = public_key@;
        let mut a = zero_vec(n, q);
        let mut sum_b = zero_mod(q);
        proof {
            lemma_small_mod(0, q as nat);
        }
        for i in 0..m
            invariant
                q > 0,
                m == params.spec_m(),
                n == params.spec_n(),
                q == params.spec_q(),
                mask.len() == m,
                pk == public_key@,
                pk_well_formed(pk, n as nat, m as nat, q),
                a.len() == n,
                all_modulus(a@, q),
                forall|j: int|
                    0 <= j < n ==> (#[trigger] a[j]).val_nat() == masked_col_sum(pk, mask@, i as int, j)
                        % (q as nat),
                sum_b.spec_modulus() == q,
                sum_b.val_nat() == masked_b_sum(pk, mask@, i as int) % (q as nat),
        {
            if mask[i] {
                let row = &public_key[i].0;
                let b = public_key[i].1;
                proof {
                    assert(all_modulus(pk[i as int].0@, q));
                }
                let ghost old_a = a@;
                a = crate::zq::add(&a, row);
                let ghost old_sum = sum_b.val_nat();
                sum_b = sum_b + b;
                proof {
                    assert forall|j: int| 0 <= j < n implies (#[trigger] a[j]).val_nat()
                        == masked_col_sum(pk, mask@, i + 1, j) % (q as nat) by {
                        lemma_add_reduced(
                            masked_col_sum(pk, mask@, i as int, j) as int,
                            row[j].val_nat() as int,
                            q as int,
                        );
                    }
                    lemma_add_reduced(masked_b_sum(pk, mask@, i as int) as int, b.val_nat() as int, q as int);
                }
            }
        }
        let offset = if x_bit {
            Zq::new(q / 2, q)
        } else {
            zero_mod(q)
        };
        proof {
            lemma_small_mod((q / 2) as nat, q as nat);
            lemma_add_reduced(masked_b_sum(pk, mask@, m as int) as int, offset.val_nat() as int, q as int);
        }
        let b = sum_b + offset;
        (a, b)
    }

    /// Encrypts a bit string, bit `i` with the rows that `masks[i]` selects: ciphertext `i` is
    /// what `encrypt_bit_with_mask` gives for `masks[i]` and `bits[i]`.
    pub fn encrypt_bits_with_masks(
        public_key: &PubKeyTy,
        params: Params,
        bits: &[bool],
        masks: &[Vec<bool>],
    ) -> (r: LWEStringCiphertext)
        requires
            params.spec_q() > 0,
            masks.len() == bits.len(),
            forall|i: int| 0 <= i < masks.len() ==> (#[trigger] masks[i]).len() == params.spec_m(),
            forall|i: int| 0 <= i < masks.len() ==> mask_nonempty(#[trigger] masks[i]@),
            pk_well_formed(public_key@, params.spec_n(), params.spec_m(), params.spec_q()),
        ensures
            r.len() == bits.len(),
            forall|i: int|
                0 <= i < r.len() ==> encrypts(
                    public_key@,
                    params,
                    masks[i]@,
                    bits[i],
                    (#[trigger] r[i]).0@,
                    r[i].1,
                ),
    {
        let mut out: LWEStringCiphertext = Vec::new();
        for i in 0..bits.len()
            invariant
                params.spec_q() > 0,
                masks.len() == bits.len(),
                forall|k: int| 0 <= k < masks.len() ==> (#[trigger] masks[k]).len() == params.spec_m(),
                forall|k: int| 0 <= k < masks.len() ==> mask_nonempty(#[trigger] masks[k]@),
                pk_well_formed(public_key@, params.spec_n(), params.spec_m(), params.spec_q()),
                out.len() == i,
                forall|k: int|
                    0 <= k < i ==> encrypts(
                        public_key@,
                        params,
                        masks[k]@,
                        bits[k],
                        (#[trigger] out[k]).0@,
                        out[k].1,
                    ),
        {
            let ct = LWESystem::encrypt_bit_with_mask(public_key, params, &masks[i], bits[i]);
            out.push(ct);
        }
        out
    }

    /// The bit that a well-formed ciphertext `(a, b)` decrypts to: with `res = b - <a, s>` modulo q,
    /// 1 iff `q/4 <= res <= 3q/4`.
    pub open spec fn decrypted_bit(self, a: Seq<Zq<u64>>, b: Zq<u64>) -> bool {
        threshold_bit(
            (b.val_nat() - dot_prefix(a, self.spec_private_key()@, self.spec_params().spec_n() as int)
                % (self.spec_params().spec_q() as nat)) % (self.spec_params().spec_q() as int),
            self.spec_params().spec_q() as int,
        )
    }

    /// A ciphertext of one bit that fits this key: `n` elements and one element of Z_q, for a
    /// positive q.
    pub open spec fn fits_key(self, a: Seq<Zq<u64>>, b: Zq<u64>) -> bool {
        &&& self.spec_params().spec_q() > 0
        &&& a.len() == self.spec_params().spec_n()
        &&& all_modulus(a, self.spec_params().spec_q())
        &&& b.spec_modulus() == self.spec_params().spec_q()
    }

    fn decrypt_parts(&self, a: &[Zq<u64>], b: Zq<u64>) -> (r: bool)
        requires
            self.fits_key(a@, b),
            3 * self.spec_params().spec_q() <= u64::MAX,
        ensures
            r == self.decrypted_bit(a@, b),
    {
        proof {
            use_type_invariant(self);
        }
        let q: u64 = self.params.q;
        let dot_prod = dot(a, &self.private_key, q);
        let res = b - dot_prod;
        let v = res.value();
        v >= q / 4 && v <= (3 * q) / 4
    }

    /// Decrypts one bit: with `res = b - <a, s>` modulo q, the bit is 1 iff `q/4 <= res <= 3q/4`.
    pub fn decrypt_bit(&self, bit_ciphertext: LWEBitCiphertext) -> (r: bool)
        requires
            self.fits_key(bit_ciphertext.0@, bit_ciphertext.1),
            3 * self.spec_params().spec_q() <= u64::MAX,
        ensures
            r == self.decrypted_bit(bit_ciphertext.0@, bit_ciphertext.1),
    {
        let (a, b) = bit_ciphertext;
        self.decrypt_parts(&a, b)
    }

    /// Decrypts a value encrypted bit by bit: decrypts each ciphertext in turn and decodes the
    /// bits with `T::from_bits`.
    pub fn decrypt<T: BitCodec>(&self, ciphertext: LWEStringCiphertext) -> (r: Result<T, String>)
        requires
            forall|i: int|
                0 <= i < ciphertext.len() ==> self.fits_key(
                    (#[trigger] ciphertext[i]).0@,
                    ciphertext[i].1,
                ),
            3 * self.spec_params().spec_q() <= u64::MAX,
        ensures
            ({
                let bits = Seq::new(
                    ciphertext.len() as nat,
                    |i: int| self.decrypted_bit(ciphertext[i].0@, ciphertext[i].1),
                );
                &&& r is Ok <==> T::spec_decodable(bits)
                &&& r matches Ok(v) ==> v.spec_to_bits() == bits
                &&& r matches Err(e) ==> T::spec_error(bits, e@)
            }),
    {
        let n = ciphertext.len();
        let mut bits: Vec<bool> = Vec::new();
        for i in 0..n
            invariant
                n == ciphertext.len(),
                forall|k: int|
                    0 <= k < n ==> self.fits_key((#[trigger] ciphertext[k]).0@, ciphertext[k].1),
                3 * self.spec_params().spec_q() <= u64::MAX,
                bits.len() == i,
                forall|k: int|
                    0 <= k < i ==> #[trigger] bits[k] == self.decrypted_bit(
                        ciphertext[k].0@,
                        ciphertext[k].1,
                    ),
        {
            let (a, b) = &ciphertext[i];
            bits.push(self.decrypt_parts(a, *b));
        }
        proof {
            assert(bits@ =~= Seq::new(
                ciphertext.len() as nat,
                |i: int| self.decrypted_bit(ciphertext[i].0@, ciphertext[i].1),
            ));
        }
        T::from_bits(&bits)
    }

    /// The public key.
    pub fn public_key(&self) -> (r: &PubKeyTy)
        ensures
            r == self.spec_public_key(),
            pk_well_formed(
                r@,
                self.spec_params().spec_n(),
                self.spec_params().spec_m(),
                self.spec_params().spec_q(),
            ),
    {
        proof {
            use_type_invariant(self);
        }
        &self.public_key
    }

    /// The private key.
    pub fn private_key(&self) -> (r: &PrivKeyTy)
        ensures
            r == self.spec_private_key(),
            sk_well_formed(r@, self.spec_params().spec_n(), self.spec_params().spec_q()),
    {
        proof {
            use_type_invariant(self);
        }
        &self.private_key
    }

    /// The key pair as text: `"Public Key: [...]\nPrivate Key: [...]"`, each pair of the public
    /// key as `([a_0, a_1, ...], b)` and each element of Z_q as `"{residue} (mod {modulus})"`.
    pub fn debug_text(&self) -> (r: String)
        ensures
            r@ == system_text(self.spec_public_key()@, self.spec_private_key()@),
    {
        let ghost parts = self.public_key@.map_values(|row: (Vec<Zq<u64>>, Zq<u64>)| key_row_text(row));
        let mut pk_text = String::from_str("[");
        let ghost start = pk_text@;
        for i in 0..self.public_key.len()
            invariant
                parts == self.public_key@.map_values(|row: (Vec<Zq<u64>>, Zq<u64>)| key_row_text(row)),
                start == "["@,
                pk_text@ == start + joined(parts.take(i as int)),
        {
            let mut row = String::from_str("(");
            let t = list_debug_text(self.public_key[i].0.as_slice());
            row.append(t.as_str());
            row.append(", ");
            let t = self.public_key[i].1.debug_text();
            row.append(t.as_str());
            row.append(")");
            append_item(&mut pk_text, i == 0, row.as_str());
            proof {
                lemma_joined_push(parts, i as int);
                assert(parts[i as int] == key_row_text(self.public_key@[i as int]));
            }
        }
        pk_text.append("]");
        proof {
            assert(parts.take(self.public_key.len() as int) =~= parts);
        }
        let mut out = String::from_str("Public Key: ");
        out.append(pk_text.as_str());
        out.append("\nPrivate Key: ");
        let t = list_debug_text(self.private_key.as_slice());
        out.append(t.as_str());
        out
    }

    /// The parameters.
    pub fn params(&self) -> (r: Params)
        ensures
            r == self.spec_params(),
            r.spec_q() > 0 || (r.spec_n() == 0 && r.spec_m() == 0),
    {
        proof {
            use_type_invariant(self);
        }
        self.params
    }
}

/// `(a, b)` is what `encrypt_bit_with_mask` returns for this public key, parameters, mask and bit.
pub open spec fn encrypts(
    pk: Seq<(Vec<Zq<u64>>, Zq<u64>)>,
    params: Params,
    mask: Seq<bool>,
    x_bit: bool,
    a: Seq<Zq<u64>>,
    b: Zq<u64>,
) -> bool {
    &&& a.len() == params.spec_n()
    &&& all_modulus(a, params.spec_q())
    &&& b.spec_modulus() == params.spec_q()
    &&& forall|j: int|
        0 <= j < params.spec_n() ==> (#[trigger] a[j]).val_nat() == masked_col_sum(
            pk,
            mask,
            params.spec_m() as int,
            j,
        ) % (params.spec_q() as nat)
    &&& b.val_nat() == (masked_b_sum(pk, mask, params.spec_m() as int) + bit_offset(
        x_bit,
        params.spec_q() as nat,
    )) % (params.spec_q() as nat)
}

/// How one pair `(a, b)` of a public key is written: `([a_0, a_1, ...], b)`.
pub open spec fn key_row_text(row: (Vec<Zq<u64>>, Zq<u64>)) -> Seq<char> {
    "("@ + zq_list_text(row.0@) + ", "@ + zq_text(row.1) + ")"@
}

/// How a key pair is written: the public key as a list of its pairs, then the private key.
pub open spec fn system_text(pk: Seq<(Vec<Zq<u64>>, Zq<u64>)>, sk: Seq<Zq<u64>>) -> Seq<char> {
    "Public Key: "@ + list_text(pk.map_values(|row: (Vec<Zq<u64>>, Zq<u64>)| key_row_text(row)))
        + "\nPrivate Key: "@ + zq_list_text(sk)
}

/// The mask selects at least one row: encryption never uses an empty mask, whose ciphertext
/// would carry the bit in the clear.
pub open spec fn mask_nonempty(mask: Seq<bool>) -> bool {
    exists|i: int| 0 <= i < mask.len() && #[trigger] mask[i]
}

/// The mask selects at least one row.
pub fn mask_selects_any(mask: &[bool]) -> (r: bool)
    ensures
        r == mask_nonempty(mask@),
{
    for i in 0..mask.len()
        invariant
            forall|k: int| 0 <= k < i ==> !#[trigger] mask[k],
    {
        if mask[i] {
            return true;
        }
    }
    false
}

/// The sum of the residues at column `j` of the rows `i < k` of `pk` that `mask` selects.
pub open spec fn masked_col_sum(pk: Seq<(Vec<Zq<u64>>, Zq<u64>)>, mask: Seq<bool>, k: int, j: int) -> nat
    decreases k,
{
    if k <= 0 {
        0
    } else if mask[k - 1] {
        masked_col_sum(pk, mask, k - 1, j) + pk[k - 1].0[j].val_nat()
    } else {
        masked_col_sum(pk, mask, k - 1, j)
    }
}

/// The sum of the residues `b_i` of the rows `i < k` of `pk` that `mask` selects.
pub open spec fn masked_b_sum(pk: Seq<(Vec<Zq<u64>>, Zq<u64>)>, mask: Seq<bool>, k: int) -> nat
    decreases k,
{
    if k <= 0 {
        0
    } else if mask[k - 1] {
        masked_b_sum(pk, mask, k - 1) + pk[k - 1].1.val_nat()
    } else {
        masked_b_sum(pk, mask, k - 1)
    }
}

/// The residue that encodes a plaintext bit: floor(q/2) for 1, 0 for 0.
pub open spec fn bit_offset(x_bit: bool, q: nat) -> nat {
    if x_bit {
        q / 2
    } else {
        0
    }
}

/// `(x + y) mod q` with `x` already reduced equals `(x' + y) mod q` for any `x'` with `x = x' mod q`.
proof fn lemma_add_reduced(s: int, r: int, q: int)
    requires
        q > 0,
    ensures
        ((s % q) + r) % q == (s + r) % q,
{
    lemma_add_mod_noop(s % q, r, q);
    lemma_mod_twice(s, q);
    lemma_add_mod_noop(s, r, q);
}

/// The dot product of vectors of residues equals the dot product of the reduced raw values.
pub(crate) proof fn lemma_dot_of_reduced(
    sk: Seq<Zq<u64>>,
    row: Seq<Zq<u64>>,
    secret: Seq<u64>,
    src: Seq<u64>,
    q: nat,
    k: int,
)
    requires
        0 <= k <= sk.len(),
        sk.len() == secret.len(),
        row.len() == src.len(),
        sk.len() == row.len(),
        forall|j: int| 0 <= j < sk.len() ==> (#[trigger] sk[j]).val_nat() == secret[j] as nat % q,
        forall|j: int| 0 <= j < row.len() ==> (#[trigger] row[j]).val_nat() == src[j] as nat % q,
    ensures
        dot_prefix(sk, row, k) == reduced_dot(secret, src, q, k),
    decreases k,
{
    if k > 0 {
        lemma_dot_of_reduced(sk, row, secret, src, q, k - 1);
    }
}

} // verus!
