//! Correctness of the LWE scheme: a ciphertext decrypts to the bit it encrypts
//! whenever the errors that its mask selects add up to less than about q/4, and so
//! whenever the noises of all rows of the key do.
use crate::ring::threshold_bit;
use crate::zq::{all_modulus, centered_int, dot_prefix, Zq};
use crate::{
    bit_offset, encrypts, lemma_dot_of_reduced, mask_nonempty, masked_b_sum, masked_col_sum, noisy_value, pk_well_formed,
    sk_well_formed, LWESystem, Params,
};
use vstd::arithmetic::div_mod::*;
use vstd::arithmetic::mul::*;
use vstd::prelude::*;

verus! {

/// The sum of the errors of the rows `i < k` that `mask` selects.
pub open spec fn masked_err_sum(errors: Seq<int>, mask: Seq<bool>, k: int) -> int
    decreases k,
{
    if k <= 0 {
        0
    } else if mask[k - 1] {
        masked_err_sum(errors, mask, k - 1) + errors[k - 1]
    } else {
        masked_err_sum(errors, mask, k - 1)
    }
}

/// The sum, over the rows `i < k` that `mask` selects, of `<s, a_i>` over the first `j` positions.
pub open spec fn masked_row_dots(
    pk: Seq<(Vec<Zq<u64>>, Zq<u64>)>,
    sk: Seq<Zq<u64>>,
    mask: Seq<bool>,
    k: int,
    j: int,
) -> int
    decreases k,
{
    if k <= 0 {
        0
    } else if mask[k - 1] {
        masked_row_dots(pk, sk, mask, k - 1, j) + dot_prefix(sk, pk[k - 1].0@, j)
    } else {
        masked_row_dots(pk, sk, mask, k - 1, j)
    }
}

/// The sum over positions `j' < j` of the column sums (over the selected rows `i < k`) times `s_j'`.
pub open spec fn col_dot(
    pk: Seq<(Vec<Zq<u64>>, Zq<u64>)>,
    sk: Seq<Zq<u64>>,
    mask: Seq<bool>,
    k: int,
    j: int,
) -> int
    decreases j,
{
    if j <= 0 {
        0
    } else {
        col_dot(pk, sk, mask, k, j - 1) + masked_col_sum(pk, mask, k, j - 1) * sk[j - 1].val_nat()
    }
}

proof fn lemma_dot_commutes(x: Seq<Zq<u64>>, y: Seq<Zq<u64>>, k: int)
    ensures
        dot_prefix(x, y, k) == dot_prefix(y, x, k),
    decreases k,
{
    if k > 0 {
        lemma_dot_commutes(x, y, k - 1);
        lemma_mul_is_commutative(x[k - 1].val_nat() as int, y[k - 1].val_nat() as int);
    }
}

/// One more position in the inner products of the selected rows adds the column sum times `s_j`.
proof fn lemma_row_dots_step(
    pk: Seq<(Vec<Zq<u64>>, Zq<u64>)>,
    sk: Seq<Zq<u64>>,
    mask: Seq<bool>,
    k: int,
    j: int,
)
    requires
        j >= 0,
    ensures
        masked_row_dots(pk, sk, mask, k, j + 1) == masked_row_dots(pk, sk, mask, k, j)
            + masked_col_sum(pk, mask, k, j) * sk[j].val_nat(),
    decreases k,
{
    if k > 0 {
        lemma_row_dots_step(pk, sk, mask, k - 1, j);
        if mask[k - 1] {
            lemma_mul_is_distributive_add_other_way(
                sk[j].val_nat() as int,
                masked_col_sum(pk, mask, k - 1, j) as int,
                pk[k - 1].0[j].val_nat() as int,
            );
            lemma_mul_is_commutative(sk[j].val_nat() as int, pk[k - 1].0[j].val_nat() as int);
            assert(dot_prefix(sk, pk[k - 1].0@, j + 1) == dot_prefix(sk, pk[k - 1].0@, j)
                + sk[j].val_nat() * pk[k - 1].0@[j].val_nat());
        }
    } else {
        lemma_mul_basics(sk[j].val_nat() as int);
    }
}

/// Summing the selected rows first and then taking the inner product with `s` is the same as
/// summing their inner products with `s`.
proof fn lemma_col_dot_is_row_dots(
    pk: Seq<(Vec<Zq<u64>>, Zq<u64>)>,
    sk: Seq<Zq<u64>>,
    mask: Seq<bool>,
    k: int,
    j: int,
)
    requires
        j >= 0,
    ensures
        col_dot(pk, sk, mask, k, j) == masked_row_dots(pk, sk, mask, k, j),
    decreases j,
{
    if j > 0 {
        lemma_col_dot_is_row_dots(pk, sk, mask, k, j - 1);
        lemma_row_dots_step(pk, sk, mask, k, j - 1);
    } else {
        lemma_row_dots_zero(pk, sk, mask, k);
    }
}

proof fn lemma_row_dots_zero(pk: Seq<(Vec<Zq<u64>>, Zq<u64>)>, sk: Seq<Zq<u64>>, mask: Seq<bool>, k: int)
    ensures
        masked_row_dots(pk, sk, mask, k, 0) == 0,
    decreases k,
{
    if k > 0 {
        lemma_row_dots_zero(pk, sk, mask, k - 1);
    }
}

/// Congruent summands give congruent sums.
proof fn lemma_add_congruent(x: int, y: int, x2: int, y2: int, q: int)
    requires
        q > 0,
        x % q == x2 % q,
        y % q == y2 % q,
    ensures
        (x + y) % q == (x2 + y2) % q,
{
    lemma_add_mod_noop(x, y, q);
    lemma_add_mod_noop(x2, y2, q);
}

/// The inner product of the reduced column sums with `s` is congruent to the unreduced one.
proof fn lemma_dot_of_reduced_columns(
    pk: Seq<(Vec<Zq<u64>>, Zq<u64>)>,
    sk: Seq<Zq<u64>>,
    mask: Seq<bool>,
    a: Seq<Zq<u64>>,
    k: int,
    q: int,
    j: int,
)
    requires
        q > 0,
        0 <= j <= a.len(),
        forall|t: int| 0 <= t < a.len() ==> (#[trigger] a[t]).val_nat() == masked_col_sum(pk, mask, k, t) % (q as nat),
    ensures
        (dot_prefix(a, sk, j) as int) % q == col_dot(pk, sk, mask, k, j) % q,
    decreases j,
{
    if j > 0 {
        lemma_dot_of_reduced_columns(pk, sk, mask, a, k, q, j - 1);
        let c = masked_col_sum(pk, mask, k, j - 1) as int;
        let s = sk[j - 1].val_nat() as int;
        lemma_mul_mod_noop_left(c, s, q);
        lemma_add_congruent(
            dot_prefix(a, sk, j - 1) as int,
            a[j - 1].val_nat() * s,
            col_dot(pk, sk, mask, k, j - 1),
            c * s,
            q,
        );
    }
}

/// The sum of the selected public values is congruent to the sum of their inner products plus
/// the sum of their errors.
proof fn lemma_b_sum(
    pk: Seq<(Vec<Zq<u64>>, Zq<u64>)>,
    sk: Seq<Zq<u64>>,
    errors: Seq<int>,
    mask: Seq<bool>,
    q: int,
    k: int,
)
    requires
        q > 0,
        0 <= k <= pk.len(),
        pk.len() <= errors.len(),
        forall|i: int|
            0 <= i < pk.len() ==> (#[trigger] pk[i]).1.val_nat() as int % q == (dot_prefix(
                sk,
                pk[i].0@,
                sk.len() as int,
            ) + errors[i]) % q,
    ensures
        (masked_b_sum(pk, mask, k) as int) % q == (masked_row_dots(pk, sk, mask, k, sk.len() as int)
            + masked_err_sum(errors, mask, k)) % q,
    decreases k,
{
    if k > 0 {
        lemma_b_sum(pk, sk, errors, mask, q, k - 1);
        if mask[k - 1] {
            let d = dot_prefix(sk, pk[k - 1].0@, sk.len() as int) as int;
            lemma_add_congruent(
                masked_b_sum(pk, mask, k - 1) as int,
                pk[k - 1].1.val_nat() as int,
                masked_row_dots(pk, sk, mask, k - 1, sk.len() as int) + masked_err_sum(
                    errors,
                    mask,
                    k - 1,
                ),
                d + errors[k - 1],
                q,
            );
        }
    }
}

/// The centred residue is congruent to the residue.
proof fn lemma_centered_congruent(x: int, q: int)
    requires
        q > 0,
    ensures
        centered_int((x % q) as nat, q as nat) % q == x % q,
{
    let v = x % q;
    lemma_mod_twice(x, q);
    if v > q / 2 {
        lemma_mod_sub_multiples_vanish(v, q);
    }
}

/// `q/4 <= (e + offset) mod q <= 3q/4` holds exactly for a 1 bit, when the error is small.
proof fn lemma_threshold_small_noise(e: int, x_bit: bool, q: int)
    requires
        q > 0,
        4 * (if e < 0 { -e } else { e } + 1) <= q,
    ensures
        threshold_bit((e + bit_offset(x_bit, q as nat)) % q, q) == x_bit,
{
    let t = e + bit_offset(x_bit, q as nat);
    if x_bit {
        lemma_small_mod(t as nat, q as nat);
    } else if e >= 0 {
        lemma_small_mod(e as nat, q as nat);
    } else {
        lemma_mod_add_multiples_vanish(e, q);
        lemma_small_mod((q + e) as nat, q as nat);
    }
}

/// The arithmetic core of the correctness laws: when each public value is congruent to the inner
/// product of its vector with the secret plus an error, a ciphertext built from the rows that a
/// mask selects decrypts to its bit if the selected errors add up to `E` with `4 (|E| + 1) <= q`.
proof fn lemma_decrypt_core(
    sk: Seq<Zq<u64>>,
    pk: Seq<(Vec<Zq<u64>>, Zq<u64>)>,
    errs: Seq<int>,
    q: u64,
    mask: Seq<bool>,
    x_bit: bool,
    a: Seq<Zq<u64>>,
    b: Zq<u64>,
)
    requires
        q > 0,
        pk.len() == errs.len(),
        mask.len() == pk.len(),
        forall|i: int|
            0 <= i < pk.len() ==> (#[trigger] pk[i]).1.val_nat() as int % (q as int) == (dot_prefix(
                sk,
                pk[i].0@,
                sk.len() as int,
            ) + errs[i]) % (q as int),
        a.len() == sk.len(),
        forall|j: int|
            0 <= j < a.len() ==> (#[trigger] a[j]).val_nat() == masked_col_sum(pk, mask, pk.len() as int, j)
                % (q as nat),
        b.val_nat() == (masked_b_sum(pk, mask, pk.len() as int) + bit_offset(x_bit, q as nat)) % (
        q as nat),
        4 * ({
            let e = masked_err_sum(errs, mask, pk.len() as int);
            if e < 0 {
                -e
            } else {
                e
            }
        } + 1) <= q,
    ensures
        threshold_bit(
            (b.val_nat() - dot_prefix(a, sk, sk.len() as int) % (q as nat)) % (q as int),
            q as int,
        ) == x_bit,
{
    let qi = q as int;
    let n = sk.len() as int;
    let m = pk.len() as int;
    lemma_b_sum(pk, sk, errs, mask, qi, m);
    let rows = masked_row_dots(pk, sk, mask, m, n);
    let e = masked_err_sum(errs, mask, m);
    let off = bit_offset(x_bit, q as nat) as int;
    let bsum = masked_b_sum(pk, mask, m) as int;
    // The inner product of a with s is congruent to the sum of the selected inner products.
    lemma_dot_of_reduced_columns(pk, sk, mask, a, m, qi, n);
    lemma_col_dot_is_row_dots(pk, sk, mask, m, n);
    let d = dot_prefix(a, sk, n) as int;
    // b - <a, s> is congruent to the sum of the selected errors plus the offset.
    lemma_add_congruent(bsum, off, rows + e, off, qi);
    lemma_sub_mod_noop(rows + e + off, rows, qi);
    lemma_mod_twice(d, qi);
    assert((b.val_nat() - d % qi) % qi == (e + off) % qi) by {
        lemma_sub_mod_noop(b.val_nat() as int, d % qi, qi);
        lemma_mod_twice(bsum + off, qi);
        lemma_sub_mod_noop(bsum + off, d, qi);
    }
    lemma_threshold_small_noise(e, x_bit, qi);
}

/// The errors of a key, as integers.
pub open spec fn errors_int(errors: Seq<i64>) -> Seq<int> {
    errors.map_values(|e: i64| e as int)
}

/// What `key_gen_from_samples` makes of its samples satisfies the hypothesis of the core lemma.
proof fn lemma_decrypt_encrypt(
    secret: Seq<u64>,
    matrix: Seq<Vec<u64>>,
    errors: Seq<i64>,
    q: u64,
    sk: Seq<Zq<u64>>,
    pk: Seq<(Vec<Zq<u64>>, Zq<u64>)>,
    mask: Seq<bool>,
    x_bit: bool,
    a: Seq<Zq<u64>>,
    b: Zq<u64>,
)
    requires
        q > 0,
        matrix.len() == errors.len(),
        forall|i: int| 0 <= i < matrix.len() ==> (#[trigger] matrix[i]).len() == secret.len(),
        sk.len() == secret.len(),
        pk.len() == matrix.len(),
        forall|j: int| 0 <= j < sk.len() ==> (#[trigger] sk[j]).val_nat() == secret[j] as nat % (q as nat),
        forall|i: int| 0 <= i < pk.len() ==> (#[trigger] pk[i]).0.len() == secret.len(),
        forall|i: int, j: int|
            0 <= i < pk.len() && 0 <= j < secret.len() ==> (#[trigger] pk[i].0[j]).val_nat()
                == matrix[i][j] as nat % (q as nat),
        forall|i: int|
            0 <= i < pk.len() ==> (#[trigger] pk[i].1).val_nat() == noisy_value(
                secret,
                matrix[i]@,
                errors[i],
                q as nat,
            ) % (q as int),
        mask.len() == pk.len(),
        a.len() == secret.len(),
        forall|j: int|
            0 <= j < a.len() ==> (#[trigger] a[j]).val_nat() == masked_col_sum(pk, mask, pk.len() as int, j)
                % (q as nat),
        b.val_nat() == (masked_b_sum(pk, mask, pk.len() as int) + bit_offset(x_bit, q as nat)) % (
        q as nat),
        4 * ({
            let e = masked_err_sum(errors_int(errors), mask, pk.len() as int);
            if e < 0 {
                -e
            } else {
                e
            }
        } + 1) <= q,
    ensures
        threshold_bit(
            (b.val_nat() - dot_prefix(a, sk, secret.len() as int) % (q as nat)) % (q as int),
            q as int,
        ) == x_bit,
{
    let qi = q as int;
    let n = secret.len() as int;
    let errs = errors_int(errors);
    // Each public value is congruent to the inner product plus the error.
    assert forall|i: int| 0 <= i < pk.len() implies (#[trigger] pk[i]).1.val_nat() as int % qi == (
    dot_prefix(sk, pk[i].0@, n) + errs[i]) % qi by {
        let row = pk[i].0@;
        lemma_dot_of_reduced(sk, row, secret, matrix[i]@, q as nat, n);
        let d = dot_prefix(sk, row, n) as int;
        lemma_centered_congruent(d, qi);
        lemma_add_congruent(centered_int((d % qi) as nat, q as nat), errors[i] as int, d, errors[i] as int, qi);
        lemma_mod_twice(noisy_value(secret, matrix[i]@, errors[i], q as nat), qi);
    }
    lemma_decrypt_core(sk, pk, errs, q, mask, x_bit, a, b);
}

/// What `key_gen_from_samples` returns for `secret`, `matrix`, `errors` and `q`.
pub open spec fn key_from_samples(
    sys: LWESystem,
    secret: Seq<u64>,
    matrix: Seq<Vec<u64>>,
    errors: Seq<i64>,
    q: u64,
) -> bool {
    let sk = sys.spec_private_key()@;
    let pk = sys.spec_public_key()@;
    &&& q > 0
    &&& sys.spec_params().spec_n() == secret.len()
    &&& sys.spec_params().spec_m() == matrix.len()
    &&& sys.spec_params().spec_q() == q
    &&& matrix.len() == errors.len()
    &&& forall|i: int| 0 <= i < matrix.len() ==> (#[trigger] matrix[i]).len() == secret.len()
    &&& sk.len() == secret.len()
    &&& pk.len() == matrix.len()
    &&& forall|j: int| 0 <= j < sk.len() ==> (#[trigger] sk[j]).val_nat() == secret[j] as nat % (q as nat)
    &&& forall|i: int| 0 <= i < pk.len() ==> (#[trigger] pk[i]).0.len() == secret.len()
    &&& forall|i: int, j: int|
        0 <= i < pk.len() && 0 <= j < secret.len() ==> (#[trigger] pk[i].0[j]).val_nat()
            == matrix[i][j] as nat % (q as nat)
    &&& forall|i: int|
        0 <= i < pk.len() ==> (#[trigger] pk[i].1).val_nat() == noisy_value(
            secret,
            matrix[i]@,
            errors[i],
            q as nat,
        ) % (q as int)
}

/// The absolute value of the sum of the errors of the rows that `mask` selects.
pub open spec fn selected_noise(errors: Seq<i64>, mask: Seq<bool>) -> int {
    let e = masked_err_sum(errors_int(errors), mask, mask.len() as int);
    if e < 0 {
        -e
    } else {
        e
    }
}

/// With a single public sample, the only mask that encryption takes is `[true]`: the
/// ciphertext of a bit is the sample's vector itself, and the sample's value plus floor(q/2)
/// for a 1 bit, modulo q.
pub proof fn law_single_row_encryption(
    pk: Seq<(Vec<Zq<u64>>, Zq<u64>)>,
    params: Params,
    mask: Seq<bool>,
    x_bit: bool,
    a: Seq<Zq<u64>>,
    b: Zq<u64>,
)
    requires
        params.spec_m() == 1,
        params.spec_q() > 0,
        pk_well_formed(pk, params.spec_n(), 1, params.spec_q()),
        forall|j: int| 0 <= j < params.spec_n() ==> (#[trigger] pk[0].0[j]).val_nat() < params.spec_q(),
        pk[0].1.val_nat() < params.spec_q(),
        mask.len() == 1,
        mask_nonempty(mask),
        encrypts(pk, params, mask, x_bit, a, b),
    ensures
        mask == seq![true],
        a == pk[0].0@,
        b.spec_modulus() == params.spec_q(),
        b.val_nat() == (pk[0].1.val_nat() + bit_offset(x_bit, params.spec_q() as nat)) % (
        params.spec_q() as nat),
{
    let q = params.spec_q();
    let row = pk[0].0@;
    assert(mask[0]);
    assert(mask =~= seq![true]);
    assert(all_modulus(row, q));
    assert forall|j: int| 0 <= j < a.len() implies #[trigger] a[j] == row[j] by {
        assert(masked_col_sum(pk, mask, 0, j) == 0);
        assert(masked_col_sum(pk, mask, 1, j) == row[j].val_nat());
        lemma_small_mod(row[j].val_nat(), q as nat);
        a[j].lemma_ext(row[j]);
    }
    assert(a =~= row);
    assert(masked_b_sum(pk, mask, 0) == 0);
    assert(masked_b_sum(pk, mask, 1) == pk[0].1.val_nat());
}

/// Correctness of encryption and decryption: let `sys` be what `key_gen_from_samples` makes of
/// `secret`, `matrix` and `errors`, and `(a, b)` what `encrypt_bit_with_mask` makes of its public
/// key, its parameters, a mask and a bit. If the errors of the rows that the mask selects add up
/// to `E` with `4 (|E| + 1) <= q`, then `decrypt_bit` gives back the bit.
pub proof fn law_decrypt_encrypt(
    sys: LWESystem,
    secret: Seq<u64>,
    matrix: Seq<Vec<u64>>,
    errors: Seq<i64>,
    q: u64,
    mask: Seq<bool>,
    x_bit: bool,
    a: Seq<Zq<u64>>,
    b: Zq<u64>,
)
    requires
        key_from_samples(sys, secret, matrix, errors, q),
        mask.len() == matrix.len(),
        a.len() == secret.len(),
        forall|j: int|
            0 <= j < a.len() ==> (#[trigger] a[j]).val_nat() == masked_col_sum(
                sys.spec_public_key()@,
                mask,
                matrix.len() as int,
                j,
            ) % (q as nat),
        b.val_nat() == (masked_b_sum(sys.spec_public_key()@, mask, matrix.len() as int)
            + bit_offset(x_bit, q as nat)) % (q as nat),
        4 * (selected_noise(errors, mask) + 1) <= q,
    ensures
        sys.decrypted_bit(a, b) == x_bit,
{
    lemma_decrypt_encrypt(
        secret,
        matrix,
        errors,
        q,
        sys.spec_private_key()@,
        sys.spec_public_key()@,
        mask,
        x_bit,
        a,
        b,
    );
}

/// A row `(a_i, b_i)` of the public key, taken as a ciphertext, decrypts to 0 when its error `e_i`
/// satisfies `4 (|e_i| + 1) <= q`.
pub proof fn law_key_row_decrypts_to_zero(
    sys: LWESystem,
    secret: Seq<u64>,
    matrix: Seq<Vec<u64>>,
    errors: Seq<i64>,
    q: u64,
    i: int,
)
    requires
        key_from_samples(sys, secret, matrix, errors, q),
        0 <= i < matrix.len(),
        4 * ((if errors[i] < 0 { -errors[i] } else { errors[i] as int }) + 1) <= q,
    ensures
        !sys.decrypted_bit(sys.spec_public_key()@[i].0@, sys.spec_public_key()@[i].1),
{
    let sk = sys.spec_private_key()@;
    let pk = sys.spec_public_key()@;
    let qi = q as int;
    let n = secret.len() as int;
    let row = pk[i].0@;
    lemma_dot_of_reduced(sk, row, secret, matrix[i]@, q as nat, n);
    let d = dot_prefix(sk, row, n) as int;
    lemma_dot_commutes(row, sk, n);
    lemma_centered_congruent(d, qi);
    let c = centered_int((d % qi) as nat, q as nat);
    let e = errors[i] as int;
    lemma_add_congruent(c, e, d, e, qi);
    lemma_mod_twice(c + e, qi);
    lemma_sub_mod_noop(pk[i].1.val_nat() as int, d, qi);
    lemma_sub_mod_noop(d + e, d, qi);
    lemma_mod_twice(d, qi);
    lemma_sub_mod_noop(pk[i].1.val_nat() as int, d % qi, qi);
    lemma_threshold_small_noise(e, false, qi);
}

/// The noise of row `i` of the public key: `b_i - <a_i, s>` modulo q, centred into `(-q/2, q/2]`
/// (what `(b_i - dot(a_i, s)).to_signed()` gives).
pub open spec fn key_row_noise(sys: LWESystem, i: int) -> int {
    let pk = sys.spec_public_key()@;
    let q = sys.spec_params().spec_q() as int;
    let d = dot_prefix(pk[i].0@, sys.spec_private_key()@, sys.spec_params().spec_n() as int);
    centered_int(((pk[i].1.val_nat() - (d as int) % q) % q) as nat, q as nat)
}

/// The noises of all rows of the public key.
pub open spec fn key_noise(sys: LWESystem) -> Seq<int> {
    Seq::new(sys.spec_params().spec_m(), |i: int| key_row_noise(sys, i))
}

/// The sum of the absolute values of `s[0..k]`.
pub open spec fn abs_sum(s: Seq<int>, k: int) -> int
    decreases k,
{
    if k <= 0 {
        0
    } else {
        abs_sum(s, k - 1) + if s[k - 1] < 0 {
            -s[k - 1]
        } else {
            s[k - 1]
        }
    }
}

/// The sum of the selected values is bounded, in absolute value, by the sum of all absolute values.
proof fn lemma_masked_sum_bound(s: Seq<int>, mask: Seq<bool>, k: int)
    ensures
        -abs_sum(s, k) <= masked_err_sum(s, mask, k) <= abs_sum(s, k),
    decreases k,
{
    if k > 0 {
        lemma_masked_sum_bound(s, mask, k - 1);
    }
}

/// Correctness of encryption and decryption for any key, in terms of the key's own noise: let
/// `(a, b)` be what `encrypt_bit_with_mask` makes of the public key of `sys`, its parameters, a
/// mask and a bit. If the centred noises `b_i - <a_i, s>` of all rows of the public key add up, in
/// absolute value, to less than floor(q/4), then `decrypt_bit` gives back the bit.
pub proof fn law_decrypt_encrypt_key_noise(
    sys: LWESystem,
    mask: Seq<bool>,
    x_bit: bool,
    a: Seq<Zq<u64>>,
    b: Zq<u64>,
)
    requires
        sys.spec_params().spec_q() > 0,
        sk_well_formed(
            sys.spec_private_key()@,
            sys.spec_params().spec_n(),
            sys.spec_params().spec_q(),
        ),
        pk_well_formed(
            sys.spec_public_key()@,
            sys.spec_params().spec_n(),
            sys.spec_params().spec_m(),
            sys.spec_params().spec_q(),
        ),
        mask.len() == sys.spec_params().spec_m(),
        a.len() == sys.spec_params().spec_n(),
        forall|j: int|
            0 <= j < a.len() ==> (#[trigger] a[j]).val_nat() == masked_col_sum(
                sys.spec_public_key()@,
                mask,
                sys.spec_params().spec_m() as int,
                j,
            ) % (sys.spec_params().spec_q() as nat),
        b.val_nat() == (masked_b_sum(
            sys.spec_public_key()@,
            mask,
            sys.spec_params().spec_m() as int,
        ) + bit_offset(x_bit, sys.spec_params().spec_q() as nat)) % (
        sys.spec_params().spec_q() as nat),
        abs_sum(key_noise(sys), sys.spec_params().spec_m() as int) < sys.spec_params().spec_q()
            / 4,
    ensures
        sys.decrypted_bit(a, b) == x_bit,
{
    let sk = sys.spec_private_key()@;
    let pk = sys.spec_public_key()@;
    let q = sys.spec_params().spec_q();
    let qi = q as int;
    let n = sk.len() as int;
    let m = pk.len() as int;
    let errs = key_noise(sys);
    assert forall|i: int| 0 <= i < pk.len() implies (#[trigger] pk[i]).1.val_nat() as int % qi == (
    dot_prefix(sk, pk[i].0@, n) + errs[i]) % qi by {
        let bi = pk[i].1.val_nat() as int;
        let d = dot_prefix(pk[i].0@, sk, n) as int;
        lemma_dot_commutes(pk[i].0@, sk, n);
        lemma_centered_congruent(bi - d % qi, qi);
        lemma_sub_mod_noop(bi, d % qi, qi);
        lemma_mod_twice(d, qi);
        lemma_sub_mod_noop(bi, d, qi);
        assert(errs[i] % qi == (bi - d) % qi);
        lemma_add_congruent(d, errs[i], d, bi - d, qi);
    }
    lemma_masked_sum_bound(errs, mask, m);
    lemma_decrypt_core(sk, pk, errs, q, mask, x_bit, a, b);
}

/// Decryption undoes encryption of a bit string: if `ct` is what `encrypt_bits_with_masks` makes
/// of the public key of `sys`, `bits` and some masks, and the centred noises of the key add up to
/// less than floor(q/4), the bits that `decrypt` decodes are `bits`.
pub proof fn law_decrypt_encrypt_bits(
    sys: LWESystem,
    bits: Seq<bool>,
    masks: Seq<Vec<bool>>,
    ct: Seq<(Vec<Zq<u64>>, Zq<u64>)>,
)
    requires
        sys.spec_params().spec_q() > 0,
        sk_well_formed(
            sys.spec_private_key()@,
            sys.spec_params().spec_n(),
            sys.spec_params().spec_q(),
        ),
        pk_well_formed(
            sys.spec_public_key()@,
            sys.spec_params().spec_n(),
            sys.spec_params().spec_m(),
            sys.spec_params().spec_q(),
        ),
        masks.len() == bits.len(),
        ct.len() == bits.len(),
        forall|i: int| 0 <= i < masks.len() ==> (#[trigger] masks[i]).len() == sys.spec_params().spec_m(),
        forall|i: int|
            0 <= i < ct.len() ==> encrypts(
                sys.spec_public_key()@,
                sys.spec_params(),
                masks[i]@,
                bits[i],
                (#[trigger] ct[i]).0@,
                ct[i].1,
            ),
        abs_sum(key_noise(sys), sys.spec_params().spec_m() as int) < sys.spec_params().spec_q()
            / 4,
    ensures
        Seq::new(ct.len(), |i: int| sys.decrypted_bit(ct[i].0@, ct[i].1)) == bits,
{
    assert forall|i: int| 0 <= i < ct.len() implies sys.decrypted_bit(#[trigger] ct[i].0@, ct[i].1) == bits[i] by {
        law_decrypt_encrypt_key_noise(sys, masks[i]@, bits[i], ct[i].0@, ct[i].1);
    }
    assert(Seq::new(ct.len(), |i: int| sys.decrypted_bit(ct[i].0@, ct[i].1)) =~= bits);
}

} // verus!
