//! Reference negacyclic products in `Z_q[X]/(X^N+1)`: the quadratic schoolbook
//! product and the product through the transforms.
use crate::modarith::{inv_mod, mul_mod, pow_mod};
use crate::ntt::radix2::{radix2_output, transform_size_ok};
use crate::ntt::spec::{mul_m, pow_m};
use crate::ntt::{intt, mul_ntt, ntt, NttImplementation};
use crate::params::RingParams;
use vstd::arithmetic::div_mod::*;
use vstd::prelude::*;

verus! {

/// The contribution of `a_i * b_j` to coefficient `k` of the negacyclic product of
/// length `n`: `+a_i b_j` when `i + j = k`, `-a_i b_j` when `i + j = k + n`.
pub open spec fn negacyclic_term(a: Seq<u64>, b: Seq<u64>, q: u64, n: int, k: int, i: int, j: int) -> int {
    if i + j == k {
        mul_m(a[i], b[j], q) as int
    } else if i + j == k + n {
        -(mul_m(a[i], b[j], q) as int)
    } else {
        0
    }
}

/// The terms of row `i` with `j' < j`.
pub open spec fn negacyclic_row(a: Seq<u64>, b: Seq<u64>, q: u64, n: int, k: int, i: int, j: int) -> int
    decreases j,
{
    if j <= 0 {
        0
    } else {
        negacyclic_row(a, b, q, n, k, i, j - 1) + negacyclic_term(a, b, q, n, k, i, j - 1)
    }
}

/// The terms of the rows `i' < i`.
pub open spec fn negacyclic_rows(a: Seq<u64>, b: Seq<u64>, q: u64, n: int, k: int, i: int) -> int
    decreases i,
{
    if i <= 0 {
        0
    } else {
        negacyclic_rows(a, b, q, n, k, i - 1) + negacyclic_row(a, b, q, n, k, i - 1, n)
    }
}

/// Coefficient `k` of the negacyclic product of the first `n` words of `a` and `b`,
/// reduced modulo `q`.
pub open spec fn negacyclic_coeff(a: Seq<u64>, b: Seq<u64>, q: u64, n: int, k: int) -> int {
    negacyclic_rows(a, b, q, n, k, n) % (q as int)
}

/// The negacyclic product of `a` and `b` (length `a.len()`).
pub open spec fn negacyclic_product(a: Seq<u64>, b: Seq<u64>, q: u64) -> Seq<u64> {
    Seq::new(a.len(), |k: int| negacyclic_coeff(a, b, q, a.len() as int, k) as u64)
}

/// `a_i * c^i mod q` for the first `n` words.
pub open spec fn twist(a: Seq<u64>, c: u64, q: u64, n: nat) -> Seq<u64> {
    Seq::new(n, |i: int| mul_m(a[i], pow_m(c, i as nat, q), q))
}

/// The negacyclic product through the transforms: twist by `psi`, forward transforms,
/// pointwise product, backward transform, untwist by `psi^(q-2)`.
pub open spec fn negacyclic_via_ntt(a: Seq<u64>, b: Seq<u64>, params: RingParams) -> Seq<u64> {
    let q = params.modulus;
    let n = params.n as nat;
    let psi = params.primitive_2n_root;
    let a_hat = radix2_output(twist(a, psi, q, n), params, false, None);
    let b_hat = radix2_output(twist(b, psi, q, n), params, false, None);
    let c_hat = Seq::new(n, |i: int| mul_m(a_hat[i], b_hat[i], q));
    twist(radix2_output(c_hat, params, true, None), pow_m(psi, (q - 2) as nat, q), q, n)
}

proof fn lemma_row_other(a: Seq<u64>, b: Seq<u64>, q: u64, n: int, k: int, i: int, j: int)
    requires
        0 <= k < n,
        0 <= i < n,
        0 <= j <= n,
    ensures
        i + j < n && k != i + j ==> negacyclic_term(a, b, q, n, k, i, j) == 0,
        i + j >= n && k != i + j - n ==> negacyclic_term(a, b, q, n, k, i, j) == 0,
{
}

/// Adding a term modulo `q` to a reduced partial sum.
proof fn lemma_add_term(t: int, p: int, q: int)
    requires
        q > 0,
    ensures
        ((t % q) + p) % q == (t + p) % q,
{
    lemma_add_mod_noop(t, p, q);
    lemma_add_mod_noop(t % q, p, q);
    lemma_mod_twice(t, q);
}

/// The schoolbook negacyclic product of the first `a.len()` words of `a` and `b`.
pub fn naive_negacyclic_mul(a: &[u64], b: &[u64], q: u64) -> (r: Vec<u64>)
    requires
        q > 0,
        b@.len() >= a@.len(),
        2 * a@.len() <= usize::MAX,
    ensures
        r@ == negacyclic_product(a@, b@, q),
{
    let n = a.len();
    let mut out: Vec<u64> = Vec::new();
    let mut z: usize = 0;
    while z < n
        invariant
            z <= n,
            out@.len() == z,
            forall|k: int| 0 <= k < z ==> #[trigger] out@[k] == 0,
        decreases n - z,
    {
        out.push(0);
        z = z + 1;
    }
    let ghost ni = n as int;
    let ghost qi = q as int;
    proof {
        lemma_small_mod(0, q as nat);
    }
    let mut i: usize = 0;
    while i < n
        invariant
            n == a@.len(),
            2 * n <= usize::MAX,
            ni == n,
            qi == q,
            q > 0,
            b@.len() >= n,
            out@.len() == n,
            i <= n,
            forall|k: int| 0 <= k < n ==> #[trigger] out@[k] as int == negacyclic_rows(a@, b@, q, ni, k, i as int) % qi,
        decreases n - i,
    {
        let mut j: usize = 0;
        while j < n
            invariant
                n == a@.len(),
                2 * n <= usize::MAX,
                ni == n,
                qi == q,
                q > 0,
                b@.len() >= n,
                out@.len() == n,
                i < n,
                j <= n,
                forall|k: int|
                    0 <= k < n ==> #[trigger] out@[k] as int == (negacyclic_rows(a@, b@, q, ni, k, i as int)
                        + negacyclic_row(a@, b@, q, ni, k, i as int, j as int)) % qi,
            decreases n - j,
        {
            let prod = mul_mod(a[i], b[j], q);
            let k = i + j;
            let ghost before = out@;
            proof {
                lemma_mod_bound(a[i as int] * b[j as int], qi);
            }
            if k < n {
                let v = ((out[k] as u128 + prod as u128) % q as u128) as u64;
                out.set(k, v);
            } else {
                let v = ((out[k - n] as u128 + q as u128 - prod as u128) % q as u128) as u64;
                out.set(k - n, v);
            }
            proof {
                assert forall|kk: int| 0 <= kk < n implies #[trigger] out@[kk] as int == (negacyclic_rows(
                    a@,
                    b@,
                    q,
                    ni,
                    kk,
                    i as int,
                ) + negacyclic_row(a@, b@, q, ni, kk, i as int, j + 1)) % qi by {
                    let base = negacyclic_rows(a@, b@, q, ni, kk, i as int) + negacyclic_row(
                        a@,
                        b@,
                        q,
                        ni,
                        kk,
                        i as int,
                        j as int,
                    );
                    lemma_row_other(a@, b@, q, ni, kk, i as int, j as int);
                    if k < n && kk == k {
                        lemma_add_term(base, prod as int, qi);
                    } else if k >= n && kk == k - n {
                        lemma_add_term(base, qi - prod, qi);
                        lemma_mod_add_multiples_vanish(base - prod, qi);
                    }
                }
            }
            j = j + 1;
        }
        i = i + 1;
    }
    assert(out@ =~= negacyclic_product(a@, b@, q));
    out
}

/// The negacyclic product through the transforms.
pub fn negacyclic_ntt_mul(a: &[u64], b: &[u64], params: &RingParams) -> (r: Vec<u64>)
    requires
        params.wf(),
        a@.len() >= params.n,
        b@.len() >= params.n,
        transform_size_ok(params.n as nat, NttImplementation::Radix2),
    ensures
        r@ == negacyclic_via_ntt(a@, b@, *params),
{
    let n = params.n;
    let q = params.modulus;
    let psi = params.primitive_2n_root;
    let psi_inv = inv_mod(psi, q);
    let mut ta: Vec<u64> = Vec::new();
    let mut tb: Vec<u64> = Vec::new();

    let mut i: usize = 0;
    while i < n
        invariant
            params.wf(),
            n == params.n,
            q == params.modulus,
            psi == params.primitive_2n_root,
            a@.len() >= n,
            b@.len() >= n,
            i <= n,
            ta@ == twist(a@, psi, q, n as nat).subrange(0, i as int),
            tb@ == twist(b@, psi, q, n as nat).subrange(0, i as int),
        decreases n - i,
    {
        ta.push(mul_mod(a[i], pow_mod(psi, i as u64, q), q));
        tb.push(mul_mod(b[i], pow_mod(psi, i as u64, q), q));
        i = i + 1;
        assert(ta@ =~= twist(a@, psi, q, n as nat).subrange(0, i as int));
        assert(tb@ =~= twist(b@, psi, q, n as nat).subrange(0, i as int));
    }
    assert(ta@ =~= twist(a@, psi, q, n as nat));
    assert(tb@ =~= twist(b@, psi, q, n as nat));

    let (a_hat, _) = ntt(ta.as_slice(), params, false);
    let (b_hat, _) = ntt(tb.as_slice(), params, false);
    let c_hat = mul_ntt(a_hat.as_slice(), b_hat.as_slice(), q);
    proof {
        crate::ntt::radix2::lemma_radix2_output_len(ta@, *params, false, None);
        crate::ntt::radix2::lemma_radix2_output_len(tb@, *params, false, None);
    }
    assert(c_hat@ =~= Seq::new(n as nat, |k: int| mul_m(a_hat@[k], b_hat@[k], q)));
    let (c, _) = intt(c_hat.as_slice(), params, false);
    proof {
        crate::ntt::radix2::lemma_radix2_output_len(c_hat@, *params, true, None);
    }

    let mut out: Vec<u64> = Vec::new();
    let mut k: usize = 0;
    while k < n
        invariant
            q == params.modulus,
            q >= 2,
            c@.len() == n,
            k <= n,
            out@ == twist(c@, psi_inv, q, n as nat).subrange(0, k as int),
        decreases n - k,
    {
        out.push(mul_mod(c[k], pow_mod(psi_inv, k as u64, q), q));
        k = k + 1;
        assert(out@ =~= twist(c@, psi_inv, q, n as nat).subrange(0, k as int));
    }
    assert(out@ =~= twist(c@, psi_inv, q, n as nat));
    out
}

} // verus!
