//! Polynomial evaluation for splitting, Lagrange interpolation for joining.
use vstd::prelude::*;
use crate::error::{new_vec, other_io_err, Error, ErrorKind};
use crate::gf256::{
    gf_div, gf_inv, gf_mul, lemma_mul_associative, lemma_mul_commutative, lemma_mul_distributive,
    lemma_mul_distributive_left, lemma_mul_inverse, lemma_mul_one_zero, Gf256,
};

verus! {

/// `x` to the power `i` in the field.
pub open spec fn gf_pow(x: u8, i: nat) -> u8
    decreases i,
{
    if i == 0 {
        1
    } else {
        gf_mul(gf_pow(x, (i - 1) as nat), x)
    }
}

/// The sum of the first `m` terms `x^i * cs[i]`.
pub open spec fn eval_upto(cs: Seq<u8>, x: u8, m: nat) -> u8
    decreases m,
{
    if m == 0 {
        0
    } else {
        eval_upto(cs, x, (m - 1) as nat) ^ gf_mul(gf_pow(x, (m - 1) as nat), cs[m - 1])
    }
}

/// The polynomial with coefficients `cs` (constant term first) evaluated at `x`.
pub open spec fn poly_eval(cs: Seq<u8>, x: u8) -> u8 {
    eval_upto(cs, x, cs.len())
}

/// The x-coordinates of `pts` are pairwise distinct.
pub open spec fn distinct_xs(pts: Seq<(u8, u8)>) -> bool {
    forall|i: int, j: int| 0 <= i < pts.len() && 0 <= j < pts.len() && i != j ==> pts[i].0 != pts[j].0
}

/// The first `m` factors `(x - x_j) / (x_i - x_j)`, `j != i`, of the Lagrange basis polynomial `i`.
pub open spec fn basis_upto(pts: Seq<(u8, u8)>, i: int, x: u8, m: nat) -> u8
    decreases m,
{
    if m == 0 {
        1
    } else {
        let l = basis_upto(pts, i, x, (m - 1) as nat);
        if m - 1 == i {
            l
        } else {
            gf_div(gf_mul(l, x ^ pts[m - 1].0), pts[i].0 ^ pts[m - 1].0)
        }
    }
}

/// The sum of the first `m` terms `L_i(x) * y_i`.
pub open spec fn lagrange_upto(pts: Seq<(u8, u8)>, x: u8, m: nat) -> u8
    decreases m,
{
    if m == 0 {
        0
    } else {
        lagrange_upto(pts, x, (m - 1) as nat) ^ gf_mul(
            basis_upto(pts, m - 1, x, pts.len()),
            pts[m - 1].1,
        )
    }
}

/// The polynomial through the points `pts`, evaluated at `x`.
pub open spec fn lagrange_at(pts: Seq<(u8, u8)>, x: u8) -> u8 {
    lagrange_upto(pts, x, pts.len())
}

/// The difference of two distinct elements is nonzero.
pub proof fn lemma_xor_distinct(a: u8, b: u8)
    requires
        a != b,
    ensures
        a ^ b != 0,
{
    assert(a != b ==> a ^ b != 0) by (bit_vector);
}

/// A polynomial with two coefficients `s`, `a1` takes the value `s + x * a1` at `x`.
pub proof fn lemma_eval_two(s: u8, a1: u8, x: u8)
    ensures
        poly_eval(seq![s, a1], x) == s ^ gf_mul(x, a1),
{
    let cs = seq![s, a1];
    lemma_mul_one_zero(s);
    lemma_mul_commutative(1, s);
    lemma_mul_one_zero(x);
    lemma_mul_commutative(1, x);
    assert(gf_pow(x, 0) == 1);
    assert(gf_pow(x, 1) == gf_mul(1, x));
    assert(0u8 ^ s == s) by (bit_vector);
    assert(eval_upto(cs, x, 0) == 0);
    assert(cs[0] == s && cs[1] == a1);
    assert(eval_upto(cs, x, 1) == 0u8 ^ gf_mul(1, s));
    assert(eval_upto(cs, x, 2) == eval_upto(cs, x, 1) ^ gf_mul(gf_pow(x, 1), a1));
}

/// With two coefficients, one share at a nonzero x fits every secret byte `v`, each with
/// exactly one choice of the random coefficient.
pub proof fn lemma_one_share_hides_byte(x1: u8, y1: u8, v: u8)
    requires
        x1 != 0,
    ensures
        exists|a1: u8| poly_eval(seq![v, a1], x1) == y1,
        forall|a: u8, b: u8|
            poly_eval(seq![v, a], x1) == y1 && poly_eval(seq![v, b], x1) == y1 ==> a == b,
{
    let inv = gf_inv(x1);
    let w = gf_mul(inv, y1 ^ v);
    lemma_mul_inverse(x1);
    lemma_mul_associative(x1, inv, y1 ^ v);
    lemma_mul_commutative(1, y1 ^ v);
    lemma_mul_one_zero(y1 ^ v);
    lemma_eval_two(v, w, x1);
    assert(v ^ (y1 ^ v) == y1) by (bit_vector);
    assert(poly_eval(seq![v, w], x1) == y1);
    assert forall|a: u8, b: u8|
        poly_eval(seq![v, a], x1) == y1 && poly_eval(seq![v, b], x1) == y1 implies a == b by {
        lemma_eval_two(v, a, x1);
        lemma_eval_two(v, b, x1);
        let p = gf_mul(x1, a);
        let q = gf_mul(x1, b);
        assert(v ^ p == v ^ q ==> p == q) by (bit_vector);
        lemma_mul_associative(inv, x1, a);
        lemma_mul_associative(inv, x1, b);
        lemma_mul_commutative(inv, x1);
        lemma_mul_commutative(1, a);
        lemma_mul_commutative(1, b);
        lemma_mul_one_zero(a);
        lemma_mul_one_zero(b);
    }
}

/// A constant polynomial takes its constant everywhere.
pub proof fn lemma_eval_one(s: u8, x: u8)
    ensures
        poly_eval(seq![s], x) == s,
{
    let cs = seq![s];
    lemma_mul_one_zero(s);
    lemma_mul_commutative(1, s);
    assert(gf_pow(x, 0) == 1);
    assert(eval_upto(cs, x, 0) == 0);
    assert(0u8 ^ s == s) by (bit_vector);
}

/// With one coefficient, the single share is the secret byte itself.
pub proof fn lemma_round_trip_one(s: u8, x1: u8)
    ensures
        lagrange_at(seq![(x1, poly_eval(seq![s], x1))], 0) == s,
{
    let cs = seq![s];
    let pts = seq![(x1, poly_eval(cs, x1))];
    lemma_mul_one_zero(s);
    lemma_mul_commutative(1, s);
    assert(gf_pow(x1, 0) == 1);
    assert(eval_upto(cs, x1, 0) == 0);
    assert(0u8 ^ s == s) by (bit_vector);
    assert(poly_eval(cs, x1) == s);
    assert(basis_upto(pts, 0, 0, 0) == 1);
    assert(basis_upto(pts, 0, 0, 1) == 1);
    assert(lagrange_upto(pts, 0, 0) == 0);
}

/// With two coefficients, interpolating any two distinct points of the polynomial at
/// zero gives back its constant term.
pub proof fn lemma_round_trip_two(s: u8, a1: u8, x1: u8, x2: u8)
    requires
        x1 != x2,
    ensures
        lagrange_at(
            seq![(x1, poly_eval(seq![s, a1], x1)), (x2, poly_eval(seq![s, a1], x2))],
            0,
        ) == s,
{
    let cs = seq![s, a1];
    let pts = seq![(x1, poly_eval(cs, x1)), (x2, poly_eval(cs, x2))];
    lemma_eval_two(s, a1, x1);
    lemma_eval_two(s, a1, x2);
    let y1 = s ^ gf_mul(x1, a1);
    let y2 = s ^ gf_mul(x2, a1);
    let d = x1 ^ x2;
    assert(x2 ^ x1 == d && 0u8 ^ x1 == x1 && 0u8 ^ x2 == x2 && (x1 != x2 ==> d != 0)) by (bit_vector)
        requires
            d == x1 ^ x2,
    ;
    let inv = gf_inv(d);
    let l0 = gf_mul(x2, inv);
    let l1 = gf_mul(x1, inv);
    lemma_mul_one_zero(x2);
    lemma_mul_commutative(1, x2);
    lemma_mul_one_zero(x1);
    lemma_mul_commutative(1, x1);
    assert(basis_upto(pts, 0, 0, 2) == l0) by {
        assert(basis_upto(pts, 0, 0, 0) == 1);
        assert(basis_upto(pts, 0, 0, 1) == 1);
    }
    assert(basis_upto(pts, 1, 0, 2) == l1) by {
        assert(basis_upto(pts, 1, 0, 0) == 1);
        assert(basis_upto(pts, 1, 0, 1) == gf_div(gf_mul(1, 0u8 ^ x1), x2 ^ x1));
    }
    let r = lagrange_at(pts, 0);
    assert(pts.len() == 2 && pts[0].1 == y1 && pts[1].1 == y2);
    assert(lagrange_upto(pts, 0, 0) == 0);
    assert(lagrange_upto(pts, 0, 1) == 0u8 ^ gf_mul(l0, y1));
    assert(r == (0u8 ^ gf_mul(l0, y1)) ^ gf_mul(l1, y2));
    let ta = gf_mul(l0, gf_mul(x1, a1));
    let tb = gf_mul(l1, gf_mul(x2, a1));
    lemma_mul_distributive(l0, s, gf_mul(x1, a1));
    lemma_mul_distributive(l1, s, gf_mul(x2, a1));
    lemma_mul_associative(l0, x1, a1);
    lemma_mul_associative(l1, x2, a1);
    lemma_mul_commutative(l0, x1);
    lemma_mul_commutative(l1, x2);
    lemma_mul_associative(x1, x2, inv);
    lemma_mul_associative(x2, x1, inv);
    lemma_mul_commutative(x1, x2);
    assert(ta == tb);
    let u0 = gf_mul(l0, s);
    let u1 = gf_mul(l1, s);
    assert((0u8 ^ (u0 ^ ta)) ^ (u1 ^ ta) == u0 ^ u1) by (bit_vector);
    lemma_mul_distributive_left(l0, l1, s);
    lemma_mul_distributive_left(x2, x1, inv);
    lemma_mul_inverse(d);
    lemma_mul_commutative(1, s);
    lemma_mul_one_zero(s);
    assert(gf_mul(l0, y1) == u0 ^ ta);
    assert(gf_mul(l1, y2) == u1 ^ tb);
    assert(r == u0 ^ u1);
    assert(l0 ^ l1 == gf_mul(d, inv));
    assert(gf_mul(d, inv) == 1);
    assert(u0 ^ u1 == gf_mul(1, s));
}

/// Evaluates the polynomial with coefficients `src` at x = 1, 2, ..., n.
pub fn encode(src: &[u8], n: u8) -> (r: Vec<u8>)
    ensures
        r@.len() == n,
        forall|i: int| 0 <= i < n ==> #[trigger] r@[i] == poly_eval(src@, (i + 1) as u8),
{
    let mut out: Vec<u8> = Vec::new();
    let mut raw_x: u16 = 1;
    while raw_x <= n as u16
        invariant
            1 <= raw_x <= n as u16 + 1,
            out@.len() == raw_x - 1,
            forall|i: int| 0 <= i < out@.len() ==> #[trigger] out@[i] == poly_eval(src@, (i + 1) as u8),
        decreases n as u16 + 1 - raw_x,
    {
        let x = Gf256::from_byte(raw_x as u8);
        let mut fac = Gf256::one();
        let mut acc = Gf256::zero();
        let mut c: usize = 0;
        while c < src.len()
            invariant
                c <= src@.len(),
                x.poly == raw_x as u8,
                fac.poly == gf_pow(x.poly, c as nat),
                acc.poly == eval_upto(src@, x.poly, c as nat),
            decreases src@.len() - c,
        {
            acc = acc.add(fac.mul(Gf256::from_byte(src[c])));
            fac = fac.mul(x);
            c = c + 1;
        }
        out.push(acc.to_byte());
        raw_x = raw_x + 1;
    }
    out
}

/// Evaluates at `raw_x` the polynomial through the points `src`, by Lagrange interpolation.
pub fn lagrange_interpolate(src: &[(u8, u8)], raw_x: u8) -> (r: u8)
    requires
        distinct_xs(src@),
    ensures
        r == lagrange_at(src@, raw_x),
{
    let x = Gf256::from_byte(raw_x);
    let mut sum = Gf256::zero();
    let mut i: usize = 0;
    while i < src.len()
        invariant
            i <= src@.len(),
            x.poly == raw_x,
            distinct_xs(src@),
            sum.poly == lagrange_upto(src@, raw_x, i as nat),
        decreases src@.len() - i,
    {
        let (raw_xi, raw_yi) = src[i];
        let xi = Gf256::from_byte(raw_xi);
        let yi = Gf256::from_byte(raw_yi);
        let mut lix = Gf256::one();
        let mut j: usize = 0;
        while j < src.len()
            invariant
                i < src@.len(),
                j <= src@.len(),
                x.poly == raw_x,
                xi.poly == src@[i as int].0,
                distinct_xs(src@),
                lix.poly == basis_upto(src@, i as int, raw_x, j as nat),
            decreases src@.len() - j,
        {
            if i != j {
                let xj = Gf256::from_byte(src[j].0);
                let delta = xi.sub(xj);
                assert(src@[i as int].0 != src@[j as int].0);
                proof {
                    lemma_xor_distinct(xi.poly, xj.poly);
                }
                lix = lix.mul(x.sub(xj)).div(delta);
            }
            j = j + 1;
        }
        sum = sum.add(lix.mul(yi));
        i = i + 1;
    }
    sum.to_byte()
}

/// `shares` holds, at position `i` and byte `c`, the polynomial `cs[c]` evaluated at `i + 1`,
/// where each `cs[c]` has `k` coefficients and the constant term `secret[c]`.
pub open spec fn is_sharing(secret: Seq<u8>, k: u8, n: u8, shares: Seq<Vec<u8>>, cs: Seq<Seq<u8>>) -> bool {
    &&& shares.len() == n
    &&& cs.len() == secret.len()
    &&& forall|c: int| 0 <= c < secret.len() ==> (#[trigger] cs[c]).len() == k && cs[c][0] == secret[c]
    &&& forall|i: int| 0 <= i < n ==> (#[trigger] shares[i])@.len() == secret.len()
    &&& forall|i: int, c: int|
        0 <= i < n && 0 <= c < secret.len() ==> #[trigger] shares[i]@[c] == poly_eval(cs[c], (i + 1) as u8)
}

/// Relies on rand's `OsRng` (`RngCore::try_fill_bytes`): it overwrites the bytes of `buf`
/// with random ones and keeps its length; `false` when the source fails. An empty buffer
/// asks the system for nothing and always succeeds (getrandom returns early on it).
#[verifier::external_body]
fn fill_random(buf: &mut Vec<u8>) -> (ok: bool)
    ensures
        final(buf)@.len() == old(buf)@.len(),
        old(buf)@.len() == 0 ==> ok,
{
    rand::RngCore::try_fill_bytes(&mut rand::rngs::OsRng, buf.as_mut_slice()).is_ok()
}

/// Splits each byte of `src` into `n` shares, any `k` of which recover it; the other
/// coefficients of each byte's polynomial are fresh random bytes.
pub fn secret_share(src: &[u8], k: u8, n: u8) -> (r: Result<Vec<Vec<u8>>, Error>)
    requires
        1 <= k <= n,
    ensures
        r matches Ok(shares) ==> exists|cs: Seq<Seq<u8>>| is_sharing(src@, k, n, shares@, cs),
        r matches Err(e) ==> e.kind == ErrorKind::RandomFailure,
        src@.len() == 0 || k == 1 ==> r is Ok,
        k == 1 ==> (r matches Ok(shares) && forall|i: int| 0 <= i < n ==> (#[trigger] shares@[i])@ == src@),
{
    let mut cols: Vec<Vec<u8>> = Vec::new();
    let ghost mut cs: Seq<Seq<u8>> = Seq::empty();
    let mut c: usize = 0;
    while c < src.len()
        invariant
            1 <= k <= n,
            c <= src@.len(),
            cols@.len() == c,
            cs.len() == c,
            forall|d: int| 0 <= d < c ==> (#[trigger] cs[d]).len() == k && cs[d][0] == src@[d],
            forall|d: int| 0 <= d < c ==> (#[trigger] cols@[d])@.len() == n,
            forall|d: int, i: int|
                0 <= d < c && 0 <= i < n ==> #[trigger] cols@[d]@[i] == poly_eval(cs[d], (i + 1) as u8),
        decreases src@.len() - c,
    {
        let mut rnd = new_vec((k - 1) as usize, 0u8);
        if !fill_random(&mut rnd) {
            return Err(other_io_err(ErrorKind::RandomFailure, "Could not draw random bytes", None));
        }
        let mut col_in: Vec<u8> = Vec::new();
        col_in.push(src[c]);
        let mut t: usize = 0;
        while t < rnd.len()
            invariant
                c < src@.len(),
                t <= rnd@.len(),
                col_in@.len() == t + 1,
                col_in@[0] == src@[c as int],
            decreases rnd@.len() - t,
        {
            col_in.push(rnd[t]);
            t = t + 1;
        }
        assert(col_in@.len() == k);
        let col_out = encode(col_in.as_slice(), n);
        proof {
            cs = cs.push(col_in@);
        }
        cols.push(col_out);
        c = c + 1;
    }
    let mut result: Vec<Vec<u8>> = Vec::new();
    let mut i: u8 = 0;
    while i < n
        invariant
            c == src@.len(),
            cols@.len() == c,
            cs.len() == c,
            i <= n,
            result@.len() == i,
            forall|d: int| 0 <= d < c ==> (#[trigger] cols@[d])@.len() == n,
            forall|d: int, i: int|
                0 <= d < c && 0 <= i < n ==> #[trigger] cols@[d]@[i] == poly_eval(cs[d], (i + 1) as u8),
            forall|j: int| 0 <= j < i ==> (#[trigger] result@[j])@.len() == c,
            forall|j: int, d: int|
                0 <= j < i && 0 <= d < c ==> #[trigger] result@[j]@[d] == poly_eval(cs[d], (j + 1) as u8),
        decreases n - i,
    {
        let mut row: Vec<u8> = Vec::new();
        let mut d: usize = 0;
        while d < cols.len()
            invariant
                i < n,
                cols@.len() == c,
                cs.len() == c,
                d <= c,
                row@.len() == d,
                forall|e: int| 0 <= e < c ==> (#[trigger] cols@[e])@.len() == n,
                forall|e: int, i: int|
                    0 <= e < c && 0 <= i < n ==> #[trigger] cols@[e]@[i] == poly_eval(cs[e], (i + 1) as u8),
                forall|e: int| 0 <= e < d ==> #[trigger] row@[e] == poly_eval(cs[e], (i + 1) as u8),
            decreases c - d,
        {
            row.push(cols[d][i as usize]);
            d = d + 1;
        }
        result.push(row);
        i = i + 1;
    }
    assert(is_sharing(src@, k, n, result@, cs));
    proof {
        if k == 1 {
            assert forall|i: int| 0 <= i < n implies (#[trigger] result@[i])@ == src@ by {
                assert forall|d: int| 0 <= d < c implies result@[i]@[d] == src@[d] by {
                    assert(cs[d] =~= seq![src@[d]]);
                    lemma_eval_one(src@[d], (i + 1) as u8);
                }
                assert(result@[i]@ =~= src@);
            }
        }
    }
    let r: Result<Vec<Vec<u8>>, Error> = Ok(result);
    assert(r matches Ok(shares) && is_sharing(src@, k, n, shares@, cs));
    r
}

/// The `c`-th byte of each of the first `k` shares, as points `(x, y)`.
pub open spec fn column(shares: Seq<(u8, Vec<u8>)>, k: nat, c: int) -> Seq<(u8, u8)> {
    Seq::new(k, |i: int| (shares[i].0, shares[i].1@[c]))
}

/// The first `k` shares have distinct x values and payloads of one length.
pub open spec fn shares_ok(shares: Seq<(u8, Vec<u8>)>, k: nat) -> bool {
    &&& 1 <= k <= shares.len()
    &&& forall|i: int| 0 <= i < k ==> (#[trigger] shares[i]).1@.len() == shares[0].1@.len()
    &&& forall|i: int, j: int| 0 <= i < k && 0 <= j < k && i != j ==> shares[i].0 != shares[j].0
}

/// Recovers the secret from the first `k` shares: each byte is the interpolating
/// polynomial of its column evaluated at zero.
pub fn reconstruct(shares: &Vec<(u8, Vec<u8>)>, k: u8) -> (r: Vec<u8>)
    requires
        shares_ok(shares@, k as nat),
    ensures
        r@.len() == shares@[0].1@.len(),
        forall|c: int|
            0 <= c < r@.len() ==> #[trigger] r@[c] == lagrange_at(column(shares@, k as nat, c), 0),
{
    let slen = shares[0].1.len();
    let mut secret: Vec<u8> = Vec::new();
    let mut c: usize = 0;
    while c < slen
        invariant
            shares_ok(shares@, k as nat),
            slen == shares@[0].1@.len(),
            c <= slen,
            secret@.len() == c,
            forall|d: int|
                0 <= d < c ==> #[trigger] secret@[d] == lagrange_at(column(shares@, k as nat, d), 0),
        decreases slen - c,
    {
        let mut col_in: Vec<(u8, u8)> = Vec::new();
        let mut i: usize = 0;
        while i < k as usize
            invariant
                shares_ok(shares@, k as nat),
                slen == shares@[0].1@.len(),
                c < slen,
                i <= k,
                col_in@ =~= column(shares@, k as nat, c as int).take(i as int),
            decreases k - i,
        {
            col_in.push((shares[i].0, shares[i].1[c]));
            i = i + 1;
            assert(col_in@ =~= column(shares@, k as nat, c as int).take(i as int));
        }
        assert(col_in@ =~= column(shares@, k as nat, c as int));
        let b = lagrange_interpolate(col_in.as_slice(), 0u8);
        secret.push(b);
        c = c + 1;
    }
    secret
}

} // verus!
