//! Threshold secret splitting and combining over GF(2^8).
//!
//! Each byte of the secret is the constant term of its own polynomial of
//! degree K-1; share i carries the index byte i and, per secret byte, the
//! polynomial's value at the field point i.  Combining interpolates each
//! byte position independently at zero with however many shares are
//! supplied; whether enough shares were given is only detected downstream
//! by the authenticated cipher.

use vstd::prelude::*;

use crate::Error;
use crate::crypto::random_bytes;
use crate::gf256::{gf_mul, gf_div, poly_eval, gf_multiply, gf_divide, eval_poly};
use crate::gf256::{lemma_gf_mul_zero, lemma_gf_mul_one};

verus! {

/// The polynomial for byte position `j`: the secret byte as constant
/// term, then the K-1 coefficients reserved for that position.
pub open spec fn share_poly(secret: Seq<u8>, coeffs: Seq<u8>, k: nat, j: int) -> Seq<u8>
    recommends
        1 <= k,
        0 <= j < secret.len(),
        coeffs.len() == secret.len() * (k - 1),
{
    seq![secret[j]] + coeffs.subrange(j * (k - 1), (j + 1) * (k - 1))
}

/// Share number `i` (counting from 0): index byte i+1 followed by the
/// evaluation at the field point i+1 for every byte position.
pub open spec fn share_at(secret: Seq<u8>, coeffs: Seq<u8>, k: nat, i: int) -> Seq<u8> {
    seq![(i + 1) as u8] + Seq::new(
        secret.len(),
        |j: int| poly_eval(share_poly(secret, coeffs, k, j), (i + 1) as u8),
    )
}

/// The N shares produced from a secret, a threshold and the drawn
/// coefficients.
pub open spec fn split_shares(secret: Seq<u8>, coeffs: Seq<u8>, k: nat, n: nat) -> Seq<Seq<u8>> {
    Seq::new(n, |i: int| share_at(secret, coeffs, k, i))
}

/// Every supplied share carries an index byte, and none carries the
/// reserved index 0.
pub open spec fn all_indexed(ss: Seq<Seq<u8>>) -> bool {
    forall|i: int| 0 <= i < ss.len() ==> (#[trigger] ss[i]).len() >= 1 && ss[i][0] != 0
}

/// At least one share, all of equal length, no index repeated.
pub open spec fn consistent(ss: Seq<Seq<u8>>) -> bool {
    &&& ss.len() >= 1
    &&& forall|i: int| 0 <= i < ss.len() ==> (#[trigger] ss[i]).len() == ss[0].len()
    &&& forall|a: int, b: int| 0 <= a < b < ss.len() ==> ss[a][0] != ss[b][0]
}

/// Shares a combine run accepts.
pub open spec fn combinable(ss: Seq<Seq<u8>>) -> bool {
    all_indexed(ss) && consistent(ss)
}

/// The error a combine run reports on rejected shares.
pub open spec fn combine_err(ss: Seq<Seq<u8>>) -> Error {
    if !all_indexed(ss) {
        Error::MalformedShare
    } else {
        Error::InconsistentShares
    }
}

/// The (x, y) pairs that byte position `pos` contributes.
pub open spec fn share_points(ss: Seq<Seq<u8>>, pos: int) -> Seq<(u8, u8)> {
    Seq::new(ss.len(), |i: int| (ss[i][0], ss[i][pos + 1]))
}

/// Partial product of the Lagrange basis factor for point `i`, over the
/// first `m` points, skipping `i` itself.
pub open spec fn lag_basis(points: Seq<(u8, u8)>, i: int, m: nat) -> u8
    decreases m,
{
    if m == 0 {
        1
    } else {
        let prev = lag_basis(points, i, (m - 1) as nat);
        if m - 1 == i {
            prev
        } else {
            let xj = points[m - 1].0;
            let xi = points[i].0;
            gf_mul(prev, gf_div(xj, xj ^ xi))
        }
    }
}

/// Partial Lagrange sum over the first `m` points.
pub open spec fn lag_sum(points: Seq<(u8, u8)>, m: nat) -> u8
    decreases m,
{
    if m == 0 {
        0
    } else {
        lag_sum(points, (m - 1) as nat) ^ gf_mul(
            points[m - 1].1,
            lag_basis(points, m - 1, points.len()),
        )
    }
}

/// The interpolated polynomial's value at zero: its constant term when
/// the points lie on a polynomial of degree below their number.
pub open spec fn lagrange_zero(points: Seq<(u8, u8)>) -> u8 {
    lag_sum(points, points.len())
}

/// The bytes a combine run recovers: each position interpolated at zero
/// independently.
pub open spec fn combine_bytes(ss: Seq<Seq<u8>>) -> Seq<u8>
    recommends
        combinable(ss),
{
    Seq::new((ss[0].len() - 1) as nat, |pos: int| lagrange_zero(share_points(ss, pos)))
}

/// The deep view of a vector of byte vectors is the sequence of the
/// element views.
pub proof fn lemma_deep_view_is_views(v: &Vec<Vec<u8>>)
    ensures
        v.deep_view().len() == v@.len(),
        forall|i: int| 0 <= i < v@.len() ==> #[trigger] v.deep_view()[i] == v@[i]@,
{
    assert forall|i: int| 0 <= i < v@.len() implies #[trigger] v.deep_view()[i] == v@[i]@ by {
        assert(v.deep_view()[i] =~= v@[i]@);
    }
}

/// Split a secret into `count` shares, any `threshold` of which suffice
/// to reconstruct it, using the supplied polynomial coefficients (drawn
/// at random by the callers).
///
/// Fails with `InvalidThreshold` exactly when the pair violates
/// 1 <= threshold <= count; the share count is bounded by 255 by its
/// type, the size of the field's nonzero index space.
#[verifier::loop_isolation(false)]
pub fn split_with_coeffs(secret: &Vec<u8>, threshold: u8, count: u8, coeffs: &Vec<u8>) -> (r:
    Result<Vec<Vec<u8>>, Error>)
    requires
        secret@.len() < usize::MAX,
        threshold >= 1 ==> coeffs@.len() == secret@.len() * ((threshold - 1) as int),
    ensures
        r is Ok <==> 1 <= threshold && threshold <= count,
        match r {
            Ok(shares) => shares.deep_view() == split_shares(
                secret@,
                coeffs@,
                threshold as nat,
                count as nat,
            ),
            Err(e) => e == Error::InvalidThreshold,
        },
{
    if threshold < 1 || threshold > count {
        return Err(Error::InvalidThreshold);
    }
    let len: usize = secret.len();
    let clen: usize = coeffs.len();
    let k1: usize = (threshold - 1) as usize;
    let n: usize = count as usize;
    let ghost k: nat = threshold as nat;
    let mut shares: Vec<Vec<u8>> = Vec::new();
    let mut i: usize = 0;
    while i < n
        invariant
            i <= n,
            shares@.len() == i,
            forall|q: int| 0 <= q < i ==> (#[trigger] shares@[q])@ == share_at(
                secret@,
                coeffs@,
                k,
                q,
            ),
        decreases n - i,
    {
        let x: u8 = (i as u8) + 1;
        let mut share: Vec<u8> = Vec::new();
        share.push(x);
        let mut j: usize = 0;
        while j < len
            invariant
                j <= len,
                share@ == seq![x] + Seq::new(
                    j as nat,
                    |q: int| poly_eval(share_poly(secret@, coeffs@, k, q), x),
                ),
            decreases len - j,
        {
            let mut poly: Vec<u8> = Vec::new();
            poly.push(secret[j]);
            proof {
                assert((j as int) * (k1 as int) + (k1 as int) <= (len as int) * (k1 as int))
                    by (nonlinear_arith)
                    requires
                        0 <= j as int,
                        (j as int) < (len as int),
                        0 <= k1 as int,
                ;
            }
            let base: usize = j * k1;
            let mut t: usize = 0;
            proof {
                assert(poly@ =~= seq![secret@[j as int]] + coeffs@.subrange(
                    base as int,
                    base as int,
                ));
            }
            while t < k1
                invariant
                    t <= k1,
                    poly@ == seq![secret@[j as int]] + coeffs@.subrange(
                        base as int,
                        base + t,
                    ),
                decreases k1 - t,
            {
                poly.push(coeffs[base + t]);
                proof {
                    assert(poly@ =~= seq![secret@[j as int]] + coeffs@.subrange(
                        base as int,
                        base + t + 1,
                    ));
                }
                t = t + 1;
            }
            proof {
                assert((j as int + 1) * (k1 as int) == (j as int) * (k1 as int) + (k1 as int))
                    by (nonlinear_arith);
                assert(poly@ =~= share_poly(secret@, coeffs@, k, j as int));
            }
            let y: u8 = eval_poly(&poly, x);
            share.push(y);
            proof {
                assert(share@ =~= seq![x] + Seq::new(
                    (j + 1) as nat,
                    |q: int| poly_eval(share_poly(secret@, coeffs@, k, q), x),
                ));
            }
            j = j + 1;
        }
        proof {
            assert(share@ =~= share_at(secret@, coeffs@, k, i as int));
        }
        shares.push(share);
        i = i + 1;
    }
    proof {
        lemma_deep_view_is_views(&shares);
        assert(shares.deep_view() =~= split_shares(secret@, coeffs@, k, count as nat));
    }
    Ok(shares)
}

/// Split a secret into `count` shares with freshly drawn random
/// polynomial coefficients, any `threshold` of which suffice to
/// reconstruct it.
///
/// Fails with `InvalidThreshold` exactly when 1 <= threshold <= count is
/// violated.  On success the shares are the split of the secret under
/// some coefficient bytes of the right count.
pub fn split(secret: &Vec<u8>, threshold: u8, count: u8) -> (r: Result<Vec<Vec<u8>>, Error>)
    requires
        secret@.len() * 255 < usize::MAX,
    ensures
        r is Ok <==> 1 <= threshold && threshold <= count,
        match r {
            Ok(shares) => exists|coeffs: Seq<u8>|
                coeffs.len() == secret@.len() * ((threshold - 1) as int) && shares.deep_view()
                    == #[trigger] split_shares(secret@, coeffs, threshold as nat, count as nat),
            Err(e) => e == Error::InvalidThreshold,
        },
{
    if threshold < 1 || threshold > count {
        return Err(Error::InvalidThreshold);
    }
    let slen: usize = secret.len();
    let k1: usize = (threshold - 1) as usize;
    proof {
        assert((slen as int) * (k1 as int) <= (slen as int) * 255) by (nonlinear_arith)
            requires
                0 <= slen as int,
                0 <= k1 as int <= 255,
        ;
    }
    let coeffs = random_bytes(slen * k1);
    let r = split_with_coeffs(secret, threshold, count, &coeffs);
    proof {
        if r is Ok {
            let shares = r->Ok_0;
            let w = coeffs@;
            assert(w.len() == secret@.len() * ((threshold - 1) as int) && shares.deep_view()
                == split_shares(secret@, w, threshold as nat, count as nat));
        }
    }
    r
}

/// Combine supplied shares by interpolating every byte position at zero.
///
/// Succeeds exactly when at least one share is supplied, all carry a
/// nonzero index byte, all have equal length and no index repeats.  The
/// result is then one byte shorter than a share.  Fewer than the
/// threshold many shares still produce bytes, but not the original ones;
/// only the cipher's authentication tag detects that downstream.
#[verifier::loop_isolation(false)]
pub fn combine(shares: &Vec<Vec<u8>>) -> (r: Result<Vec<u8>, Error>)
    ensures
        r is Ok <==> combinable(shares.deep_view()),
        match r {
            Ok(out) => out@ == combine_bytes(shares.deep_view()),
            Err(e) => e == combine_err(shares.deep_view()),
        },
{
    proof {
        lemma_deep_view_is_views(shares);
    }
    let ghost ss = shares.deep_view();
    let m: usize = shares.len();
    if m == 0 {
        return Err(Error::InconsistentShares);
    }
    let mut i: usize = 0;
    while i < m
        invariant
            i <= m,
            forall|q: int| 0 <= q < i ==> (#[trigger] ss[q]).len() >= 1 && ss[q][0] != 0,
        decreases m - i,
    {
        if shares[i].len() < 1 || shares[i][0] == 0 {
            proof {
                assert(ss[i as int].len() < 1 || ss[i as int][0] == 0);
            }
            return Err(Error::MalformedShare);
        }
        i = i + 1;
    }
    proof {
        assert(all_indexed(ss));
    }
    let share_len: usize = shares[0].len();
    i = 1;
    while i < m
        invariant
            1 <= i <= m,
            forall|q: int| 0 <= q < i ==> (#[trigger] ss[q]).len() == ss[0].len(),
        decreases m - i,
    {
        if shares[i].len() != share_len {
            proof {
                assert(ss[i as int] == shares@[i as int]@);
                assert(ss[0] == shares@[0]@);
                assert(!consistent(ss));
            }
            return Err(Error::InconsistentShares);
        }
        i = i + 1;
    }
    i = 1;
    while i < m
        invariant
            1 <= i <= m,
            forall|a: int, b: int| 0 <= a < b < i ==> ss[a][0] != ss[b][0],
        decreases m - i,
    {
        let mut j: usize = 0;
        while j < i
            invariant
                j <= i < m,
                forall|a: int| 0 <= a < j ==> ss[a][0] != ss[i as int][0],
            decreases i - j,
        {
            proof {
                assert(ss[j as int] == shares@[j as int]@);
                assert(ss[i as int] == shares@[i as int]@);
                assert(ss[j as int].len() >= 1);
                assert(ss[i as int].len() >= 1);
            }
            if shares[j][0] == shares[i][0] {
                return Err(Error::InconsistentShares);
            }
            j = j + 1;
        }
        i = i + 1;
    }
    proof {
        assert(combinable(ss));
        assert(ss[0] == shares@[0]@);
        assert(ss[0].len() >= 1);
        assert(share_len >= 1);
    }
    let mut out: Vec<u8> = Vec::new();
    let mut pos: usize = 0;
    while pos < share_len - 1
        invariant
            pos <= share_len - 1,
            out@ == Seq::new(pos as nat, |p: int| lagrange_zero(share_points(ss, p))),
        decreases share_len - 1 - pos,
    {
        let ghost points = share_points(ss, pos as int);
        let mut acc: u8 = 0;
        i = 0;
        while i < m
            invariant
                i <= m,
                acc == lag_sum(points, i as nat),
            decreases m - i,
        {
            proof {
                assert(ss[i as int] == shares@[i as int]@);
                assert(ss[0] == shares@[0]@);
                assert(ss[i as int].len() == ss[0].len());
                assert(ss[i as int].len() >= 1);
            }
            let xi: u8 = shares[i][0];
            let yi: u8 = shares[i][pos + 1];
            let mut basis: u8 = 1;
            let mut j: usize = 0;
            while j < m
                invariant
                    j <= m,
                    i < m,
                    basis == lag_basis(points, i as int, j as nat),
                decreases m - j,
            {
                if j != i {
                    proof {
                        assert(ss[j as int] == shares@[j as int]@);
                        assert(ss[j as int].len() >= 1);
                    }
                    let xj: u8 = shares[j][0];
                    basis = gf_multiply(basis, gf_divide(xj, xj ^ xi));
                    proof {
                        assert(points[j as int].0 == ss[j as int][0]);
                        assert(points[i as int].0 == ss[i as int][0]);
                        assert(basis == lag_basis(points, i as int, (j + 1) as nat));
                    }
                } else {
                    proof {
                        assert(basis == lag_basis(points, i as int, (j + 1) as nat));
                    }
                }
                j = j + 1;
            }
            let term: u8 = gf_multiply(yi, basis);
            acc = acc ^ term;
            proof {
                assert(points.len() == m);
                assert(points[i as int].1 == ss[i as int][pos + 1]);
                assert(acc == lag_sum(points, (i + 1) as nat));
            }
            i = i + 1;
        }
        out.push(acc);
        proof {
            assert(acc == lagrange_zero(points));
            assert(out@ =~= Seq::new(
                (pos + 1) as nat,
                |p: int| lagrange_zero(share_points(ss, p)),
            ));
        }
        pos = pos + 1;
    }
    proof {
        assert(out@ =~= combine_bytes(ss));
    }
    Ok(out)
}

/// Every share a split produces has the same length, one more than the
/// secret; the index bytes are exactly the integers 1 to N, each once.
pub proof fn lemma_share_shape(secret: Seq<u8>, coeffs: Seq<u8>, k: nat, n: nat)
    requires
        1 <= k <= n <= 255,
    ensures
        split_shares(secret, coeffs, k, n).len() == n,
        forall|i: int| 0 <= i < n ==> (#[trigger] split_shares(secret, coeffs, k, n)[i]).len() == 1
            + secret.len(),
        forall|i: int| 0 <= i < n ==> (#[trigger] split_shares(secret, coeffs, k, n)[i])[0] == i
            + 1,
        forall|a: int, b: int| 0 <= a < b < n ==> split_shares(secret, coeffs, k, n)[a][0]
            != split_shares(secret, coeffs, k, n)[b][0],
{
    let ss = split_shares(secret, coeffs, k, n);
    assert forall|i: int| 0 <= i < n implies (#[trigger] ss[i]).len() == 1 + secret.len() && ss[i][0]
        == i + 1 by {
        assert(ss[i] == share_at(secret, coeffs, k, i));
    }
}

/// With threshold 1 a single share already determines the secret: the
/// polynomial at every byte position is constant, and interpolating one
/// point at zero returns its value.
pub proof fn lemma_single_share_recovers(secret: Seq<u8>, coeffs: Seq<u8>, n: nat, i: int)
    requires
        1 <= n <= 255,
        0 <= i < n,
        coeffs.len() == 0,
    ensures
        combinable(seq![split_shares(secret, coeffs, 1, n)[i]]),
        combine_bytes(seq![split_shares(secret, coeffs, 1, n)[i]]) == secret,
{
    let sh = split_shares(secret, coeffs, 1, n)[i];
    let ss = seq![sh];
    let x = (i + 1) as u8;
    assert(sh == share_at(secret, coeffs, 1, i));
    assert(sh.len() == 1 + secret.len());
    assert(sh[0] == x);
    assert(combinable(ss));
    assert forall|p: int| 0 <= p < secret.len() implies combine_bytes(ss)[p] == secret[p] by {
        let points = share_points(ss, p);
        assert(points.len() == 1);
        assert(points[0].0 == x);
        assert(sh[p + 1] == poly_eval(share_poly(secret, coeffs, 1, p), x));
        assert(share_poly(secret, coeffs, 1, p) =~= seq![secret[p]]);
        let c = secret[p];
        assert(seq![c].drop_first() =~= Seq::<u8>::empty());
        assert(poly_eval(Seq::<u8>::empty(), x) == 0);
        lemma_gf_mul_zero(x);
        assert(c ^ 0 == c) by (bit_vector);
        assert(poly_eval(seq![c], x) == c);
        assert(points[0].1 == c);
        assert(lag_basis(points, 0, 0) == 1);
        assert(lag_basis(points, 0, 1) == 1);
        lemma_gf_mul_one(c);
        assert(0u8 ^ c == c) by (bit_vector);
        assert(lag_sum(points, 0) == 0);
        assert(lag_sum(points, 1) == c);
        assert(combine_bytes(ss)[p] == lagrange_zero(points));
    }
    assert(combine_bytes(ss) =~= secret);
}

} // verus!
