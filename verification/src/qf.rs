use vstd::prelude::*;

verus! {

use vstd::arithmetic::div_mod::lemma_small_mod;
use vstd::arithmetic::div_mod::lemma_add_mod_noop;
use vstd::arithmetic::div_mod::lemma_add_mod_noop_right;
use vstd::arithmetic::div_mod::lemma_div_multiples_vanish;
use vstd::arithmetic::div_mod::lemma_div_is_ordered;
use vstd::arithmetic::div_mod::lemma_fundamental_div_mod;
use vstd::arithmetic::mul::lemma_mul_is_distributive_add_other_way;
use vstd::arithmetic::power::pow;
use vstd::seq_lib::lemma_fold_left_permutation;
use vstd::seq_lib::commutative_foldl;
use crate::u256::U256;
use crate::u256::u256_mod;
use crate::Error;

/// Plain addition, as a folding operator.
pub open spec fn addf() -> spec_fn(nat, nat) -> nat {
    |a: nat, b: nat| a + b
}

/// Add the square of the element, as a folding operator.
pub open spec fn sqaddf() -> spec_fn(nat, nat) -> nat {
    |a: nat, d: nat| a + d * d
}

/// The sum of a sequence of values.
pub open spec fn sum(s: Seq<nat>) -> nat {
    s.fold_left(0nat, addf())
}

/// The sum of the squares of a grant's donations, before any reduction.
pub open spec fn sum_sq(g: Seq<nat>) -> nat {
    g.fold_left(0nat, sqaddf())
}

/// The plain sum of a grant's donations, before any reduction.
pub open spec fn sum_lin(g: Seq<nat>) -> nat {
    g.fold_left(0nat, addf())
}

/// A grant's quadratic score: the 256-bit reduction of its sum of squared
/// donations, squared, reduced again -- exactly as the fixed-width
/// accumulation computes it.
pub open spec fn grant_x(g: Seq<nat>) -> nat {
    ((sum_sq(g) % u256_mod()) * (sum_sq(g) % u256_mod())) % u256_mod()
}

/// A grant's linear score: the 256-bit reduction of its raw donation sum.
pub open spec fn grant_y(g: Seq<nat>) -> nat {
    sum_lin(g) % u256_mod()
}

/// The quadratic score of a grant, as a mapping operator.
pub open spec fn grantxf() -> spec_fn(Seq<nat>) -> nat {
    |g: Seq<nat>| grant_x(g)
}

/// The cumulative quadratic score over all grants, accumulated in the
/// 256-bit type.
pub open spec fn cumulative(d: Seq<Seq<nat>>) -> nat {
    sum(d.map_values(grantxf())) % u256_mod()
}

/// One grant's payout: y + (x * matching) / cumulative, every operation
/// performed in the 256-bit type, the division a floor division.
pub open spec fn receive_one(g: Seq<nat>, m: nat, cum: nat) -> nat
    recommends
        cum != 0,
{
    (grant_y(g) + ((grant_x(g) * m) % u256_mod()) / cum) % u256_mod()
}

/// The full distribution, one payout per grant, in grant order.
pub open spec fn spec_receive(d: Seq<Seq<nat>>, m: nat) -> Seq<nat> {
    Seq::new(d.len(), |i: int| receive_one(d[i], m, cumulative(d)))
}

/// Compute the quadratic-funding distribution. Succeeds exactly when the
/// cumulative quadratic score is nonzero; otherwise the division is
/// undefined and the computation aborts.
pub fn compute(donations: &Vec<Vec<U256>>, matching_amount: &U256) -> (r: Result<Vec<U256>, Error>)
    ensures
        match r {
            Ok(rec) => cumulative(donations.deep_view()) != 0 && rec.deep_view() == spec_receive(
                donations.deep_view(),
                matching_amount@,
            ),
            Err(e) => cumulative(donations.deep_view()) == 0 && e == Error::ArithmeticDegenerate,
        },
{
    let ghost dd = donations.deep_view();
    let n = donations.len();
    let mut xs: Vec<U256> = Vec::new();
    let mut ys: Vec<U256> = Vec::new();
    let mut cum = U256::zero();
    proof {
        assert(dd.map_values(grantxf()).take(0) =~= Seq::<nat>::empty());
        lemma_small_mod(0, u256_mod());
    }
    let mut i: usize = 0;
    while i < n
        invariant
            dd == donations.deep_view(),
            n == donations.len(),
            i <= n,
            xs.len() == i,
            ys.len() == i,
            forall|t: int| 0 <= t < i ==> #[trigger] xs@[t]@ == grant_x(dd[t]),
            forall|t: int| 0 <= t < i ==> #[trigger] ys@[t]@ == grant_y(dd[t]),
            cum@ == sum(dd.map_values(grantxf()).take(i as int)) % u256_mod(),
        decreases n - i,
    {
        let grant = &donations[i];
        let ghost gv = dd[i as int];
        proof {
            assert(gv == grant.deep_view());
        }
        let mut xi = U256::zero();
        let mut yi = U256::zero();
        proof {
            assert(gv.take(0) =~= Seq::<nat>::empty());
            lemma_small_mod(0, u256_mod());
        }
        let mut k: usize = 0;
        while k < grant.len()
            invariant
                gv == grant.deep_view(),
                k <= grant.len(),
                xi@ == sum_sq(gv.take(k as int)) % u256_mod(),
                yi@ == sum_lin(gv.take(k as int)) % u256_mod(),
            decreases grant.len() - k,
        {
            let d = grant[k];
            proof {
                assert(d@ == gv[k as int]);
            }
            let dsq = d.wrapping_mul(d);
            let ghost xi0 = xi@;
            let ghost yi0 = yi@;
            xi = xi.wrapping_add(dsq);
            yi = yi.wrapping_add(d);
            k = k + 1;
            proof {
                let m = u256_mod();
                let pre = gv.take(k - 1);
                let now = gv.take(k as int);
                assert(now.drop_last() =~= pre);
                assert(sum_sq(now) == sum_sq(pre) + d@ * d@);
                assert(sum_lin(now) == sum_lin(pre) + d@);
                lemma_add_mod_noop(sum_sq(pre) as int, (d@ * d@) as int, m as int);
                lemma_add_mod_noop_right(d@ as int, sum_lin(pre) as int, m as int);
            }
        }
        proof {
            assert(gv.take(grant.len() as int) =~= gv);
        }
        let x2 = xi.pow(2);
        proof {
            assert(pow(xi@ as int, 2) == (xi@ * xi@) as int) by {
                reveal_with_fuel(pow, 3);
            }
            assert(x2@ == grant_x(gv));
        }
        let ghost cum0 = cum@;
        cum = cum.wrapping_add(x2);
        xs.push(x2);
        ys.push(yi);
        i = i + 1;
        proof {
            let m = u256_mod();
            let mapped = dd.map_values(grantxf());
            assert(mapped.take(i as int).drop_last() =~= mapped.take(i - 1));
            assert(mapped.take(i as int).last() == grant_x(dd[i - 1]));
            assert(sum(mapped.take(i as int)) == sum(mapped.take(i - 1)) + grant_x(dd[i - 1]));
            lemma_small_mod(grant_x(dd[i - 1]), m);
            lemma_add_mod_noop(sum(mapped.take(i - 1)) as int, grant_x(dd[i - 1]) as int, m as int);
        }
    }
    proof {
        assert(dd.map_values(grantxf()).take(n as int) =~= dd.map_values(grantxf()));
    }
    if cum.is_zero() {
        return Err(Error::ArithmeticDegenerate);
    }
    let mut receive: Vec<U256> = Vec::new();
    let mut i: usize = 0;
    while i < n
        invariant
            dd == donations.deep_view(),
            n == donations.len(),
            i <= n,
            xs.len() == n,
            ys.len() == n,
            receive.len() == i,
            cum@ == cumulative(dd),
            cum@ != 0,
            forall|t: int| 0 <= t < n ==> #[trigger] xs@[t]@ == grant_x(dd[t]),
            forall|t: int| 0 <= t < n ==> #[trigger] ys@[t]@ == grant_y(dd[t]),
            forall|t: int|
                0 <= t < i ==> #[trigger] receive@[t]@ == receive_one(
                    dd[t],
                    matching_amount@,
                    cumulative(dd),
                ),
        decreases n - i,
    {
        let share = xs[i].wrapping_mul(*matching_amount);
        let q = share.div(cum);
        let ri = ys[i].wrapping_add(q);
        receive.push(ri);
        i = i + 1;
    }
    proof {
        assert(receive.deep_view() =~= spec_receive(dd, matching_amount@));
    }
    Ok(receive)
}

/// An empty donation set has a zero cumulative score.
pub proof fn lemma_cumulative_empty()
    ensures
        cumulative(Seq::<Seq<nat>>::empty()) == 0,
{
    assert(Seq::<Seq<nat>>::empty().map_values(grantxf()) =~= Seq::<nat>::empty());
    assert(Seq::<nat>::empty().fold_left(0nat, addf()) == 0);
    lemma_small_mod(0, u256_mod());
}

/// The fold of a one-element sequence.
proof fn lemma_fold_one(a: nat)
    ensures
        sum(seq![a]) == a,
        sum_sq(seq![a]) == a * a,
        sum_lin(seq![a]) == a,
{
    assert(seq![a].drop_last() =~= Seq::<nat>::empty());
    assert(Seq::<nat>::empty().fold_left(0nat, addf()) == 0);
    assert(Seq::<nat>::empty().fold_left(0nat, sqaddf()) == 0);
}

/// The fold of a two-element sequence.
proof fn lemma_fold_two(a: nat, b: nat)
    ensures
        sum(seq![a, b]) == a + b,
{
    lemma_fold_one(a);
    assert(seq![a, b].drop_last() =~= seq![a]);
}

/// Permuting the donations inside a grant changes neither of its scores:
/// both accumulated sums are order-independent.
pub proof fn lemma_grant_order_irrelevant(g1: Seq<nat>, g2: Seq<nat>)
    requires
        g1.to_multiset() == g2.to_multiset(),
    ensures
        grant_x(g1) == grant_x(g2),
        grant_y(g1) == grant_y(g2),
{
    assert(commutative_foldl(sqaddf())) by {
        assert forall|x: nat, y: nat, v: nat| #[trigger] sqaddf()(sqaddf()(v, x), y) == sqaddf()(
            sqaddf()(v, y),
            x,
        ) by {}
    }
    assert(commutative_foldl(addf())) by {
        assert forall|x: nat, y: nat, v: nat| #[trigger] addf()(addf()(v, x), y) == addf()(
            addf()(v, y),
            x,
        ) by {}
    }
    lemma_fold_left_permutation(g1, g2, sqaddf(), 0nat);
    lemma_fold_left_permutation(g1, g2, addf(), 0nat);
}

/// Permuting the donations inside one grant leaves the whole distribution
/// unchanged: the grant's scores, and so every payout, stay the same.
pub proof fn lemma_receive_order_irrelevant(d1: Seq<Seq<nat>>, d2: Seq<Seq<nat>>, m: nat)
    requires
        d1.len() == d2.len(),
        forall|i: int| 0 <= i < d1.len() ==> d1[i].to_multiset() == d2[i].to_multiset(),
    ensures
        spec_receive(d1, m) == spec_receive(d2, m),
{
    assert forall|i: int| 0 <= i < d1.len() implies #[trigger] grant_x(d1[i]) == grant_x(d2[i])
        && grant_y(d1[i]) == grant_y(d2[i]) by {
        lemma_grant_order_irrelevant(d1[i], d2[i]);
    }
    assert(d1.map_values(grantxf()) =~= d2.map_values(grantxf()));
    assert(spec_receive(d1, m) =~= spec_receive(d2, m));
}

/// A single grant holding a single donation d, matched with m, receives
/// d + m: its score is the entire cumulative score, so the whole pool goes
/// to it. The bounds keep every intermediate value inside the 256-bit type.
pub proof fn lemma_single_grant_identity(d: nat, m: nat)
    requires
        0 < d,
        d * d < u256_mod(),
        (d * d) * (d * d) < u256_mod(),
        (d * d) * (d * d) * m < u256_mod(),
        d + m < u256_mod(),
    ensures
        spec_receive(seq![seq![d]], m) == seq![(d + m) as nat],
{
    let g = seq![d];
    let dd = seq![g];
    let bigm = u256_mod();
    let x4 = (d * d) * (d * d);
    lemma_fold_one(d);
    assert(sum_sq(g) == d * d);
    assert(sum_lin(g) == d);
    assert(d <= d * d && 1 <= d * d && 1 <= x4 && d * d <= x4) by (nonlinear_arith)
        requires
            1 <= d,
            x4 == (d * d) * (d * d),
    ;
    lemma_small_mod((d * d) as nat, bigm);
    lemma_small_mod(x4 as nat, bigm);
    lemma_small_mod(d, bigm);
    lemma_small_mod((d + m) as nat, bigm);
    assert(grant_x(g) == x4);
    assert(grant_y(g) == d);
    let mapped = dd.map_values(grantxf());
    assert(mapped =~= seq![x4 as nat]);
    lemma_fold_one(x4 as nat);
    assert(sum(mapped) == x4);
    assert(cumulative(dd) == x4);
    lemma_small_mod((x4 * m) as nat, bigm);
    lemma_div_multiples_vanish(m as int, x4 as int);
    assert(receive_one(g, m, x4 as nat) == d + m);
    assert(spec_receive(dd, m) =~= seq![(d + m) as nat]);
}

/// With two grants, the matched shares together never exceed the matching
/// amount: floor division only loses remainders. The bounds keep the
/// cumulative score and both products inside the 256-bit type.
pub proof fn lemma_two_grant_matching_bound(d: Seq<Seq<nat>>, m: nat)
    requires
        d.len() == 2,
        cumulative(d) != 0,
        grant_x(d[0]) + grant_x(d[1]) < u256_mod(),
        grant_x(d[0]) * m < u256_mod(),
        grant_x(d[1]) * m < u256_mod(),
    ensures
        ((grant_x(d[0]) * m) % u256_mod()) / cumulative(d) + ((grant_x(d[1]) * m) % u256_mod())
            / cumulative(d) <= m,
{
    let bigm = u256_mod();
    let x0 = grant_x(d[0]);
    let x1 = grant_x(d[1]);
    let mapped = d.map_values(grantxf());
    assert(mapped =~= seq![x0, x1]);
    lemma_fold_two(x0, x1);
    assert(sum(mapped) == x0 + x1);
    lemma_small_mod((x0 + x1) as nat, bigm);
    let cum = cumulative(d);
    assert(cum == x0 + x1);
    lemma_small_mod((x0 * m) as nat, bigm);
    lemma_small_mod((x1 * m) as nat, bigm);
    let q0 = ((x0 * m) as int) / (cum as int);
    let q1 = ((x1 * m) as int) / (cum as int);
    lemma_fundamental_div_mod((x0 * m) as int, cum as int);
    lemma_fundamental_div_mod((x1 * m) as int, cum as int);
    // cum * (q0 + q1) <= x0 * m + x1 * m == cum * m, so q0 + q1 <= m.
    lemma_mul_is_distributive_add_other_way(m as int, x0 as int, x1 as int);
    assert(x0 * m + x1 * m == cum * m);
    lemma_mul_is_distributive_add_other_way(cum as int, q0, q1);
    assert(cum * (q0 + q1) <= cum * m);
    lemma_div_is_ordered((cum * (q0 + q1)) as int, (cum * m) as int, cum as int);
    lemma_div_multiples_vanish((q0 + q1) as int, cum as int);
    lemma_div_multiples_vanish(m as int, cum as int);
}

} // verus!
