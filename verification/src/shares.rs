//! What columns get of a width, told by their sizes and percentages alone.

use vstd::prelude::*;

use crate::binary32::Binary32;
use crate::distribute;
use crate::exact;
use crate::number;
use crate::number::Number;
use crate::rounded;

verus! {

/// Sums grow by one item at a time.
pub proof fn law_total<N: Number>(s: Seq<N>, x: N)
    ensures
        number::total(Seq::<N>::empty()) == N::zero(),
        number::total(s.push(x)) == number::total(s).sum(x),
{
    assert(s.push(x).drop_last() =~= s);
}

/// Whether columns have sizes: a least width, a width without wrapping and a
/// percentage each, which is not negative.
pub open spec fn sized(min: Seq<real>, max: Seq<real>, pct: Seq<real>) -> bool {
    &&& 0 < min.len() == max.len() == pct.len()
    &&& forall|i: int| 0 <= i < pct.len() ==> 0real <= #[trigger] pct[i]
}

/// Whether columns claim the widths `c` of the width `avail`. A column with a percentage
/// claims that part of the width, or that part of all percentages where they exceed the
/// whole, but not less than its least width. Other columns claim their least width.
pub open spec fn claim(avail: real, min: Seq<real>, pct: Seq<real>, c: Seq<real>) -> bool {
    let all = number::total(pct);
    let whole = if 1real < all {
        all
    } else {
        1real
    };
    &&& c.len() == min.len()
    &&& forall|i: int|
        0 <= i < min.len() ==> min[i] <= #[trigger] c[i] && if 0real < pct[i] {
            &&& pct[i] * avail <= whole * c[i]
            &&& c[i] == min[i] || whole * c[i] == pct[i] * avail
        } else {
            c[i] == min[i]
        }
}

/// Columns claim one width each.
proof fn lemma_claim(avail: real, min: Seq<real>, pct: Seq<real>, c: Seq<real>)
    requires
        min.len() <= pct.len(),
    ensures
        claim(avail, min, pct, c) <==> c == distribute::claims(avail, min, pct),
{
    let w = distribute::claims(avail, min, pct);
    let all = number::total(pct);
    let whole = if 1real < all {
        all
    } else {
        1real
    };
    let scale = distribute::scale(pct);
    assert(scale * whole == 1real) by (nonlinear_arith)
        requires
            whole > 0real,
            scale == if 1real < whole {
                1real / whole
            } else {
                1real
            },
            1real <= whole,
    ;
    assert forall|i: int| 0 <= i < min.len() implies min[i] <= #[trigger] w[i] && (if 0real
        < pct[i] {
        &&& pct[i] * avail <= whole * w[i]
        &&& w[i] == min[i] || whole * w[i] == pct[i] * avail
    } else {
        w[i] == min[i]
    }) by {
        let y = pct[i] * scale * avail;
        let p = pct[i];
        let x = w[i];
        assert(whole * y == p * avail) by (nonlinear_arith)
            requires
                y == p * scale * avail,
                scale * whole == 1real,
        ;
        assert(y <= x ==> whole * y <= whole * x) by (nonlinear_arith)
            requires
                whole > 0real,
        ;
    }
    if claim(avail, min, pct, c) {
        assert forall|i: int| 0 <= i < min.len() implies #[trigger] c[i] == w[i] by {
            assert(min[i] <= w[i]);
            let x = c[i];
            let y = w[i];
            if 0real < pct[i] {
                assert(x == y) by (nonlinear_arith)
                    requires
                        whole > 0real,
                        min[i] <= x,
                        min[i] <= y,
                        pct[i] * avail <= whole * x,
                        pct[i] * avail <= whole * y,
                        x == min[i] || whole * x == pct[i] * avail,
                        y == min[i] || whole * y == pct[i] * avail,
                ;
            }
        }
        assert(c =~= w);
    }
}

/// Columns claim the part of a width that their percentages say, and their least widths.
pub proof fn law_claims(avail: real, min: Seq<real>, pct: Seq<real>)
    requires
        min.len() <= pct.len(),
    ensures
        claim(avail, min, pct, distribute::claims(avail, min, pct)),
{
    lemma_claim(avail, min, pct, distribute::claims(avail, min, pct));
}

/// A part of an amount is to the amount as its weight is to all weights.
proof fn lemma_part(amount: real, weights: Seq<real>, i: int)
    requires
        0 <= i < weights.len(),
        0real < number::total(weights),
    ensures
        distribute::part(amount, weights[i], weights) * number::total(weights) == amount
            * weights[i],
{
    let all = number::total(weights);
    let x = amount * weights[i];
    assert((x / all) * all == x) by (nonlinear_arith)
        requires
            0real < all,
    ;
}

/// Parts are to each other as their weights are.
proof fn lemma_proportional(p: real, q: real, v: real, w: real, amount: real, all: real)
    requires
        0real < all,
        p * all == amount * v,
        q * all == amount * w,
    ensures
        p * w == q * v,
{
    assert(p * w == q * v) by (nonlinear_arith)
        requires
            0real < all,
            p * all == amount * v,
            q * all == amount * w,
    {
        assert((p * w) * all == (p * all) * w);
        assert((q * v) * all == (q * all) * v);
        assert((amount * v) * w == (amount * w) * v);
        assert((p * w) * all == (q * v) * all);
    }
}

/// Columns whose claims make up the width, to a hundredth, get what they claim.
pub proof fn law_claims_met(
    avail: real,
    min: Seq<real>,
    max: Seq<real>,
    pct: Seq<real>,
    c: Seq<real>,
)
    requires
        sized(min, max, pct),
        claim(avail, min, pct, c),
        100real * (number::total(c) - avail) <= 1real,
        100real * (avail - number::total(c)) <= 1real,
    ensures
        distribute::distributed(avail, min, max, pct) == c,
{
    lemma_claim(avail, min, pct, c);
}

/// As long as the claims do not exceed the width by over a hundredth, a percentage
/// column beside a column without a percentage gets what it claims: its percentage of
/// the width, or its least width where that is more.
pub proof fn law_percentage_width(
    avail: real,
    min: Seq<real>,
    max: Seq<real>,
    pct: Seq<real>,
    c: Seq<real>,
    i: int,
    plain: int,
)
    requires
        sized(min, max, pct),
        claim(avail, min, pct, c),
        100real * (number::total(c) - avail) <= 1real,
        0 <= i < min.len(),
        0real < pct[i],
        0 <= plain < min.len(),
        pct[plain] == 0real,
    ensures
        distribute::distributed(avail, min, max, pct)[i] == c[i],
{
    lemma_claim(avail, min, pct, c);
    exact::law_percentage_kept(avail, min, max, pct, i, plain);
}

/// What columns without a percentage get of a width that exceeds all claims by over a
/// hundredth. Either none is wider than its content without wrapping, and they have
/// grown towards that in proportion, or none is narrower, and they have all been
/// stretched beyond that by the same width.
pub proof fn law_plain_widths(
    avail: real,
    min: Seq<real>,
    max: Seq<real>,
    pct: Seq<real>,
    c: Seq<real>,
)
    requires
        sized(min, max, pct),
        claim(avail, min, pct, c),
        100real * (avail - number::total(c)) > 1real,
    ensures
        ({
            let d = distribute::distributed(avail, min, max, pct);
            let most = Seq::new(
                min.len(),
                |i: int|
                    if min[i] < max[i] {
                        max[i]
                    } else {
                        min[i]
                    },
            );
            ||| forall|i: int, j: int|
                #![trigger d[i], d[j]]
                0 <= i < d.len() && 0 <= j < d.len() && pct[i] == 0real && pct[j] == 0real ==> {
                    &&& min[i] <= d[i] <= most[i]
                    &&& (d[i] - min[i]) * (most[j] - min[j]) == (d[j] - min[j]) * (most[i] - min[i])
                }
            ||| forall|i: int, j: int|
                #![trigger d[i], d[j]]
                0 <= i < d.len() && 0 <= j < d.len() && pct[i] == 0real && pct[j] == 0real ==> {
                    &&& most[i] <= d[i]
                    &&& d[i] - most[i] == d[j] - most[j]
                }
        }),
{
    lemma_claim(avail, min, pct, c);
    let d = distribute::distributed(avail, min, max, pct);
    let n = min.len() as int;
    let extra = avail - number::total(c);
    let grow = distribute::room(c, max, pct);
    let growth = number::total(grow);
    assert(d == distribute::filled(c, extra, max, pct));
    let take = if growth < extra {
        growth
    } else {
        extra
    };
    let most = Seq::new(
        min.len(),
        |i: int|
            if min[i] < max[i] {
                max[i]
            } else {
                min[i]
            },
    );
    assert forall|i: int| 0 <= i < n implies 0real <= #[trigger] grow[i] by {}
    exact::lemma_total_not_negative(grow);
    assert forall|i: int| 0 <= i < n && pct[i] == 0real implies #[trigger] grow[i] == most[i]
        - min[i] by {
        assert(c[i] == min[i]);
    }
    if extra <= growth {
        assert(0real < growth);
        let grown = distribute::grown(c, take, grow);
        assert(d == grown);
        assert forall|i: int, j: int|
            #![trigger d[i], d[j]]
            0 <= i < d.len() && 0 <= j < d.len() && pct[i] == 0real && pct[j] == 0real implies
            min[i] <= d[i] <= most[i] && (d[i] - min[i]) * (most[j] - min[j]) == (d[j] - min[j]) * (
            most[i] - min[i]) by {
            lemma_part(take, grow, i);
            lemma_part(take, grow, j);
            let p = distribute::part(take, grow[i], grow);
            let q = distribute::part(take, grow[j], grow);
            assert(c[i] == min[i] && c[j] == min[j]);
            lemma_proportional(p, q, grow[i], grow[j], take, growth);
            let g = grow[i];
            assert(0real <= p <= g) by (nonlinear_arith)
                requires
                    p * growth == take * g,
                    0real < growth,
                    0real <= take <= growth,
                    0real <= g,
            ;
        }
    } else {
        assert forall|i: int, j: int|
            #![trigger d[i], d[j]]
            0 <= i < d.len() && 0 <= j < d.len() && pct[i] == 0real && pct[j] == 0real implies
            most[i] <= d[i] && d[i] - most[i] == d[j] - most[j] by {
            exact::lemma_some_plain(pct, n, i);
            exact::lemma_plain_columns(pct, n);
            let m = distribute::plain_columns(pct, n) as real;
            let left = extra - take;
            let share = left / m;
            assert(0real <= share) by (nonlinear_arith)
                requires
                    share == left / m,
                    0real < m,
                    0real <= left,
            ;
            assert(c[i] == min[i] && c[j] == min[j]);
            if 0real < growth {
                lemma_part(take, grow, i);
                lemma_part(take, grow, j);
                let p = distribute::part(take, grow[i], grow);
                let q = distribute::part(take, grow[j], grow);
                let g = grow[i];
                let h = grow[j];
                assert(p == g && q == h) by (nonlinear_arith)
                    requires
                        p * growth == growth * g,
                        q * growth == growth * h,
                        0real < growth,
                ;
            } else {
                exact::lemma_total_term(grow, i);
                exact::lemma_total_term(grow, j);
            }
        }
    }
}

/// Percentage columns without other columns beside them, whose claims leave over a
/// hundredth of the width, are all stretched by the same width.
pub proof fn law_percentages_stretched(
    avail: real,
    min: Seq<real>,
    max: Seq<real>,
    pct: Seq<real>,
    c: Seq<real>,
    i: int,
    j: int,
)
    requires
        sized(min, max, pct),
        claim(avail, min, pct, c),
        100real * (avail - number::total(c)) > 1real,
        forall|k: int| 0 <= k < pct.len() ==> 0real < #[trigger] pct[k],
        0 <= i < min.len(),
        0 <= j < min.len(),
    ensures
        ({
            let d = distribute::distributed(avail, min, max, pct);
            c[i] <= d[i] && d[i] - c[i] == d[j] - c[j]
        }),
{
    lemma_claim(avail, min, pct, c);
    let n = min.len() as int;
    let extra = avail - number::total(c);
    let grow = distribute::room(c, max, pct);
    assert forall|k: int| 0 <= k < grow.len() implies #[trigger] grow[k] == 0real by {
        assert(0real < pct[k]);
    }
    exact::lemma_total_equal(grow, 0real);
    assert(number::total(grow) == 0real) by (nonlinear_arith)
        requires
            number::total(grow) == 0real * (grow.len() as real),
    ;
    lemma_no_plain(pct, n);
    let m = n as real;
    let share = extra / m;
    assert(0real <= share) by (nonlinear_arith)
        requires
            share == extra / m,
            0real < m,
            0real <= extra,
    ;
}

proof fn lemma_no_plain(pct: Seq<real>, n: int)
    requires
        0 <= n <= pct.len(),
        forall|k: int| 0 <= k < pct.len() ==> 0real < #[trigger] pct[k],
    ensures
        distribute::plain_columns(pct, n) == 0,
    decreases n,
{
    if n > 0 {
        lemma_no_plain(pct, n - 1);
        assert(0real < pct[n - 1]);
    }
}

/// What columns get of a width that all claims exceed by over a hundredth: columns
/// without a percentage have their least width, and percentage columns have shrunk from
/// their claims towards their least widths in proportion.
pub proof fn law_shrunk_widths(
    avail: real,
    min: Seq<real>,
    max: Seq<real>,
    pct: Seq<real>,
    c: Seq<real>,
    i: int,
    j: int,
)
    requires
        sized(min, max, pct),
        claim(avail, min, pct, c),
        100real * (number::total(c) - avail) > 1real,
        0 <= i < min.len(),
        0 <= j < min.len(),
    ensures
        ({
            let d = distribute::distributed(avail, min, max, pct);
            &&& min[i] <= d[i] <= c[i]
            &&& pct[i] == 0real ==> d[i] == min[i]
            &&& (d[i] - min[i]) * (c[j] - min[j]) == (d[j] - min[j]) * (c[i] - min[i])
        }),
{
    lemma_claim(avail, min, pct, c);
    let d = distribute::distributed(avail, min, max, pct);
    let excess = number::total(c) - avail;
    let give = distribute::spare(c, min);
    let all = number::total(give);
    assert(d == distribute::relieved(c, excess, min));
    assert forall|k: int| 0 <= k < give.len() implies 0real <= #[trigger] give[k] by {}
    assert(min[i] <= c[i] && min[j] <= c[j]);
    assert(give[i] == c[i] - min[i] && give[j] == c[j] - min[j]);
    if 0real < all {
        let take = if all < excess {
            all
        } else {
            excess
        };
        let p = distribute::part(take, give[i], give);
        let q = distribute::part(take, give[j], give);
        lemma_part(take, give, i);
        lemma_part(take, give, j);
        let g = give[i];
        let h = give[j];
        lemma_proportional(p, q, g, h, take, all);
        assert(0real <= p <= g) by (nonlinear_arith)
            requires
                p * all == take * g,
                0real < all,
                0real <= take <= all,
                0real <= g,
        ;
        assert((g - p) * h == (h - q) * g) by (nonlinear_arith)
            requires
                p * h == q * g,
        ;
        assert(d[i] == c[i] - p && d[j] == c[j] - q);
    } else {
        exact::lemma_total_term(give, i);
        exact::lemma_total_term(give, j);
    }
}

/// The widths of all columns make up the width or, where it is larger, the sum of the
/// least widths. Only a difference of a hundredth or less between the claims and the
/// width is left as it is.
pub proof fn law_widths_sum(
    avail: real,
    min: Seq<real>,
    max: Seq<real>,
    pct: Seq<real>,
    c: Seq<real>,
)
    requires
        sized(min, max, pct),
        claim(avail, min, pct, c),
    ensures
        ({
            let d = distribute::distributed(avail, min, max, pct);
            let over = 100real * (number::total(c) - avail);
            &&& d.len() == min.len()
            &&& over < -1real ==> number::total(d) == avail
            &&& over > 1real && number::total(min) <= avail ==> number::total(d) == avail
            &&& over > 1real && avail < number::total(min) ==> number::total(d) == number::total(
                min,
            )
        }),
{
    lemma_claim(avail, min, pct, c);
    exact::law_fill(avail, min, max, pct);
    assert forall|i: int| 0 <= i < min.len() implies #[trigger] min[i] <= c[i] by {
        assert(min[i] <= c[i]);
    }
    assert forall|i: int| 0 <= i < c.len() implies min[i] <= #[trigger] c[i] by {}
    exact::lemma_total_increases(min, c);
}

/// The part of a width that a column with a percentage aims at, in binary32 numbers. All
/// percentages together count for the whole at most.
pub open spec fn target(avail: Binary32, pct: Seq<Binary32>, i: int) -> Binary32 {
    let all = number::total(pct);
    pct[i].product(
        if Binary32::one().less(all) {
            Binary32::one().quotient(all)
        } else {
            Binary32::one()
        },
    ).product(avail)
}

/// A column with a percentage claims its part of the width or its least width, and no
/// less than either of them. Other columns claim their least width.
pub proof fn law_binary_claims(
    avail: Binary32,
    min: Seq<Binary32>,
    pct: Seq<Binary32>,
    i: int,
)
    requires
        0 <= i < min.len() <= pct.len(),
    ensures
        ({
            let c = distribute::claims(avail, min, pct);
            &&& c.len() == min.len()
            &&& if Binary32::zero().less(pct[i]) {
                &&& c[i] == target(avail, pct, i) || c[i] == min[i]
                &&& !target(avail, pct, i).nan() ==> target(avail, pct, i).at_most(c[i])
                &&& !min[i].nan() ==> min[i].at_most(c[i])
            } else {
                c[i] == min[i]
            }
        }),
{
}

/// As long as the claims do not exceed the width by over a hundredth, a percentage
/// column beside a column without a percentage is as wide as its part of the width or,
/// where that is more, as its least width.
pub proof fn law_binary_percentage_width(
    avail: Binary32,
    min: Seq<Binary32>,
    max: Seq<Binary32>,
    pct: Seq<Binary32>,
    i: int,
    plain: int,
)
    requires
        min.len() == max.len() == pct.len(),
        0 <= i < min.len(),
        Binary32::zero().less(pct[i]),
        0 <= plain < min.len(),
        pct[plain].is_zero(),
        !avail.sum(Binary32::slack()).less(
            number::total(
                Seq::new(
                    min.len(),
                    |k: int|
                        if Binary32::zero().less(pct[k]) {
                            target(avail, pct, k).larger(min[k])
                        } else {
                            min[k]
                        },
                ),
            ),
        ),
        !distribute::distributed(avail, min, max, pct)[i].nan(),
    ensures
        ({
            let d = distribute::distributed(avail, min, max, pct)[i];
            &&& !target(avail, pct, i).nan() ==> target(avail, pct, i).at_most(d)
            &&& !min[i].nan() ==> min[i].at_most(d)
            &&& d.rank() == target(avail, pct, i).rank() || d.rank() == min[i].rank()
        }),
{
    let c = Seq::new(
        min.len(),
        |k: int|
            if Binary32::zero().less(pct[k]) {
                target(avail, pct, k).larger(min[k])
            } else {
                min[k]
            },
    );
    assert(c =~= distribute::claims(avail, min, pct));
    rounded::law_percentage_kept(avail, min, max, pct, i, plain);
}

/// A column without a percentage is never narrower than its content needs.
pub proof fn law_binary_floor(
    avail: Binary32,
    min: Seq<Binary32>,
    max: Seq<Binary32>,
    pct: Seq<Binary32>,
    i: int,
)
    requires
        min.len() == max.len() == pct.len(),
        0 <= i < min.len(),
        pct[i].is_zero(),
        !min[i].nan(),
        !distribute::distributed(avail, min, max, pct)[i].nan(),
    ensures
        min[i].at_most(distribute::distributed(avail, min, max, pct)[i]),
{
    assert(distribute::claims(avail, min, pct)[i] == min[i]);
    rounded::law_floor(avail, min, max, pct, i);
}

/// The columns without a percentage, counted.
proof fn lemma_plain_count<N: Number>(pct: Seq<N>, n: int)
    requires
        0 <= n <= pct.len(),
    ensures
        distribute::plain_columns(pct, n) == pct.take(n).filter(|p: N| p.is_zero()).len(),
    decreases n,
{
    reveal(Seq::filter);
    if n > 0 {
        lemma_plain_count(pct, n - 1);
        assert(pct.take(n).drop_last() =~= pct.take(n - 1));
    }
}

/// The operations that make up a column's width, in any kind of number. Where numbers
/// are rounded, it matters which operations they are and in which order they come.
///
/// With more width than claims, a column without a percentage gets its part of the growth,
/// which is what it can grow times what is given over what all columns can grow, and then
/// an equal share of the rest. With less, a column gives its part of the excess likewise.
pub proof fn law_operations<N: Number>(
    avail: N,
    min: Seq<N>,
    max: Seq<N>,
    pct: Seq<N>,
    c: Seq<N>,
    room: Seq<N>,
    spare: Seq<N>,
    i: int,
)
    requires
        c.len() == room.len() == spare.len() == min.len() == max.len() == pct.len(),
        0 <= i < min.len(),
        forall|k: int|
            0 <= k < min.len() ==> {
                let all = number::total(pct);
                let scale = if N::one().less(all) {
                    N::one().quotient(all)
                } else {
                    N::one()
                };
                &&& #[trigger] c[k] == if N::zero().less(pct[k]) {
                    pct[k].product(scale).product(avail).larger(min[k])
                } else {
                    min[k]
                }
                &&& room[k] == if pct[k].is_zero() {
                    max[k].difference(c[k]).larger(N::zero())
                } else {
                    N::zero()
                }
                &&& spare[k] == c[k].difference(min[k]).larger(N::zero())
            },
    ensures
        ({
            let d = distribute::distributed(avail, min, max, pct)[i];
            let claimed = number::total(c);
            let growth = number::total(room);
            let slack = number::total(spare);
            let plain = pct.filter(|p: N| p.is_zero()).len() as int;
            let shares = if plain == 0 {
                min.len() as int
            } else {
                plain
            };
            if claimed.sum(N::slack()).less(avail) {
                let extra = avail.difference(claimed);
                let take = extra.smaller(growth);
                let (wide, left) = if N::zero().less(growth) {
                    (c[i].sum(take.product(room[i]).quotient(growth)), extra.difference(take))
                } else {
                    (c[i], extra)
                };
                d == if N::zero().less(left) && (pct[i].is_zero() || plain == 0) {
                    wide.sum(left.quotient(N::count(shares)))
                } else {
                    wide
                }
            } else if avail.sum(N::slack()).less(claimed) && N::zero().less(slack) {
                let take = claimed.difference(avail).smaller(slack);
                d == c[i].difference(take.product(spare[i]).quotient(slack))
            } else {
                d == c[i]
            }
        }),
{
    assert(c =~= distribute::claims(avail, min, pct));
    assert forall|k: int| 0 <= k < room.len() implies #[trigger] room[k] == distribute::room(
        c,
        max,
        pct,
    )[k] by {
        assert(c[k] == distribute::claims(avail, min, pct)[k]);
    }
    assert(room =~= distribute::room(c, max, pct));
    assert forall|k: int| 0 <= k < spare.len() implies #[trigger] spare[k] == distribute::spare(
        c,
        min,
    )[k] by {
        assert(c[k] == distribute::claims(avail, min, pct)[k]);
    }
    assert(spare =~= distribute::spare(c, min));
    lemma_plain_count(pct, pct.len() as int);
    assert(pct.take(pct.len() as int) =~= pct);
}

}
