//! Distributing a definite width across columns.

use vstd::prelude::*;

use crate::binary32::Binary32;
use crate::number;
use crate::number::Number;

verus! {

/// What each percentage counts for: less than itself where all of them together
/// exceed the whole.
pub open spec fn scale<N: Number>(pct: Seq<N>) -> N {
    if N::one().less(number::total(pct)) {
        N::one().quotient(number::total(pct))
    } else {
        N::one()
    }
}

/// The widths that columns claim: a percentage column its share of the width, but
/// no less than its content's minimum, and any other column that minimum.
pub open spec fn claims<N: Number>(avail: N, min: Seq<N>, pct: Seq<N>) -> Seq<N> {
    Seq::new(
        min.len(),
        |i: int|
            if N::zero().less(pct[i]) {
                pct[i].product(scale(pct)).product(avail).larger(min[i])
            } else {
                min[i]
            },
    )
}

/// How far each column can grow towards its content's maximum. Percentage columns
/// do not grow.
pub open spec fn room<N: Number>(w: Seq<N>, max: Seq<N>, pct: Seq<N>) -> Seq<N> {
    Seq::new(
        w.len(),
        |i: int|
            if pct[i].is_zero() {
                max[i].difference(w[i]).larger(N::zero())
            } else {
                N::zero()
            },
    )
}

/// How far each column can shrink towards its content's minimum.
pub open spec fn spare<N: Number>(w: Seq<N>, min: Seq<N>) -> Seq<N> {
    Seq::new(w.len(), |i: int| w[i].difference(min[i]).larger(N::zero()))
}

/// The part of `amount` that falls to an item of weight `weight` among `weights`.
pub open spec fn part<N: Number>(amount: N, weight: N, weights: Seq<N>) -> N {
    amount.product(weight).quotient(number::total(weights))
}

/// The columns after `amount` was added to them by weight.
pub open spec fn grown<N: Number>(w: Seq<N>, amount: N, weights: Seq<N>) -> Seq<N> {
    Seq::new(w.len(), |i: int| w[i].sum(part(amount, weights[i], weights)))
}

/// The columns after `amount` was taken from them by weight.
pub open spec fn shrunk<N: Number>(w: Seq<N>, amount: N, weights: Seq<N>) -> Seq<N> {
    Seq::new(w.len(), |i: int| w[i].difference(part(amount, weights[i], weights)))
}

/// The number of columns among the first `n` that have no percentage.
pub open spec fn plain_columns<N: Number>(pct: Seq<N>, n: int) -> int
    decreases n,
{
    if n <= 0 {
        0
    } else {
        plain_columns(pct, n - 1) + if pct[n - 1].is_zero() {
            1int
        } else {
            0int
        }
    }
}

/// Whether column `i` of `n` takes part in stretching: the columns without a
/// percentage do or, where there are none, all columns.
pub open spec fn stretches<N: Number>(pct: Seq<N>, n: int, i: int) -> bool {
    pct[i].is_zero() || plain_columns(pct, n) == 0
}

/// The columns after `amount` was added, in equal shares, to those that stretch.
pub open spec fn stretched<N: Number>(w: Seq<N>, amount: N, pct: Seq<N>) -> Seq<N> {
    let n = w.len() as int;
    let targets = if plain_columns(pct, n) == 0 {
        n
    } else {
        plain_columns(pct, n)
    };
    Seq::new(
        w.len(),
        |i: int|
            if stretches(pct, n, i) {
                w[i].sum(amount.quotient(N::count(targets)))
            } else {
                w[i]
            },
    )
}

/// The columns after `extra` was given to them: first they grow towards their
/// content's maximum, then what is left stretches them.
pub open spec fn filled<N: Number>(w: Seq<N>, extra: N, max: Seq<N>, pct: Seq<N>) -> Seq<N> {
    let grow = room(w, max, pct);
    let growth = number::total(grow);
    let take = extra.smaller(growth);
    let wider = if N::zero().less(growth) {
        grown(w, take, grow)
    } else {
        w
    };
    let left = if N::zero().less(growth) {
        extra.difference(take)
    } else {
        extra
    };
    if N::zero().less(left) {
        stretched(wider, left, pct)
    } else {
        wider
    }
}

/// The columns after `excess` was taken from them, as far as they can shrink.
pub open spec fn relieved<N: Number>(w: Seq<N>, excess: N, min: Seq<N>) -> Seq<N> {
    let give = spare(w, min);
    let slack = number::total(give);
    if N::zero().less(slack) {
        shrunk(w, excess.smaller(slack), give)
    } else {
        w
    }
}

/// The widths that columns get of a definite width `avail`, from what they claim.
pub open spec fn distributed<N: Number>(
    avail: N,
    min: Seq<N>,
    max: Seq<N>,
    pct: Seq<N>,
) -> Seq<N> {
    let w = claims(avail, min, pct);
    let assigned = number::total(w);
    if assigned.sum(N::slack()).less(avail) {
        filled(w, avail.difference(assigned), max, pct)
    } else if avail.sum(N::slack()).less(assigned) {
        relieved(w, assigned.difference(avail), min)
    } else {
        w
    }
}

/// The sum of all items.
pub fn total_of(items: &[Binary32]) -> (r: Binary32)
    ensures
        r == number::total(items@),
{
    let mut r: Binary32 = Binary32::nil();
    let mut i: usize = 0;
    assert(items@.take(0) =~= Seq::empty());
    while i < items.len()
        invariant
            i <= items.len(),
            r == number::total(items@.take(i as int)),
        decreases items.len() - i,
    {
        assert(items@.take(i + 1).drop_last() =~= items@.take(i as int));
        r = r.plus(items[i]);
        i = i + 1;
    }
    assert(items@.take(items.len() as int) =~= items@);
    r
}

fn claims_of(avail: Binary32, min: &[Binary32], pct: &[Binary32]) -> (w: Vec<Binary32>)
    requires
        min.len() <= pct.len(),
    ensures
        w@ == claims(avail, min@, pct@),
{
    let psum: Binary32 = total_of(pct);
    let one: Binary32 = Binary32::from_bits(0x3f80_0000);
    let factor: Binary32 = if one.lt(psum) {
        one.over(psum)
    } else {
        one
    };
    let mut w: Vec<Binary32> = Vec::new();
    let mut i: usize = 0;
    while i < min.len()
        invariant
            i <= min.len() <= pct.len(),
            w@ == claims(avail, min@, pct@).take(i as int),
            factor == scale(pct@),
        decreases min.len() - i,
    {
        let width: Binary32 = if Binary32::nil().lt(pct[i]) {
            pct[i].times(factor).times(avail).max(min[i])
        } else {
            min[i]
        };
        w.push(width);
        i = i + 1;
        assert(w@ =~= claims(avail, min@, pct@).take(i as int));
    }
    w
}

fn room_of(w: &[Binary32], max: &[Binary32], pct: &[Binary32]) -> (r: Vec<Binary32>)
    requires
        w.len() <= max.len(),
        w.len() <= pct.len(),
    ensures
        r@ == room(w@, max@, pct@),
{
    let mut r: Vec<Binary32> = Vec::new();
    let mut i: usize = 0;
    while i < w.len()
        invariant
            i <= w.len() <= max.len(),
            w.len() <= pct.len(),
            r@ == room(w@, max@, pct@).take(i as int),
        decreases w.len() - i,
    {
        let by: Binary32 = if pct[i].equals_zero() {
            max[i].minus(w[i]).max(Binary32::nil())
        } else {
            Binary32::nil()
        };
        r.push(by);
        i = i + 1;
        assert(r@ =~= room(w@, max@, pct@).take(i as int));
    }
    r
}

fn spare_of(w: &[Binary32], min: &[Binary32]) -> (r: Vec<Binary32>)
    requires
        w.len() <= min.len(),
    ensures
        r@ == spare(w@, min@),
{
    let mut r: Vec<Binary32> = Vec::new();
    let mut i: usize = 0;
    while i < w.len()
        invariant
            i <= w.len() <= min.len(),
            r@ == spare(w@, min@).take(i as int),
        decreases w.len() - i,
    {
        r.push(w[i].minus(min[i]).max(Binary32::nil()));
        i = i + 1;
        assert(r@ =~= spare(w@, min@).take(i as int));
    }
    r
}

/// Adds `amount` to the columns by weight or, where `shrink`, takes it from them.
fn weighted(
    w: &[Binary32],
    amount: Binary32,
    weights: &[Binary32],
    all: Binary32,
    shrink: bool,
) -> (r: Vec<Binary32>)
    requires
        w.len() == weights.len(),
        all == number::total(weights@),
    ensures
        shrink ==> r@ == shrunk(w@, amount, weights@),
        !shrink ==> r@ == grown(w@, amount, weights@),
{
    let mut r: Vec<Binary32> = Vec::new();
    let mut i: usize = 0;
    let ghost goal = if shrink {
        shrunk(w@, amount, weights@)
    } else {
        grown(w@, amount, weights@)
    };
    while i < w.len()
        invariant
            i <= w.len() == weights.len(),
            all == number::total(weights@),
            goal == if shrink {
                shrunk(w@, amount, weights@)
            } else {
                grown(w@, amount, weights@)
            },
            r@ == goal.take(i as int),
        decreases w.len() - i,
    {
        let by: Binary32 = amount.times(weights[i]).over(all);
        if shrink {
            r.push(w[i].minus(by));
        } else {
            r.push(w[i].plus(by));
        }
        i = i + 1;
        assert(r@ =~= goal.take(i as int));
    }
    r
}

fn stretched_of(w: &[Binary32], amount: Binary32, pct: &[Binary32]) -> (r: Vec<Binary32>)
    requires
        w.len() <= pct.len(),
    ensures
        r@ == stretched(w@, amount, pct@),
{
    let n: usize = w.len();
    let mut plain: usize = 0;
    let mut i: usize = 0;
    while i < n
        invariant
            i <= n == w.len() <= pct.len(),
            plain <= i,
            plain == plain_columns(pct@, i as int),
        decreases n - i,
    {
        if pct[i].equals_zero() {
            plain = plain + 1;
        }
        i = i + 1;
    }
    let targets: usize = if plain == 0 {
        n
    } else {
        plain
    };
    let share: Binary32 = amount.over(Binary32::from_count(targets));
    let mut r: Vec<Binary32> = Vec::new();
    i = 0;
    while i < n
        invariant
            i <= n == w.len() <= pct.len(),
            plain == plain_columns(pct@, n as int),
            targets == if plain == 0 {
                n
            } else {
                plain
            },
            share == amount.quotient(Binary32::count(targets as int)),
            r@ == stretched(w@, amount, pct@).take(i as int),
        decreases n - i,
    {
        if pct[i].equals_zero() || plain == 0 {
            r.push(w[i].plus(share));
        } else {
            r.push(w[i]);
        }
        i = i + 1;
        assert(r@ =~= stretched(w@, amount, pct@).take(i as int));
    }
    r
}

fn filled_of(
    w: Vec<Binary32>,
    extra: Binary32,
    max: &[Binary32],
    pct: &[Binary32],
) -> (r: Vec<Binary32>)
    requires
        w.len() <= max.len(),
        w.len() <= pct.len(),
    ensures
        r@ == filled(w@, extra, max@, pct@),
{
    let grow: Vec<Binary32> = room_of(w.as_slice(), max, pct);
    let growth: Binary32 = total_of(grow.as_slice());
    let mut wider: Vec<Binary32> = w;
    let mut left: Binary32 = extra;
    if Binary32::nil().lt(growth) {
        let take: Binary32 = extra.min(growth);
        wider = weighted(wider.as_slice(), take, grow.as_slice(), growth, false);
        left = extra.minus(take);
    }
    if Binary32::nil().lt(left) {
        stretched_of(wider.as_slice(), left, pct)
    } else {
        wider
    }
}

fn relieved_of(w: Vec<Binary32>, excess: Binary32, min: &[Binary32]) -> (r: Vec<Binary32>)
    requires
        w.len() <= min.len(),
    ensures
        r@ == relieved(w@, excess, min@),
{
    let give: Vec<Binary32> = spare_of(w.as_slice(), min);
    let slack: Binary32 = total_of(give.as_slice());
    if Binary32::nil().lt(slack) {
        weighted(w.as_slice(), excess.min(slack), give.as_slice(), slack, true)
    } else {
        w
    }
}

/// Distributes a definite width `avail` across columns that are described by the
/// minimum and the maximum of their content and by their percentage, which is
/// zero where a column has none.
///
/// Percentage columns claim that part of the width, but no less than their
/// content's minimum, and a smaller part where the percentages together exceed
/// the whole. The other columns claim their content's minimum. Width that is left
/// over goes to the columns without a percentage, which first grow towards their
/// content's maximum and then stretch. Where the columns claim too much, they
/// shrink towards their content's minimum.
pub fn distribute_columns(
    avail: Binary32,
    min: &[Binary32],
    max: &[Binary32],
    pct: &[Binary32],
) -> (w: Vec<Binary32>)
    requires
        min.len() <= max.len(),
        min.len() <= pct.len(),
    ensures
        w@ == distributed(avail, min@, max@, pct@),
        w.len() == min.len(),
{
    let w: Vec<Binary32> = claims_of(avail, min, pct);
    let assigned: Binary32 = total_of(w.as_slice());
    let slack: Binary32 = Binary32::from_bits(0x3c23_d70a);
    if assigned.plus(slack).lt(avail) {
        filled_of(w, avail.minus(assigned), max, pct)
    } else if avail.plus(slack).lt(assigned) {
        relieved_of(w, assigned.minus(avail), min)
    } else {
        w
    }
}

}
