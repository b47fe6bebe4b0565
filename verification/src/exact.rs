//! Column sizing without rounding.

use vstd::prelude::*;

use crate::columns;
use crate::distribute;
use crate::laws;
use crate::number;
use crate::number::Number;

verus! {

impl Number for real {
    open spec fn zero() -> real {
        0real
    }

    open spec fn one() -> real {
        1real
    }

    open spec fn slack() -> real {
        1real / 100real
    }

    open spec fn count(n: int) -> real {
        n as real
    }

    open spec fn sum(self, other: real) -> real {
        self + other
    }

    open spec fn difference(self, other: real) -> real {
        self - other
    }

    open spec fn product(self, other: real) -> real {
        self * other
    }

    open spec fn quotient(self, other: real) -> real {
        self / other
    }

    open spec fn larger(self, other: real) -> real {
        if self < other {
            other
        } else {
            self
        }
    }

    open spec fn smaller(self, other: real) -> real {
        if other < self {
            other
        } else {
            self
        }
    }

    open spec fn less(self, other: real) -> bool {
        self < other
    }

    open spec fn at_most(self, other: real) -> bool {
        self <= other
    }

    open spec fn is_zero(self) -> bool {
        self == 0real
    }
}

/// The sum of column by column sums.
pub proof fn lemma_total_sum(a: Seq<real>, b: Seq<real>, c: Seq<real>)
    requires
        a.len() == b.len() == c.len(),
        forall|i: int| 0 <= i < c.len() ==> #[trigger] c[i] == a[i] + b[i],
    ensures
        number::total(c) == number::total(a) + number::total(b),
    decreases c.len(),
{
    if c.len() > 0 {
        lemma_total_sum(a.drop_last(), b.drop_last(), c.drop_last());
    }
}

/// The sum of scaled items.
proof fn lemma_total_scaled(a: Seq<real>, b: Seq<real>, k: real)
    requires
        a.len() == b.len(),
        forall|i: int| 0 <= i < b.len() ==> #[trigger] b[i] == k * a[i],
    ensures
        number::total(b) == k * number::total(a),
    decreases b.len(),
{
    if b.len() > 0 {
        lemma_total_scaled(a.drop_last(), b.drop_last(), k);
        let x = number::total(a.drop_last());
        let y = a.last();
        assert(k * x + k * y == k * (x + y)) by (nonlinear_arith);
    } else {
        assert(k * 0real == 0real) by (nonlinear_arith);
    }
}

/// Larger items have the larger sum.
pub proof fn lemma_total_increases(a: Seq<real>, b: Seq<real>)
    requires
        a.len() == b.len(),
        forall|i: int| 0 <= i < b.len() ==> a[i] <= #[trigger] b[i],
    ensures
        number::total(a) <= number::total(b),
    decreases b.len(),
{
    if b.len() > 0 {
        lemma_total_increases(a.drop_last(), b.drop_last());
    }
}

/// The sum of items that are not negative is none of them short.
pub proof fn lemma_total_term(a: Seq<real>, i: int)
    requires
        0 <= i < a.len(),
        forall|k: int| 0 <= k < a.len() ==> 0real <= #[trigger] a[k],
    ensures
        a[i] <= number::total(a),
    decreases a.len(),
{
    if i < a.len() - 1 {
        lemma_total_term(a.drop_last(), i);
    } else {
        lemma_total_not_negative(a.drop_last());
    }
}

/// The sum of items that are not negative is not negative.
pub proof fn lemma_total_not_negative(a: Seq<real>)
    requires
        forall|k: int| 0 <= k < a.len() ==> 0real <= #[trigger] a[k],
    ensures
        0real <= number::total(a),
    decreases a.len(),
{
    if a.len() > 0 {
        lemma_total_not_negative(a.drop_last());
    }
}

/// Sharing by weight leaves nothing over, and gives no item more than its weight
/// where there is no more than all weights to share.
proof fn lemma_parts(amount: real, weights: Seq<real>)
    requires
        number::total(weights) > 0real,
    ensures
        ({
            let parts = Seq::new(
                weights.len(),
                |i: int| distribute::part(amount, weights[i], weights),
            );
            &&& number::total(parts) == amount
            &&& forall|i: int|
                0 <= i < parts.len() && 0real <= weights[i] && 0real <= amount ==> 0real
                    <= #[trigger] parts[i]
            &&& forall|i: int|
                0 <= i < parts.len() && 0real <= weights[i] && amount <= number::total(weights)
                    ==> #[trigger] parts[i] <= weights[i]
            &&& forall|i: int|
                0 <= i < parts.len() && weights[i] == 0real ==> #[trigger] parts[i] == 0real
            &&& amount == number::total(weights) ==> parts == weights
        }),
{
    let all = number::total(weights);
    let parts = Seq::new(weights.len(), |i: int| distribute::part(amount, weights[i], weights));
    let k = amount / all;
    assert forall|i: int| 0 <= i < parts.len() implies #[trigger] parts[i] == k * weights[i] by {
        let w = weights[i];
        assert(amount * w / all == (amount / all) * w) by (nonlinear_arith)
            requires
                all > 0real,
        ;
    }
    lemma_total_scaled(weights, parts, k);
    assert((amount / all) * all == amount) by (nonlinear_arith)
        requires
            all > 0real,
    ;
    assert forall|i: int|
        0 <= i < parts.len() && 0real <= weights[i] && 0real <= amount implies 0real
        <= #[trigger] parts[i] by {
        let w = weights[i];
        assert(0real <= amount / all) by (nonlinear_arith)
            requires
                all > 0real,
                0real <= amount,
        ;
        assert(0real <= k * w) by (nonlinear_arith)
            requires
                0real <= k,
                0real <= w,
        ;
    }
    assert forall|i: int|
        0 <= i < parts.len() && 0real <= weights[i] && amount <= all implies #[trigger] parts[i]
        <= weights[i] by {
        let w = weights[i];
        assert(amount / all <= 1real) by (nonlinear_arith)
            requires
                all > 0real,
                amount <= all,
        ;
        assert(k * w <= w) by (nonlinear_arith)
            requires
                k <= 1real,
                0real <= w,
        ;
    }
    assert forall|i: int| 0 <= i < parts.len() && weights[i] == 0real implies #[trigger] parts[i]
        == 0real by {
        assert(k * 0real == 0real) by (nonlinear_arith);
    }
    if amount == all {
        assert(all / all == 1real) by (nonlinear_arith)
            requires
                all > 0real,
        ;
        assert forall|i: int| 0 <= i < parts.len() implies #[trigger] parts[i] == weights[i] by {
            let w = weights[i];
            assert(1real * w == w) by (nonlinear_arith);
        }
        assert(parts =~= weights);
    }
}

/// Growing by weight adds the whole amount.
proof fn lemma_grown(w: Seq<real>, amount: real, weights: Seq<real>)
    requires
        w.len() == weights.len(),
        number::total(weights) > 0real,
    ensures
        number::total(distribute::grown(w, amount, weights)) == number::total(w) + amount,
        number::total(distribute::shrunk(w, amount, weights)) == number::total(w) - amount,
{
    lemma_parts(amount, weights);
    let parts = Seq::new(weights.len(), |i: int| distribute::part(amount, weights[i], weights));
    lemma_total_sum(w, parts, distribute::grown(w, amount, weights));
    lemma_total_sum(distribute::shrunk(w, amount, weights), parts, w);
}

/// What stretching adds to each column.
spec fn stretches_by(pct: Seq<real>, n: int, share: real) -> Seq<real> {
    Seq::new(
        n as nat,
        |i: int|
            if distribute::stretches(pct, n, i) {
                share
            } else {
                0real
            },
    )
}

/// The number of columns that stretch.
spec fn targets(pct: Seq<real>, n: int) -> int {
    if distribute::plain_columns(pct, n) == 0 {
        n
    } else {
        distribute::plain_columns(pct, n)
    }
}

pub proof fn lemma_plain_columns(pct: Seq<real>, n: int)
    requires
        0 <= n,
    ensures
        0 <= distribute::plain_columns(pct, n) <= n,
    decreases n,
{
    if n > 0 {
        lemma_plain_columns(pct, n - 1);
    }
}

proof fn lemma_stretches_by(pct: Seq<real>, n: int, share: real, k: int)
    requires
        0 <= k <= n <= pct.len(),
    ensures
        number::total(stretches_by(pct, n, share).take(k)) == share * ((if distribute::plain_columns(
            pct,
            n,
        ) == 0 {
            k
        } else {
            distribute::plain_columns(pct, k)
        }) as real),
    decreases k,
{
    let by = stretches_by(pct, n, share);
    let none = distribute::plain_columns(pct, n) == 0;
    if k > 0 {
        lemma_stretches_by(pct, n, share, k - 1);
        assert(by.take(k).drop_last() =~= by.take(k - 1));
        let before = if none {
            k - 1
        } else {
            distribute::plain_columns(pct, k - 1)
        };
        assert(share * (before as real) + share == share * ((before + 1) as real))
            by (nonlinear_arith);
    } else {
        assert(by.take(0) =~= Seq::empty());
        assert(share * (0int as real) == 0real) by (nonlinear_arith);
    }
}

/// Stretching adds the whole amount, and takes from no column.
proof fn lemma_stretched(w: Seq<real>, amount: real, pct: Seq<real>)
    requires
        0 < w.len() <= pct.len(),
        0real <= amount,
    ensures
        number::total(distribute::stretched(w, amount, pct)) == number::total(w) + amount,
        forall|i: int|
            0 <= i < w.len() ==> w[i] <= #[trigger] distribute::stretched(w, amount, pct)[i],
{
    let n = w.len() as int;
    let m = targets(pct, n);
    let share = amount / (m as real);
    let by = stretches_by(pct, n, share);
    let r = distribute::stretched(w, amount, pct);
    lemma_plain_columns(pct, n);
    lemma_stretches_by(pct, n, share, n);
    assert(by.take(n) =~= by);
    lemma_total_sum(w, by, r);
    let d = m as real;
    assert((amount / d) * d == amount && 0real <= amount / d) by (nonlinear_arith)
        requires
            d > 0real,
            0real <= amount,
    ;
}

/// Filling up makes the columns wider by the whole extra width, and none narrower.
proof fn lemma_filled(w: Seq<real>, extra: real, max: Seq<real>, pct: Seq<real>)
    requires
        0 < w.len() <= pct.len(),
        w.len() <= max.len(),
        0real < extra,
    ensures
        number::total(distribute::filled(w, extra, max, pct)) == number::total(w) + extra,
        forall|i: int| 0 <= i < w.len() ==> w[i] <= #[trigger] distribute::filled(
            w,
            extra,
            max,
            pct,
        )[i],
{
    let grow = distribute::room(w, max, pct);
    let growth = number::total(grow);
    let take = extra.smaller(growth);
    if 0real < growth {
        lemma_grown(w, take, grow);
        lemma_parts(take, grow);
        let wider = distribute::grown(w, take, grow);
        let parts = Seq::new(grow.len(), |i: int| distribute::part(take, grow[i], grow));
        assert forall|i: int| 0 <= i < w.len() implies w[i] <= #[trigger] wider[i] by {
            assert(0real <= parts[i]);
        }
        if 0real < extra - take {
            lemma_stretched(wider, extra - take, pct);
        }
    } else {
        lemma_stretched(w, extra, pct);
    }
}

/// Relieving takes the whole excess, or as much as leaves the least widths, and makes
/// no column narrower than its least width.
proof fn lemma_relieved(w: Seq<real>, excess: real, min: Seq<real>)
    requires
        w.len() == min.len(),
        0real < excess,
        forall|i: int| 0 <= i < w.len() ==> min[i] <= #[trigger] w[i],
    ensures
        number::total(distribute::relieved(w, excess, min)) == (number::total(w) - excess).larger(
            number::total(min),
        ),
        forall|i: int|
            0 <= i < w.len() ==> min[i] <= #[trigger] distribute::relieved(w, excess, min)[i],
        number::total(w) - excess <= number::total(min) ==> distribute::relieved(w, excess, min)
            == min,
{
    let give = distribute::spare(w, min);
    let slack = number::total(give);
    lemma_total_sum(min, give, w);
    lemma_total_not_negative(give);
    if 0real < slack {
        let take = excess.smaller(slack);
        lemma_grown(w, take, give);
        lemma_parts(take, give);
        let r = distribute::shrunk(w, take, give);
        let parts = Seq::new(give.len(), |i: int| distribute::part(take, give[i], give));
        assert forall|i: int| 0 <= i < w.len() implies min[i] <= #[trigger] r[i] by {
            assert(parts[i] <= give[i]);
        }
        if number::total(w) - excess <= number::total(min) {
            assert(take == slack);
            assert forall|i: int| 0 <= i < w.len() implies r[i] == min[i] by {
                assert(parts[i] == give[i]);
            }
            assert(r =~= min);
        }
    } else {
        assert forall|i: int| 0 <= i < w.len() implies w[i] == min[i] by {
            lemma_total_term(give, i);
        }
        assert(w =~= min);
    }
}

/// No column gets less than the least width of its content.
pub proof fn law_floor(avail: real, min: Seq<real>, max: Seq<real>, pct: Seq<real>, i: int)
    requires
        min.len() == max.len() == pct.len(),
        0 <= i < min.len(),
    ensures
        min[i] <= distribute::distributed(avail, min, max, pct)[i],
{
    let w = distribute::claims(avail, min, pct);
    let assigned = number::total(w);
    assert(forall|k: int| 0 <= k < w.len() ==> min[k] <= #[trigger] w[k]);
    if assigned + real::slack() < avail {
        lemma_filled(w, avail - assigned, max, pct);
    } else if avail + real::slack() < assigned {
        lemma_relieved(w, assigned - avail, min);
    }
}

/// The columns fill the width exactly or, where the least widths of their content need
/// more, they take that. A difference of a hundredth or less to what the columns claim
/// is left as it is.
pub proof fn law_fill(avail: real, min: Seq<real>, max: Seq<real>, pct: Seq<real>)
    requires
        0 < min.len() == max.len() == pct.len(),
    ensures
        ({
            let w = distribute::distributed(avail, min, max, pct);
            let goal = avail.larger(number::total(min));
            let claimed = number::total(distribute::claims(avail, min, pct));
            &&& number::total(w) - goal <= real::slack()
            &&& goal - number::total(w) <= real::slack()
            &&& (claimed - avail > real::slack() || avail - claimed > real::slack())
                ==> number::total(w) == goal
        }),
{
    let w = distribute::claims(avail, min, pct);
    let assigned = number::total(w);
    assert(forall|k: int| 0 <= k < w.len() ==> min[k] <= #[trigger] w[k]);
    lemma_total_increases(min, w);
    assert(real::slack() > 0real) by (nonlinear_arith)
        requires
            real::slack() == 1real / 100real,
    ;
    if assigned + real::slack() < avail {
        lemma_filled(w, avail - assigned, max, pct);
    } else if avail + real::slack() < assigned {
        lemma_relieved(w, assigned - avail, min);
    }
}

/// Where the least widths of the content need more than the width by over a hundredth,
/// the columns have just those.
pub proof fn law_overflow(avail: real, min: Seq<real>, max: Seq<real>, pct: Seq<real>)
    requires
        min.len() == max.len() == pct.len(),
        avail + real::slack() < number::total(min),
    ensures
        distribute::distributed(avail, min, max, pct) == min,
{
    let w = distribute::claims(avail, min, pct);
    let assigned = number::total(w);
    assert(forall|k: int| 0 <= k < w.len() ==> min[k] <= #[trigger] w[k]);
    lemma_total_increases(min, w);
    assert(real::slack() > 0real) by (nonlinear_arith)
        requires
            real::slack() == 1real / 100real,
    ;
    lemma_relieved(w, assigned - avail, min);
}

/// The percentages together count for no more than the whole.
pub proof fn law_percentages_scaled(pct: Seq<real>)
    ensures
        number::total(Seq::new(pct.len(), |i: int| pct[i].product(distribute::scale(pct))))
            <= 1real,
{
    let k = distribute::scale(pct);
    let all = number::total(pct);
    let scaled = Seq::new(pct.len(), |i: int| pct[i].product(k));
    assert forall|i: int| 0 <= i < scaled.len() implies #[trigger] scaled[i] == k * pct[i] by {
        let x = pct[i];
        assert(x * k == k * x) by (nonlinear_arith);
    }
    lemma_total_scaled(pct, scaled, k);
    if 1real < all {
        assert((1real / all) * all == 1real) by (nonlinear_arith)
            requires
                all > 1real,
        ;
    } else {
        assert(1real * all == all) by (nonlinear_arith);
    }
}

/// As long as the columns claim no more than the width, and one of them has no
/// percentage, a percentage column gets just what it claims.
pub proof fn law_percentage_kept(
    avail: real,
    min: Seq<real>,
    max: Seq<real>,
    pct: Seq<real>,
    i: int,
    plain: int,
)
    requires
        min.len() == max.len() == pct.len(),
        0 <= i < min.len(),
        pct[i] != 0real,
        0 <= plain < min.len(),
        pct[plain] == 0real,
        number::total(distribute::claims(avail, min, pct)) <= avail + real::slack(),
    ensures
        distribute::distributed(avail, min, max, pct)[i] == distribute::claims(avail, min, pct)[i],
{
    let w = distribute::claims(avail, min, pct);
    let n = w.len() as int;
    let grow = distribute::room(w, max, pct);
    let growth = number::total(grow);
    let take = (avail - number::total(w)).smaller(growth);
    lemma_some_plain(pct, n, plain);
    if 0real < growth {
        lemma_parts(take, grow);
        let parts = Seq::new(grow.len(), |k: int| distribute::part(take, grow[k], grow));
        assert(grow[i] == 0real);
        assert(parts[i] == 0real);
    }
}

/// A column without a percentage is counted.
pub proof fn lemma_some_plain(pct: Seq<real>, n: int, plain: int)
    requires
        0 <= plain < n <= pct.len(),
        pct[plain] == 0real,
    ensures
        distribute::plain_columns(pct, n) > 0,
    decreases n,
{
    lemma_plain_columns(pct, n - 1);
    if plain < n - 1 {
        lemma_some_plain(pct, n - 1, plain);
    }
}

/// Columns without a percentage grow no wider than their content is without wrapping,
/// before all of them are as wide as that.
pub proof fn law_growth(avail: real, min: Seq<real>, max: Seq<real>, pct: Seq<real>, i: int)
    requires
        min.len() == max.len() == pct.len(),
        0 <= i < min.len(),
        pct[i] == 0real,
        ({
            let w = distribute::claims(avail, min, pct);
            avail - number::total(w) <= number::total(distribute::room(w, max, pct))
        }),
    ensures
        distribute::distributed(avail, min, max, pct)[i] <= max[i].larger(min[i]),
{
    let w = distribute::claims(avail, min, pct);
    let assigned = number::total(w);
    let extra = avail - assigned;
    let grow = distribute::room(w, max, pct);
    let growth = number::total(grow);
    assert(real::slack() > 0real) by (nonlinear_arith)
        requires
            real::slack() == 1real / 100real,
    ;
    assert(forall|k: int| 0 <= k < w.len() ==> min[k] <= #[trigger] w[k]);
    if assigned + real::slack() < avail {
        lemma_parts(extra, grow);
        let parts = Seq::new(grow.len(), |k: int| distribute::part(extra, grow[k], grow));
        assert(parts[i] <= grow[i]);
    } else if avail + real::slack() < assigned {
        let give = distribute::spare(w, min);
        lemma_total_not_negative(give);
        if 0real < number::total(give) {
            let less = (assigned - avail).smaller(number::total(give));
            lemma_parts(less, give);
            let parts = Seq::new(give.len(), |k: int| distribute::part(less, give[k], give));
            assert(0real <= parts[i]);
        }
    }
}

/// Whether columns are as wide as others, or wider, each of them.
spec fn covers(a: Seq<real>, b: Seq<real>) -> bool {
    &&& a.len() == b.len()
    &&& forall|c: int|
        #![trigger a[c]]
        #![trigger b[c]]
        0 <= c < a.len() ==> b[c] <= a[c]
}

proof fn lemma_widened(sizes: Seq<real>, from: int, to: int, need: real)
    requires
        0 <= from < to <= sizes.len(),
    ensures
        covers(columns::widened(sizes, from, to, need), sizes),
        need <= number::total(columns::widened(sizes, from, to, need).subrange(from, to)),
{
    let r = columns::widened(sizes, from, to, need);
    let have = number::total(sizes.subrange(from, to));
    if have < need {
        let d = (to - from) as real;
        let share = (need - have) / d;
        assert(share * d == need - have && 0real <= share) by (nonlinear_arith)
            requires
                share == (need - have) / d,
                d > 0real,
                have < need,
        ;
        let by = Seq::new((to - from) as nat, |i: int| share);
        lemma_total_equal(by, share);
        lemma_total_sum(sizes.subrange(from, to), by, r.subrange(from, to));
    }
}

/// The sum of equal items.
pub proof fn lemma_total_equal(a: Seq<real>, x: real)
    requires
        forall|i: int| 0 <= i < a.len() ==> #[trigger] a[i] == x,
    ensures
        number::total(a) == x * (a.len() as real),
    decreases a.len(),
{
    if a.len() > 0 {
        lemma_total_equal(a.drop_last(), x);
        let k = a.drop_last().len();
        assert(x * (k as real) + x == x * ((k + 1) as real)) by (nonlinear_arith);
    } else {
        assert(x * (0nat as real) == 0real) by (nonlinear_arith);
    }
}

/// Spanning cells make no column narrower.
proof fn lemma_with_spans(
    start: columns::Sizes<real>,
    facts: Seq<columns::Fact<real>>,
    order: Seq<int>,
    k: int,
)
    requires
        start.min.len() == start.max.len() == start.pct.len(),
        laws::well_placed(facts),
        forall|j: int| 0 <= j < order.len() ==> 0 <= #[trigger] order[j] < facts.len(),
        0 <= k <= order.len(),
    ensures
        ({
            let full = columns::with_spans(start, facts, order);
            let part = columns::with_spans(start, facts, order.take(k));
            &&& covers(full.min, part.min)
            &&& covers(full.max, part.max)
            &&& covers(full.pct, part.pct)
            &&& full.min.len() == start.min.len()
            &&& full.max.len() == start.min.len()
            &&& full.pct.len() == start.min.len()
        }),
    decreases order.len(),
{
    if order.len() == 0 {
        assert(order.take(k) =~= order);
    } else {
        let before = columns::with_spans(start, facts, order.drop_last());
        let fact = facts[order.last()];
        assert(order[order.len() - 1] == order.last());
        let n = start.min.len() as int;
        let end = columns::span_end(fact, n);
        assert forall|j: int| 0 <= j < order.drop_last().len() implies 0
            <= #[trigger] order.drop_last()[j] < facts.len() by {
            assert(order[j] == order.drop_last()[j]);
        }
        if k == order.len() {
            assert(order.take(k) =~= order);
            lemma_with_spans(start, facts, order.drop_last(), 0);
        } else {
            lemma_with_spans(start, facts, order.drop_last(), k);
            assert(order.drop_last().take(k) =~= order.take(k));
        }
        if fact.col < end {
            lemma_widened(before.min, fact.col, end, fact.min);
            lemma_widened(before.max, fact.col, end, fact.max);
            match fact.pct {
                Some(part) => {
                    lemma_widened(before.pct, fact.col, end, part);
                },
                None => {},
            }
        }
    }
}

proof fn lemma_single(facts: Seq<columns::Fact<real>>, c: int)
    ensures
        0real <= columns::column_min(facts, c),
        0real <= columns::column_max(facts, c),
        0real <= columns::column_pct(facts, c),
        forall|k: int|
            0 <= k < facts.len() && columns::lies_in(#[trigger] facts[k], c) ==> facts[k].min
                <= columns::column_min(facts, c) && facts[k].max <= columns::column_max(facts, c),
    decreases facts.len(),
{
    if facts.len() > 0 {
        lemma_single(facts.drop_last(), c);
        assert forall|k: int|
            0 <= k < facts.len() && columns::lies_in(#[trigger] facts[k], c) implies facts[k].min
            <= columns::column_min(facts, c) && facts[k].max <= columns::column_max(facts, c) by {
            if k < facts.len() - 1 {
                assert(facts.drop_last()[k] == facts[k]);
            }
        }
    }
}

/// The sizes of columns agree with each other, whatever the cells measure. In
/// particular, a spanning cell makes no column narrower than its own cells need.
pub proof fn law_sizes_sound(facts: Seq<columns::Fact<real>>, n: int)
    requires
        0 <= n,
        laws::well_placed(facts),
    ensures
        laws::sound(columns::column_sizes(facts, n), n),
{
    let single = columns::single_sizes(facts, n);
    let spans = columns::span_counts(facts);
    let order = columns::span_order(spans);
    columns::lemma_span_order(spans);
    lemma_with_spans(single, facts, order, 0);
    assert(order.take(0) =~= Seq::empty());
    let sizes = columns::column_sizes(facts, n);
    assert forall|c: int| 0 <= c < n implies {
        &&& 0real <= #[trigger] sizes.pct[c]
        &&& 0real <= sizes.min[c] <= sizes.max[c] <= sizes.full_max[c]
        &&& sizes.min[c] <= sizes.full_min[c] <= sizes.full_max[c]
    } by {
        lemma_single(facts, c);
        assert(single.min[c] == columns::column_min(facts, c));
        assert(single.max[c] == columns::column_max(facts, c));
        assert(single.pct[c] == columns::column_pct(facts, c));
        let full = columns::full_sizes(facts, n);
        assert(full.min[c] >= single.min[c]);
        assert(full.max[c] >= single.max[c]);
        assert(full.pct[c] >= single.pct[c]);
    }
}

/// The columns that a table is measured with hold every cell: the least widths its
/// least width, and the widths without wrapping its width without wrapping.
pub proof fn law_columns_hold_cells(facts: Seq<columns::Fact<real>>, n: int, k: int)
    requires
        0 <= k < facts.len(),
        laws::well_placed(facts),
        facts[k].col < n,
    ensures
        ({
            let sizes = columns::column_sizes(facts, n);
            let from = facts[k].col;
            let to = columns::span_end(facts[k], n);
            &&& facts[k].min <= number::total(sizes.full_min.subrange(from, to))
            &&& facts[k].max <= number::total(sizes.full_max.subrange(from, to))
        }),
{
    let fact = facts[k];
    let from = fact.col;
    let to = columns::span_end(fact, n);
    let single = columns::single_sizes(facts, n);
    let spans = columns::span_counts(facts);
    let order = columns::span_order(spans);
    let full = columns::full_sizes(facts, n);
    let sizes = columns::column_sizes(facts, n);
    columns::lemma_span_order(spans);
    lemma_with_spans(single, facts, order, 0);
    assert(order.take(0) =~= Seq::empty());
    if fact.span == 1 {
        lemma_single(facts, from);
        assert(columns::lies_in(facts[k], from));
        assert(single.min[from] == columns::column_min(facts, from));
        assert(single.max[from] == columns::column_max(facts, from));
        assert(full.min[from] >= single.min[from]);
        assert(full.max[from] >= single.max[from]);
        let a = sizes.full_min.subrange(from, to);
        let b = sizes.full_max.subrange(from, to);
        assert(a.drop_last() =~= Seq::empty());
        assert(b.drop_last() =~= Seq::empty());
        assert(a.last() == full.min[from]);
        assert(b.last() >= full.max[from]);
        assert(number::total(a.drop_last()) == 0real);
        assert(number::total(b.drop_last()) == 0real);
    } else {
        assert(spans[k] > 1);
        let j = choose|j: int| 0 <= j < order.len() && order[j] == k;
        lemma_with_spans(single, facts, order, j);
        lemma_with_spans(single, facts, order, j + 1);
        let now = order.take(j + 1);
        let before = columns::with_spans(single, facts, order.take(j));
        let after = columns::with_spans(single, facts, now);
        assert(now.drop_last() =~= order.take(j));
        assert(now.last() == k);
        lemma_widened(before.min, from, to, fact.min);
        lemma_widened(before.max, from, to, fact.max);
        lemma_total_increases(
            after.min.subrange(from, to),
            sizes.full_min.subrange(from, to),
        );
        assert forall|i: int| 0 <= i < to - from implies after.max.subrange(from, to)[i]
            <= #[trigger] sizes.full_max.subrange(from, to)[i] by {
            assert(after.max[from + i] <= full.max[from + i]);
        }
        lemma_total_increases(
            after.max.subrange(from, to),
            sizes.full_max.subrange(from, to),
        );
    }
}

/// A table whose width holds its columns' least widths is filled by its columns and
/// its insets, to a hundredth.
pub proof fn law_table_filled(
    facts: Seq<columns::Fact<real>>,
    n: int,
    width: real,
    insets: real,
)
    requires
        0 < n,
        laws::well_placed(facts),
        number::total(columns::column_sizes(facts, n).min) <= width - insets,
    ensures
        ({
            let w = columns::fitted(columns::column_sizes(facts, n), width, insets);
            &&& number::total(w) + insets - width <= real::slack()
            &&& width - insets - number::total(w) <= real::slack()
        }),
{
    let sizes = columns::column_sizes(facts, n);
    law_sizes_sound(facts, n);
    lemma_total_not_negative(sizes.min);
    law_fill(columns::for_columns(width, insets), sizes.min, sizes.max, sizes.pct);
}

/// A table without a width of its own takes no more of a definite space than there is
/// or than its columns' least widths need, to a hundredth.
pub proof fn law_shrink_to_fit(
    facts: Seq<columns::Fact<real>>,
    n: int,
    space: real,
    insets: real,
)
    requires
        0 < n,
        laws::well_placed(facts),
    ensures
        ({
            let sizes = columns::column_sizes(facts, n);
            let offer = columns::Offer {
                known: None,
                available: columns::Space::Definite(space),
                own: columns::OwnWidth::Unset,
                insets,
            };
            number::total(columns::widths(sizes, offer)) <= columns::for_columns(
                space,
                insets,
            ).larger(number::total(sizes.min)) + real::slack()
        }),
{
    let sizes = columns::column_sizes(facts, n);
    law_sizes_sound(facts, n);
    assert(real::slack() > 0real) by (nonlinear_arith)
        requires
            real::slack() == 1real / 100real,
    ;
    law_fill(columns::for_columns(space, insets), sizes.min, sizes.max, sizes.pct);
}

/// Where no column has a percentage, more width narrows no column.
pub proof fn law_more_width(
    a: real,
    b: real,
    min: Seq<real>,
    max: Seq<real>,
    pct: Seq<real>,
    i: int,
)
    requires
        min.len() == max.len() == pct.len(),
        0 <= i < min.len(),
        forall|k: int| 0 <= k < pct.len() ==> #[trigger] pct[k] == 0real,
        a <= b,
    ensures
        distribute::distributed(a, min, max, pct)[i] <= distribute::distributed(
            b,
            min,
            max,
            pct,
        )[i],
{
    let w = distribute::claims(a, min, pct);
    assert(w =~= min);
    assert(distribute::claims(b, min, pct) =~= min);
    let assigned = number::total(min);
    assert(real::slack() > 0real) by (nonlinear_arith)
        requires
            real::slack() == 1real / 100real,
    ;
    if assigned + real::slack() < a {
        lemma_filled_more(w, a - assigned, b - assigned, max, pct, i);
    } else {
        assert(distribute::distributed(a, min, max, pct)[i] == min[i]) by {
            if a + real::slack() < assigned {
                law_overflow(a, min, max, pct);
            }
        }
        law_floor(b, min, max, pct, i);
    }
}

proof fn lemma_filled_more(
    w: Seq<real>,
    a: real,
    b: real,
    max: Seq<real>,
    pct: Seq<real>,
    i: int,
)
    requires
        w.len() == max.len() == pct.len(),
        0 <= i < w.len(),
        0real < a <= b,
    ensures
        distribute::filled(w, a, max, pct)[i] <= distribute::filled(w, b, max, pct)[i],
{
    let n = w.len() as int;
    let grow = distribute::room(w, max, pct);
    let growth = number::total(grow);
    let m = targets(pct, n) as real;
    lemma_plain_columns(pct, n);
    let take_a = a.smaller(growth);
    let take_b = b.smaller(growth);
    let left_a = if 0real < growth {
        a - take_a
    } else {
        a
    };
    let left_b = if 0real < growth {
        b - take_b
    } else {
        b
    };
    if 0real < growth {
        let g = grow[i];
        assert(take_a * g / growth <= take_b * g / growth) by (nonlinear_arith)
            requires
                take_a <= take_b,
                0real <= g,
                0real < growth,
        ;
    }
    assert(left_a / m <= left_b / m && (0real <= left_b ==> 0real <= left_b / m))
        by (nonlinear_arith)
        requires
            left_a <= left_b,
            m > 0real,
    ;
}

/// The items of a list in another order.
pub open spec fn reordered<A>(s: Seq<A>, order: Seq<int>) -> Seq<A> {
    Seq::new(order.len(), |i: int| s[order[i]])
}

/// Whether a list names each of `n` places once.
pub open spec fn is_order(order: Seq<int>, n: int) -> bool {
    &&& order.len() == n
    &&& forall|i: int| 0 <= i < order.len() ==> 0 <= #[trigger] order[i] < n
    &&& forall|i: int, j: int|
        0 <= i < j < order.len() ==> #[trigger] order[i] != #[trigger] order[j]
}

/// The sum without one item.
proof fn lemma_total_remove(s: Seq<real>, i: int)
    requires
        0 <= i < s.len(),
    ensures
        number::total(s) == number::total(s.remove(i)) + s[i],
    decreases s.len(),
{
    if i == s.len() - 1 {
        assert(s.remove(i) =~= s.drop_last());
    } else {
        lemma_total_remove(s.drop_last(), i);
        assert(s.remove(i).drop_last() =~= s.drop_last().remove(i));
        assert(s.remove(i).last() == s.last());
    }
}

/// The sum does not depend on the order of the items.
proof fn lemma_total_reordered(s: Seq<real>, order: Seq<int>)
    requires
        is_order(order, s.len() as int),
    ensures
        number::total(reordered(s, order)) == number::total(s),
    decreases s.len(),
{
    let r = reordered(s, order);
    if s.len() > 0 {
        let last = order.last();
        assert(order[order.len() - 1] == last);
        let rest = s.remove(last);
        let shorter = Seq::new(
            (order.len() - 1) as nat,
            |i: int|
                if order[i] < last {
                    order[i]
                } else {
                    order[i] - 1
                },
        );
        assert forall|i: int| 0 <= i < shorter.len() implies 0 <= #[trigger] shorter[i]
            < rest.len() by {
            assert(order[i] != order[order.len() - 1]);
        }
        assert forall|i: int, j: int| 0 <= i < j < shorter.len() implies #[trigger] shorter[i]
            != #[trigger] shorter[j] by {
            assert(order[i] != order[j]);
            assert(order[i] != order[order.len() - 1]);
            assert(order[j] != order[order.len() - 1]);
        }
        lemma_total_reordered(rest, shorter);
        lemma_total_remove(s, last);
        assert forall|i: int| 0 <= i < shorter.len() implies r.drop_last()[i]
            == #[trigger] reordered(rest, shorter)[i] by {
            assert(order[i] != order[order.len() - 1]);
            assert(0 <= order[i] < s.len());
        }
        assert(r.drop_last() =~= reordered(rest, shorter));
    } else {
        assert(r =~= s);
    }
}

/// One for each column without a percentage, and nothing for the others.
spec fn plain_marks(pct: Seq<real>) -> Seq<real> {
    Seq::new(
        pct.len(),
        |i: int|
            if pct[i].is_zero() {
                1real
            } else {
                0real
            },
    )
}

/// The number of columns without a percentage is the sum of their marks.
proof fn lemma_plain_marks(pct: Seq<real>, n: int)
    requires
        0 <= n <= pct.len(),
    ensures
        number::total(plain_marks(pct).take(n)) == distribute::plain_columns(pct, n) as real,
    decreases n,
{
    let marks = plain_marks(pct);
    if n > 0 {
        lemma_plain_marks(pct, n - 1);
        assert(marks.take(n).drop_last() =~= marks.take(n - 1));
    } else {
        assert(marks.take(0) =~= Seq::empty());
    }
}

/// The number of columns without a percentage does not depend on their order.
proof fn lemma_plain_reordered(pct: Seq<real>, order: Seq<int>)
    requires
        is_order(order, pct.len() as int),
    ensures
        distribute::plain_columns(reordered(pct, order), pct.len() as int)
            == distribute::plain_columns(pct, pct.len() as int),
{
    let n = pct.len() as int;
    let other = reordered(pct, order);
    lemma_plain_marks(pct, n);
    lemma_plain_marks(other, n);
    assert(plain_marks(pct).take(n) =~= plain_marks(pct));
    assert(plain_marks(other).take(n) =~= reordered(plain_marks(pct), order));
    lemma_total_reordered(plain_marks(pct), order);
}

/// The order of columns does not matter: columns in another order get the same widths
/// in that order.
pub proof fn law_column_order(
    avail: real,
    min: Seq<real>,
    max: Seq<real>,
    pct: Seq<real>,
    order: Seq<int>,
)
    requires
        min.len() == max.len() == pct.len(),
        is_order(order, min.len() as int),
    ensures
        distribute::distributed(
            avail,
            reordered(min, order),
            reordered(max, order),
            reordered(pct, order),
        ) == reordered(distribute::distributed(avail, min, max, pct), order),
{
    let n = min.len() as int;
    let min2 = reordered(min, order);
    let max2 = reordered(max, order);
    let pct2 = reordered(pct, order);
    lemma_total_reordered(pct, order);
    let w = distribute::claims(avail, min, pct);
    let w2 = distribute::claims(avail, min2, pct2);
    assert(w2 =~= reordered(w, order));
    lemma_total_reordered(w, order);
    let assigned = number::total(w);
    if assigned + real::slack() < avail {
        lemma_filled_order(w, avail - assigned, max, pct, order);
    } else if avail + real::slack() < assigned {
        let excess = assigned - avail;
        let give = distribute::spare(w, min);
        assert(distribute::spare(w2, min2) =~= reordered(give, order));
        lemma_total_reordered(give, order);
        assert(distribute::relieved(w2, excess, min2) =~= reordered(
            distribute::relieved(w, excess, min),
            order,
        ));
    }
}

proof fn lemma_filled_order(
    w: Seq<real>,
    extra: real,
    max: Seq<real>,
    pct: Seq<real>,
    order: Seq<int>,
)
    requires
        w.len() == max.len() == pct.len(),
        is_order(order, w.len() as int),
    ensures
        distribute::filled(
            reordered(w, order),
            extra,
            reordered(max, order),
            reordered(pct, order),
        ) == reordered(distribute::filled(w, extra, max, pct), order),
{
    let w2 = reordered(w, order);
    let max2 = reordered(max, order);
    let pct2 = reordered(pct, order);
    let grow = distribute::room(w, max, pct);
    let growth = number::total(grow);
    let take = extra.smaller(growth);
    assert(distribute::room(w2, max2, pct2) =~= reordered(grow, order));
    lemma_total_reordered(grow, order);
    lemma_plain_reordered(pct, order);
    let wider = if 0real < growth {
        distribute::grown(w, take, grow)
    } else {
        w
    };
    let wider2 = if 0real < growth {
        distribute::grown(w2, take, reordered(grow, order))
    } else {
        w2
    };
    assert(wider2 =~= reordered(wider, order));
    let left = if 0real < growth {
        extra - take
    } else {
        extra
    };
    assert(distribute::stretched(wider2, left, pct2) =~= reordered(
        distribute::stretched(wider, left, pct),
        order,
    ));
}

}
