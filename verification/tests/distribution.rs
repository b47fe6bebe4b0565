//! Distributing a width across columns.

use table_layout::binary32::Binary32;
use table_layout::distribute::{distribute_columns, total_of};

fn number(x: f32) -> Binary32 {
    Binary32::from_bits(x.to_bits())
}

fn numbers(items: &[f32]) -> Vec<Binary32> {
    items.iter().map(|x| number(*x)).collect()
}

fn floats(items: &[Binary32]) -> Vec<f32> {
    items.iter().map(|x| f32::from_bits(x.to_bits())).collect()
}

fn distribute(avail: f32, min: &[f32], max: &[f32], pct: &[f32]) -> Vec<f32> {
    floats(&distribute_columns(
        number(avail),
        &numbers(min),
        &numbers(max),
        &numbers(pct),
    ))
}

/// The same distribution in the machine's own arithmetic.
fn expected(avail: f32, min: &[f32], max: &[f32], pct: &[f32]) -> Vec<f32> {
    let n = min.len();
    let sum = |s: &[f32]| s.iter().fold(0.0f32, |a, b| a + b);
    let psum = sum(pct);
    let scale = if psum > 1.0 { 1.0 / psum } else { 1.0 };
    let mut w: Vec<f32> = (0..n)
        .map(|i| {
            if pct[i] > 0.0 {
                (pct[i] * scale * avail).max(min[i])
            } else {
                min[i]
            }
        })
        .collect();
    let assigned = sum(&w);
    if assigned + 0.01 < avail {
        let mut left = avail - assigned;
        let grow: Vec<f32> = (0..n)
            .map(|i| {
                if pct[i] == 0.0 {
                    (max[i] - w[i]).max(0.0)
                } else {
                    0.0
                }
            })
            .collect();
        let growth = sum(&grow);
        if growth > 0.0 {
            let take = left.min(growth);
            for i in 0..n {
                w[i] += take * grow[i] / growth;
            }
            left -= take;
        }
        if left > 0.0 {
            let plain = pct.iter().filter(|p| **p == 0.0).count();
            let share = left / (if plain == 0 { n } else { plain }) as f32;
            for i in 0..n {
                if pct[i] == 0.0 || plain == 0 {
                    w[i] += share;
                }
            }
        }
    } else if assigned > avail + 0.01 {
        let give: Vec<f32> = (0..n).map(|i| (w[i] - min[i]).max(0.0)).collect();
        let slack = sum(&give);
        if slack > 0.0 {
            let take = (assigned - avail).min(slack);
            for i in 0..n {
                w[i] -= take * give[i] / slack;
            }
        }
    }
    w
}

struct Random(u64);

impl Random {
    fn next(&mut self) -> u64 {
        self.0 ^= self.0 << 13;
        self.0 ^= self.0 >> 7;
        self.0 ^= self.0 << 17;
        self.0
    }

    fn up_to(&mut self, limit: f32) -> f32 {
        (self.next() % 1_000_000) as f32 / 1_000_000.0 * limit
    }
}

#[test]
fn agrees_with_machine_arithmetic() {
    let mut random = Random(0x9e37_79b9_7f4a_7c15);
    for _ in 0..20_000 {
        let n = (random.next() % 7) as usize;
        let mut min = Vec::new();
        let mut max = Vec::new();
        let mut pct = Vec::new();
        for _ in 0..n {
            let least = random.up_to(200.0);
            min.push(least);
            max.push(least + random.up_to(200.0));
            pct.push(match random.next() % 3 {
                0 => random.up_to(1.0),
                1 => 0.9,
                _ => 0.0,
            });
        }
        let avail = random.up_to(1500.0);
        assert_eq!(
            distribute(avail, &min, &max, &pct),
            expected(avail, &min, &max, &pct),
            "{avail} {min:?} {max:?} {pct:?}"
        );
    }
}

#[test]
fn agrees_with_machine_arithmetic_on_odd_numbers() {
    let odd = [
        0.0,
        -0.0,
        1.0,
        -3.5,
        1e-40,
        3.0e38,
        f32::INFINITY,
        f32::NEG_INFINITY,
        f32::NAN,
    ];
    for avail in odd {
        for min in odd {
            for max in odd {
                for pct in odd {
                    let got = distribute(avail, &[min, 7.0], &[max, 9.0], &[pct, 0.0]);
                    let want = expected(avail, &[min, 7.0], &[max, 9.0], &[pct, 0.0]);
                    for i in 0..2 {
                        assert!(
                            got[i] == want[i] || (got[i].is_nan() && want[i].is_nan()),
                            "{avail} {min} {max} {pct}: {got:?} {want:?}"
                        );
                    }
                }
            }
        }
    }
}

#[test]
fn ninety_percent_leaves_the_rest_to_the_other_column() {
    assert_eq!(
        distribute(400.0, &[2.0, 2.0], &[2.0, 2.0], &[0.9, 0.0]),
        [360.0, 40.0]
    );
}

#[test]
fn wide_content_is_not_clipped_by_a_percentage() {
    assert_eq!(
        distribute(200.0, &[152.0, 2.0], &[152.0, 2.0], &[0.3, 0.0]),
        [152.0, 48.0]
    );
}

#[test]
fn percentages_over_the_whole_are_scaled_to_fit() {
    let w = distribute(200.0, &[2.0, 2.0], &[2.0, 2.0], &[0.7, 0.7]);
    assert_eq!(w, [100.0, 100.0]);
}

#[test]
fn percentages_under_the_whole_stretch_where_no_other_column_is() {
    let w = distribute(200.0, &[2.0, 2.0], &[2.0, 2.0], &[0.5, 0.25]);
    assert_eq!(w, [125.0, 75.0]);
}

#[test]
fn percentages_under_the_whole_leave_the_rest() {
    let w = distribute(200.0, &[0.0; 3], &[0.0; 3], &[0.5, 0.25, 0.0]);
    assert_eq!(w, [100.0, 50.0, 50.0]);
}

#[test]
fn columns_grow_towards_their_maximum_before_they_stretch() {
    // 60 to give away, and room for 40 and 80: half of each.
    assert_eq!(
        distribute(120.0, &[30.0, 30.0], &[70.0, 110.0], &[0.0, 0.0]),
        [50.0, 70.0]
    );
    // Room for 10 and 20, and 30 left for both.
    assert_eq!(
        distribute(120.0, &[30.0, 30.0], &[40.0, 50.0], &[0.0, 0.0]),
        [55.0, 65.0]
    );
}

#[test]
fn columns_that_claim_too_much_shrink_towards_their_minimum() {
    // The claims are 100 and 150.
    assert_eq!(
        distribute(200.0, &[50.0, 150.0], &[50.0, 150.0], &[0.5, 0.0]),
        [50.0, 150.0]
    );
    assert_eq!(
        distribute(200.0, &[50.0, 125.0], &[50.0, 125.0], &[0.5, 0.0]),
        [75.0, 125.0]
    );
}

#[test]
fn least_widths_win_over_the_width() {
    assert_eq!(
        distribute(100.0, &[80.0, 90.0], &[200.0, 200.0], &[0.5, 0.0]),
        [80.0, 90.0]
    );
}

#[test]
fn a_hundredth_is_left_alone() {
    assert_eq!(
        distribute(100.0, &[99.995], &[500.0], &[0.0]),
        [99.995]
    );
    assert_eq!(distribute(100.0, &[100.005], &[500.0], &[0.0]), [100.005]);
}

#[test]
fn no_columns_take_no_width() {
    assert_eq!(distribute(100.0, &[], &[], &[]), Vec::<f32>::new());
}

#[test]
fn no_column_falls_below_its_minimum_unless_it_shrinks() {
    let mut random = Random(7);
    for _ in 0..5_000 {
        let min: Vec<f32> = (0..4).map(|_| random.up_to(100.0)).collect();
        let max: Vec<f32> = min.iter().map(|x| x + random.up_to(100.0)).collect();
        let mut pct = [0.0f32; 4];
        pct[0] = random.up_to(0.5);
        let avail = random.up_to(1000.0);
        let w = distribute(avail, &min, &max, &pct);
        for i in 1..4 {
            assert!(w[i] >= min[i]);
        }
    }
}

#[test]
fn a_shrunk_column_keeps_its_minimum_up_to_rounding() {
    let w = distribute(200.0, &[9.0, 192.0], &[9.0, 192.0], &[0.3, 0.0]);
    assert_eq!(w, [8.999996, 192.0]);
    // It claimed 60, where numbers are this far apart.
    let gap = f32::from_bits(60.0f32.to_bits() + 1) - 60.0;
    assert!(9.0 - w[0] <= 7.0 * gap);
}

#[test]
fn no_shrunk_column_gets_more_than_it_claims() {
    let w = distribute(200.0, &[10.0, 150.0], &[90.0, 300.0], &[0.75, 0.0]);
    assert_eq!(w, [50.0, 150.0]);
}

#[test]
fn sums_start_at_zero_and_go_from_left_to_right() {
    let items = [16777216.0f32, 1.0, 1.0];
    assert_eq!(total_of(&numbers(&items)).to_bits(), 16777216.0f32.to_bits());
    assert_eq!(total_of(&numbers(&[1.0, 1.0, 16777216.0])).to_bits(), 16777218.0f32.to_bits());
    assert_eq!(total_of(&[]).to_bits(), 0);
}

#[test]
fn more_width_narrows_no_column_without_percentages() {
    let min = [10.0, 20.0, 30.0];
    let max = [15.0, 60.0, 30.0];
    let none = [0.0; 3];
    let mut before = distribute(0.0, &min, &max, &none);
    assert_eq!(before, min);
    for avail in 1..40 {
        let now = distribute(avail as f32 * 8.0, &min, &max, &none);
        for i in 0..3 {
            assert!(before[i] <= now[i]);
        }
        before = now;
    }
    // All maxima, and 39 more for each.
    assert_eq!(
        distribute(222.0, &min, &max, &none),
        [15.0 + 39.0, 60.0 + 39.0, 30.0 + 39.0]
    );
}

#[test]
fn the_order_of_columns_does_not_matter() {
    let (min, max, pct) = ([8.0, 16.0, 24.0], [16.0, 48.0, 24.0], [0.25, 0.0, 0.0]);
    let got = distribute(128.0, &min, &max, &pct);
    let turned = distribute(
        128.0,
        &[min[2], min[0], min[1]],
        &[max[2], max[0], max[1]],
        &[pct[2], pct[0], pct[1]],
    );
    assert_eq!(got, [32.0, 60.0, 36.0]);
    assert_eq!(turned, [got[2], got[0], got[1]]);
}

#[test]
fn equal_columns_get_equal_widths() {
    let w = distribute(
        333.3,
        &[7.7, 20.0, 7.7],
        &[9.1, 77.0, 9.1],
        &[0.0, 0.37, 0.0],
    );
    assert_eq!(w[0], w[2]);
}

/// The gap behind a number.
fn gap(x: f32) -> f64 {
    f32::from_bits(x.to_bits() + 1) as f64 - x as f64
}

#[test]
fn widths_fill_the_width_up_to_rounding() {
    let mut random = Random(99);
    for _ in 0..5_000 {
        let n = 1 + (random.next() % 6) as usize;
        let min: Vec<f32> = (0..n).map(|_| random.up_to(90.0)).collect();
        let max: Vec<f32> = min.iter().map(|x| x + random.up_to(90.0)).collect();
        let pct: Vec<f32> = (0..n)
            .map(|_| if random.next() % 2 == 0 { random.up_to(0.6) } else { 0.0 })
            .collect();
        let avail = random.up_to(700.0);
        let w = distribute(avail, &min, &max, &pct);
        let all: f64 = w.iter().map(|x| *x as f64).sum();
        let least: f64 = min.iter().map(|x| *x as f64).sum();
        let goal = (avail as f64).max(least);
        let error = 64.0 * n as f64 * gap(1400.0) + 0.01;
        assert!((all - goal).abs() <= error, "{all} {goal}");
    }
}

#[test]
fn overflowing_columns_have_their_minimum_up_to_rounding() {
    let min = [33.3f32, 44.4, 55.5];
    let w = distribute(100.0, &min, &min, &[0.5, 0.0, 0.4]);
    for i in 0..3 {
        assert!((w[i] as f64 - min[i] as f64).abs() <= 64.0 * 3.0 * gap(150.0));
    }
}

#[test]
fn sums_differ_from_exact_ones_by_a_gap_for_each_item() {
    let items: Vec<f32> = (1..200).map(|k| 0.1 * k as f32).collect();
    let total = f32::from_bits(total_of(&numbers(&items)).to_bits());
    let exact: f64 = items.iter().map(|x| *x as f64).sum();
    assert_ne!(total as f64, exact);
    assert!((total as f64 - exact).abs() <= items.len() as f64 * gap(total));
}

#[test]
fn the_order_of_columns_matters_up_to_rounding_only() {
    let mut random = Random(2_718);
    for _ in 0..5_000 {
        let n = 1 + (random.next() % 6) as usize;
        let min: Vec<f32> = (0..n).map(|_| random.up_to(90.0)).collect();
        let max: Vec<f32> = min.iter().map(|x| x + random.up_to(90.0)).collect();
        let pct: Vec<f32> = (0..n)
            .map(|_| if random.next() % 2 == 0 { random.up_to(0.6) } else { 0.0 })
            .collect();
        let avail = random.up_to(700.0);
        let turn = |s: &[f32]| -> Vec<f32> { s.iter().rev().copied().collect() };
        let w = distribute(avail, &min, &max, &pct);
        let turned = distribute(avail, &turn(&min), &turn(&max), &turn(&pct));
        let error = 1024.0 * (n * n) as f64 * gap(1400.0) + 0.01;
        for i in 0..n {
            assert!((w[i] as f64 - turned[n - 1 - i] as f64).abs() <= error);
        }
    }
}

#[test]
fn the_order_of_columns_decides_what_a_sum_loses() {
    // Claims of one are lost on the large one, unless they come first.
    let big = 16777216.0f32;
    let none = [0.0; 3];
    let first = [1.0, 1.0, big];
    let last = [big, 1.0, 1.0];
    assert_eq!(
        distribute(big + 6.0, &first, &first, &none),
        [2.3333335, 2.3333335, big + 2.0]
    );
    assert_eq!(
        distribute(big + 6.0, &last, &last, &none),
        [big + 2.0, 3.0, 3.0]
    );
}

#[test]
fn percentages_are_kept_beside_other_columns() {
    let mut random = Random(31);
    for _ in 0..2_000 {
        let share = random.up_to(0.7);
        let avail = 200.0 + random.up_to(700.0);
        let min = [random.up_to(20.0), random.up_to(20.0)];
        let max = [min[0] + random.up_to(90.0), min[1] + random.up_to(90.0)];
        let w = distribute(avail, &min, &max, &[share, 0.0]);
        assert_eq!(w[0], (share * avail).max(min[0]));
    }
}

#[test]
fn columns_grow_no_wider_than_their_maximum_up_to_rounding() {
    let mut random = Random(77);
    for _ in 0..5_000 {
        let min: Vec<f32> = (0..5).map(|_| random.up_to(50.0)).collect();
        let max: Vec<f32> = min.iter().map(|x| x + 1.0 + random.up_to(50.0)).collect();
        let least: f32 = min.iter().sum();
        let most: f32 = max.iter().sum();
        let avail = least + 0.99 * random.up_to(most - least);
        let w = distribute(avail, &min, &max, &[0.0; 5]);
        for i in 0..5 {
            assert!(w[i] as f64 - max[i] as f64 <= 16.0 * gap(max[i]));
        }
    }
}
