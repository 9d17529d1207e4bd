use aladdin::markets::Outcome;
use aladdin::opportunity::{calc_margin, find_best, Ratio, SignedRatio, Strategy};

fn coef(x: f64) -> u32 {
    (x * 1000.0).round() as u32
}

fn outcome(title: &str, odds: f64) -> Outcome {
    Outcome(title.to_string(), coef(odds))
}

fn ratio(r: Ratio) -> f64 {
    r.num as f64 / r.den as f64
}

fn signed(r: SignedRatio) -> f64 {
    r.num as f64 / r.den as f64
}

fn assert_approx_eq(lhs: f64, rhs: f64) {
    assert!((lhs - rhs).abs() < 0.01, "{} is not about {}", lhs, rhs);
}

fn sample() -> Vec<[Outcome; 2]> {
    vec![
        [outcome("X", 2.3), outcome("Y", 1.2)],
        [outcome("X", 1.3), outcome("Y", 1.1)],
        [outcome("X", 1.1), outcome("Y", 3.3)],
    ]
}

#[test]
fn test_calc_margin_single() {
    let market = [outcome("X", 2.3), outcome("Y", 1.35)];
    let table = vec![market.iter().collect::<Vec<_>>()];

    assert_approx_eq(ratio(calc_margin(&table)), 1.18);
}

#[test]
fn test_calc_margin_multiple() {
    let marked_1 = [outcome("X", 2.3), outcome("Y", 1.05)];
    let marked_2 = [outcome("X", 1.2), outcome("Y", 1.05)];
    let marked_3 = [outcome("X", 1.3), outcome("Y", 1.35)];

    let table = vec![
        marked_1.iter().collect::<Vec<_>>(),
        marked_2.iter().collect::<Vec<_>>(),
        marked_3.iter().collect::<Vec<_>>(),
    ];

    assert_approx_eq(ratio(calc_margin(&table)), 1.18);
}

#[test]
fn test_find_best_unbiased() {
    let markets = sample();
    let table: Vec<Vec<&Outcome>> = markets.iter().map(|m| m.iter().collect()).collect();

    let opp = find_best(&table, Strategy::Unbiased);

    assert_eq!(opp.len(), 2);
    assert_eq!(opp[0].outcome.0, "X");
    assert_eq!(opp[0].market, 0);
    assert_approx_eq(ratio(opp[0].rate), 0.59);
    assert_approx_eq(signed(opp[0].profit), 0.36);
    assert_eq!(opp[1].outcome.0, "Y");
    assert_eq!(opp[1].market, 2);
    assert_approx_eq(ratio(opp[1].rate), 0.41);
    assert_approx_eq(signed(opp[1].profit), 0.36);
}

#[test]
fn test_find_best_favorite() {
    let markets = sample();
    let table: Vec<Vec<&Outcome>> = markets.iter().map(|m| m.iter().collect()).collect();

    let opp = find_best(&table, Strategy::Favorite);

    assert_eq!(opp.len(), 2);
    assert_eq!(opp[0].outcome.0, "X");
    assert_eq!(opp[0].market, 0);
    assert_approx_eq(ratio(opp[0].rate), 0.7);
    assert_approx_eq(signed(opp[0].profit), 0.6);
    assert_eq!(opp[1].outcome.0, "Y");
    assert_eq!(opp[1].market, 2);
    assert_approx_eq(ratio(opp[1].rate), 0.3);
    assert_approx_eq(signed(opp[1].profit), 0.);
}

#[test]
fn test_find_best_rebel() {
    let markets = sample();
    let table: Vec<Vec<&Outcome>> = markets.iter().map(|m| m.iter().collect()).collect();

    let opp = find_best(&table, Strategy::Rebel);

    assert_eq!(opp.len(), 2);
    assert_eq!(opp[0].outcome.0, "X");
    assert_eq!(opp[0].market, 0);
    assert_approx_eq(ratio(opp[0].rate), 0.43);
    assert_approx_eq(signed(opp[0].profit), 0.);
    assert_eq!(opp[1].outcome.0, "Y");
    assert_eq!(opp[1].market, 2);
    assert_approx_eq(ratio(opp[1].rate), 0.57);
    assert_approx_eq(signed(opp[1].profit), 0.86);
}

#[test]
fn margin_is_exact_on_a_three_way_market() {
    // Best odds 2.000, 4.000 and 4.000: the margin is exactly 1.
    let a = [outcome("A", 2.0), outcome("B", 3.0), outcome("(draw)", 4.0)];
    let b = [outcome("A", 1.5), outcome("B", 4.0), outcome("(draw)", 3.5)];
    let table = vec![a.iter().collect::<Vec<_>>(), b.iter().collect::<Vec<_>>()];
    let m = calc_margin(&table);
    assert_eq!(m.num, m.den);
}

#[test]
fn favorite_takes_the_last_of_equal_odds() {
    let a = [outcome("A", 2.5), outcome("B", 2.5)];
    let table = vec![a.iter().collect::<Vec<_>>()];
    let opp = find_best(&table, Strategy::Favorite);
    // The surplus goes to the last of the lowest odds.
    assert_approx_eq(ratio(opp[0].rate), 0.4);
    assert_approx_eq(ratio(opp[1].rate), 0.6);
    assert_approx_eq(signed(opp[1].profit), 0.5);
}

#[test]
fn splits_spend_the_whole_bet_and_win_their_profit() {
    let markets = sample();
    let table: Vec<Vec<&Outcome>> = markets.iter().map(|m| m.iter().collect()).collect();

    for strategy in [Strategy::Unbiased, Strategy::Favorite, Strategy::Rebel] {
        let opp = find_best(&table, strategy);
        let (a, b) = (opp[0].rate, opp[1].rate);
        assert_eq!(a.num * b.den + b.num * a.den, a.den * b.den);

        for m in &opp {
            let (r, p) = (m.rate, m.profit);
            let odds = m.outcome.1 as i128;
            assert_eq!(r.num as i128 * odds * p.den as i128, 1000 * r.den as i128 * (p.num + p.den as i128));
        }
    }
}
