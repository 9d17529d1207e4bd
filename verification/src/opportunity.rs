//! Arbitrage opportunities: given the lined-up outcomes of several bookmakers' offers for
//! one event, the best odds of each outcome, the market margin, and how to split a bet
//! over the outcomes. Odds are decimal odds in thousandths; the results are exact
//! fractions.

use vstd::prelude::*;
use crate::markets::Outcome;

verus! {

/// How to split a bet over the outcomes: evenly in profit (`Unbiased`), or with all the
/// surplus on the favourite (`Favorite`, the lowest odds) or on the underdog (`Rebel`,
/// the highest odds).
#[derive(Debug, Clone, Copy, PartialEq, Eq, Structural)]
pub enum Strategy {
    Unbiased,
    Favorite,
    Rebel,
}

/// A non-negative fraction `num / den`.
#[derive(Debug, Clone, Copy, PartialEq, Eq, Structural)]
pub struct Ratio {
    pub num: u128,
    pub den: u128,
}

/// A fraction `num / den` with a sign.
#[derive(Debug, Clone, Copy, PartialEq, Eq, Structural)]
pub struct SignedRatio {
    pub num: i128,
    pub den: u128,
}

/// The product of some numbers.
pub open spec fn product(s: Seq<u32>) -> nat
    decreases s.len(),
{
    if s.len() == 0 {
        1
    } else {
        product(s.drop_last()) * (s.last() as nat)
    }
}

/// The product of all the numbers but the `j`-th.
pub open spec fn product_except(s: Seq<u32>, j: int) -> nat {
    product(s.remove(j))
}

/// The sum over the first `n` positions `j` of `product_except(s, j)`.
pub open spec fn sum_of_products_except(s: Seq<u32>, n: nat) -> nat
    decreases n,
{
    if n == 0 {
        0
    } else {
        sum_of_products_except(s, (n - 1) as nat) + product_except(s, n - 1)
    }
}

/// The sum of the inverses of the odds (odds in thousandths), as a fraction:
/// `Σ 1000 / o_j = 1000 · Σ_j Π_{k≠j} o_k / Π_k o_k`.
pub open spec fn inverse_sum(s: Seq<u32>) -> (nat, nat) {
    (1000 * sum_of_products_except(s, s.len()), product(s))
}

/// The odds of a table of outcomes: one row per market.
pub open spec fn odds_table(t: Seq<Vec<&Outcome>>) -> Seq<Seq<u32>> {
    t.map_values(|row: Vec<&Outcome>| row@.map_values(|o: &Outcome| o.1))
}

/// The first of the markets `0..n` with the highest odds for outcome `j`.
pub open spec fn best_market(t: Seq<Seq<u32>>, j: int, n: nat) -> int
    decreases n,
{
    if n <= 1 {
        0
    } else {
        let b = best_market(t, j, (n - 1) as nat);
        if t[b][j] < t[n - 1][j] {
            n - 1
        } else {
            b
        }
    }
}

/// The best odds of each outcome over all markets.
pub open spec fn best_line(t: Seq<Seq<u32>>) -> Seq<u32> {
    Seq::new(t[0].len(), |j: int| t[best_market(t, j, t.len())][j])
}

/// The tables the computations take: at least one market, and every market with the
/// outcomes of the first (at most three: two sides and a draw).
pub open spec fn valid_table(t: Seq<Seq<u32>>) -> bool {
    &&& t.len() > 0
    &&& t[0].len() <= 3
    &&& forall|i: int| 0 <= i < t.len() ==> #[trigger] t[i].len() == t[0].len()
}

pub proof fn lemma_best_market(t: Seq<Seq<u32>>, j: int, n: nat)
    requires
        0 < n <= t.len(),
    ensures
        0 <= best_market(t, j, n) < n,
    decreases n,
{
    if n > 1 {
        lemma_best_market(t, j, (n - 1) as nat);
    }
}

/// Among the first `n` markets, the chosen one has the highest odds for outcome `j`, and
/// every market before it has lower odds.
proof fn lemma_best_market_highest(t: Seq<Seq<u32>>, j: int, n: nat)
    requires
        valid_table(t),
        0 <= j < t[0].len(),
        0 < n <= t.len(),
    ensures
        0 <= best_market(t, j, n) < n,
        forall|i: int| 0 <= i < n ==> #[trigger] t[i][j] <= t[best_market(t, j, n)][j],
        forall|i: int| 0 <= i < best_market(t, j, n) ==> #[trigger] t[i][j] < t[best_market(t, j, n)][j],
    decreases n,
{
    if n > 1 {
        lemma_best_market_highest(t, j, (n - 1) as nat);
    }
}

/// The best odds of an outcome are the highest odds that any market gives it, taken from
/// the first market that gives them.
pub proof fn best_odds_are_the_highest(t: Seq<Seq<u32>>, j: int)
    requires
        valid_table(t),
        0 <= j < t[0].len(),
    ensures
        0 <= best_market(t, j, t.len()) < t.len(),
        best_line(t).len() == t[0].len(),
        best_line(t)[j] == t[best_market(t, j, t.len())][j],
        forall|i: int| 0 <= i < t.len() ==> #[trigger] t[i][j] <= best_line(t)[j],
        forall|i: int| 0 <= i < best_market(t, j, t.len()) ==> #[trigger] t[i][j] < best_line(t)[j],
{
    lemma_best_market_highest(t, j, t.len());
}

proof fn lemma_product_single(s: Seq<u32>)
    requires
        s.len() == 1,
    ensures
        product(s) == s[0],
{
    assert(s.drop_last().len() == 0);
    let p = product(s.drop_last());
    let x = s.last() as nat;
    assert(p == 1);
    assert(product(s) == p * x);
    assert(p * x == x) by (nonlinear_arith)
        requires
            p == 1,
    ;
}

/// The closed forms of the products of up to three numbers.
proof fn lemma_products(s: Seq<u32>)
    requires
        s.len() <= 3,
    ensures
        s.len() == 0 ==> product(s) == 1 && sum_of_products_except(s, 0) == 0,
        s.len() == 1 ==> product(s) == s[0] && sum_of_products_except(s, 1) == 1
            && product_except(s, 0) == 1,
        s.len() == 2 ==> product(s) == s[0] * s[1] && product_except(s, 0) == s[1]
            && product_except(s, 1) == s[0] && sum_of_products_except(s, 2) == s[0] + s[1],
        s.len() == 3 ==> product(s) == s[0] * s[1] * s[2] && product_except(s, 0) == s[1] * s[2]
            && product_except(s, 1) == s[0] * s[2] && product_except(s, 2) == s[0] * s[1]
            && sum_of_products_except(s, 3) == s[1] * s[2] + s[0] * s[2] + s[0] * s[1],
{
    reveal_with_fuel(product, 4);
    reveal_with_fuel(sum_of_products_except, 4);
    if s.len() == 1 {
        assert(s.drop_last().len() == 0);
        assert(s.remove(0).len() == 0);
    } else if s.len() == 2 {
        assert(s.drop_last() =~= seq![s[0]]);
        assert(s.drop_last().drop_last().len() == 0);
        assert(s.remove(0) =~= seq![s[1]]);
        assert(s.remove(1) =~= seq![s[0]]);
        assert(seq![s[1]].drop_last().len() == 0);
        assert(seq![s[0]].drop_last().len() == 0);
        lemma_product_single(s.remove(0));
        lemma_product_single(s.remove(1));
        assert(sum_of_products_except(s, 1) == s[1]);
    } else if s.len() == 3 {
        assert(s.drop_last() =~= seq![s[0], s[1]]);
        assert(seq![s[0], s[1]].drop_last() =~= seq![s[0]]);
        assert(seq![s[0]].drop_last().len() == 0);
        assert(s.remove(0) =~= seq![s[1], s[2]]);
        assert(s.remove(1) =~= seq![s[0], s[2]]);
        assert(s.remove(2) =~= seq![s[0], s[1]]);
        assert(seq![s[1], s[2]].drop_last() =~= seq![s[1]]);
        assert(seq![s[0], s[2]].drop_last() =~= seq![s[0]]);
        lemma_product_single(seq![s[0]]);
        lemma_product_single(seq![s[1]]);
        assert(seq![s[1]].drop_last().len() == 0);
        assert(seq![s[0]].drop_last().len() == 0);
    }
}

/// The best odds of each outcome, and in which market they are.
fn best_of_table<'a>(table: &Vec<Vec<&'a Outcome>>) -> (r: (Vec<usize>, Vec<u32>))
    requires
        valid_table(odds_table(table@)),
    ensures
        r.0@.len() == table@[0]@.len(),
        r.1@ == best_line(odds_table(table@)),
        forall|j: int| 0 <= j < r.0@.len() ==> #[trigger] r.0@[j] as int == best_market(odds_table(table@), j, table@.len() as nat),
{
    let ghost t = odds_table(table@);
    let n = table[0].len();
    proof {
        assert(t[0].len() == n);
    }
    let mut markets: Vec<usize> = Vec::new();
    let mut line: Vec<u32> = Vec::new();
    let mut j: usize = 0;
    while j < n
        invariant
            t == odds_table(table@),
            valid_table(t),
            n == t[0].len(),
            j <= n,
            markets@.len() == j,
            line@.len() == j,
            forall|k: int| 0 <= k < j ==> #[trigger] markets@[k] as int == best_market(t, k, table@.len() as nat),
            forall|k: int| 0 <= k < j ==> #[trigger] line@[k] == t[best_market(t, k, table@.len() as nat)][k],
        decreases n - j,
    {
        let mut best: usize = 0;
        let mut i: usize = 1;
        proof {
            assert(t[0][j as int] == table@[0]@[j as int].1);
        }
        while i < table.len()
            invariant
                t == odds_table(table@),
                valid_table(t),
                n == t[0].len(),
                j < n,
                1 <= i <= table.len(),
                best as int == best_market(t, j as int, i as nat),
                best < i,
            decreases table.len() - i,
        {
            proof {
                assert(t[i as int].len() == n);
                assert(t[best as int].len() == n);
                assert(t[i as int][j as int] == table@[i as int]@[j as int].1);
                assert(t[best as int][j as int] == table@[best as int]@[j as int].1);
            }
            if table[best][j].1 < table[i][j].1 {
                best = i;
            }
            i = i + 1;
        }
        proof {
            assert(t[best as int].len() == n);
            assert(t[best as int][j as int] == table@[best as int]@[j as int].1);
        }
        markets.push(best);
        line.push(table[best][j].1);
        j = j + 1;
    }
    proof {
        assert(line@ =~= best_line(t));
    }
    (markets, line)
}

/// The product of all the odds but the `j`-th, and of all of them, for a line of at
/// most three odds.
fn products(line: &Vec<u32>) -> (r: (u128, Vec<u128>))
    requires
        line@.len() <= 3,
    ensures
        r.0 == product(line@),
        r.1@.len() == line@.len(),
        forall|j: int| 0 <= j < line@.len() ==> #[trigger] r.1@[j] == product_except(line@, j),
        r.0 <= 0x1_0000_0000_0000_0000_0000_0000,
        forall|j: int| 0 <= j < line@.len() ==> #[trigger] r.1@[j] <= 0x1_0000_0000_0000_0000,
{
    proof {
        lemma_products(line@);
    }
    let mut except: Vec<u128> = Vec::new();
    let n = line.len();
    if n == 0 {
        (1, except)
    } else if n == 1 {
        except.push(1);
        (line[0] as u128, except)
    } else if n == 2 {
        let a = line[0] as u128;
        let b = line[1] as u128;
        proof {
            assert(a * b <= 0xffff_ffff * 0xffff_ffff) by (nonlinear_arith)
                requires
                    a <= 0xffff_ffff,
                    b <= 0xffff_ffff,
            ;
        }
        except.push(b);
        except.push(a);
        (a * b, except)
    } else {
        let a = line[0] as u128;
        let b = line[1] as u128;
        let c = line[2] as u128;
        proof {
            assert(a * b <= 0xffff_ffff * 0xffff_ffff) by (nonlinear_arith)
                requires
                    a <= 0xffff_ffff,
                    b <= 0xffff_ffff,
            ;
            assert(a * c <= 0xffff_ffff * 0xffff_ffff) by (nonlinear_arith)
                requires
                    a <= 0xffff_ffff,
                    c <= 0xffff_ffff,
            ;
            assert(b * c <= 0xffff_ffff * 0xffff_ffff) by (nonlinear_arith)
                requires
                    b <= 0xffff_ffff,
                    c <= 0xffff_ffff,
            ;
            assert(a * b * c <= 0xffff_ffff * 0xffff_ffff * 0xffff_ffff) by (nonlinear_arith)
                requires
                    a * b <= 0xffff_ffff * 0xffff_ffff,
                    c <= 0xffff_ffff,
            ;
        }
        except.push(b * c);
        except.push(a * c);
        except.push(a * b);
        (a * b * c, except)
    }
}

/// The market margin of a table: the sum of the inverses of the best odds of each
/// outcome. Below 1 means that betting on every outcome wins whatever happens.
pub fn calc_margin<'a>(table: &Vec<Vec<&'a Outcome>>) -> (margin: Ratio)
    requires
        valid_table(odds_table(table@)),
    ensures
        (margin.num as nat, margin.den as nat) == inverse_sum(best_line(odds_table(table@))),
{
    let (_, line) = best_of_table(table);
    let (p, except) = products(&line);
    let mut sum: u128 = 0;
    let mut j: usize = 0;
    while j < except.len()
        invariant
            except@.len() == line@.len(),
            line@.len() <= 3,
            forall|k: int| 0 <= k < line@.len() ==> #[trigger] except@[k] == product_except(line@, k),
            forall|k: int| 0 <= k < line@.len() ==> #[trigger] except@[k] <= 0x1_0000_0000_0000_0000,
            j <= except.len(),
            sum == sum_of_products_except(line@, j as nat),
            sum <= j * 0x1_0000_0000_0000_0000,
        decreases except.len() - j,
    {
        sum = sum + except[j];
        j = j + 1;
    }
    Ratio { num: 1000 * sum, den: p }
}

} // verus!

verus! {

/// The outcome that the surplus goes to: among the first `n` odds, the last lowest one
/// (favourite) or the last highest one (underdog).
pub open spec fn guess_index(line: Seq<u32>, favorite: bool, n: nat) -> int
    decreases n,
{
    if n <= 1 {
        0
    } else {
        let g = guess_index(line, favorite, (n - 1) as nat);
        let c = line[n - 1];
        if (favorite && c <= line[g]) || (!favorite && c >= line[g]) {
            n - 1
        } else {
            g
        }
    }
}

/// The share of the bet and the profit (per unit of bet) that a strategy gives outcome
/// `j` of a line of best odds `o` (thousandths), with `P = Π o_k`, `E_j = Π_{k≠j} o_k`
/// and `S = Σ_j E_j`, so that the margin is `1000 S / P`:
/// - unbiased: the share `1 / (margin · odds)`, which is `E_j / S`, and the profit
///   `1 / margin - 1`, which is `(P - 1000 S) / (1000 S)`, the same for every outcome;
/// - favourite or underdog: the share `1 / odds`, which is `1000 / o_j`, with no profit,
///   except for the chosen outcome, which also gets `1 - margin`: the share
///   `(P - 1000 (S - E_g)) / P` and the profit `(1 - margin) · odds`, which is
///   `(P - 1000 S) / (1000 E_g)`.
pub open spec fn share(line: Seq<u32>, strategy: Strategy, j: int) -> (Ratio, SignedRatio) {
    let p = product(line);
    let s = sum_of_products_except(line, line.len());
    let e = product_except(line, j);
    match strategy {
        Strategy::Unbiased => (
            Ratio { num: e as u128, den: s as u128 },
            SignedRatio { num: (p - 1000 * s) as i128, den: (1000 * s) as u128 },
        ),
        _ => {
            let g = guess_index(line, strategy == Strategy::Favorite, line.len());
            if j == g {
                (
                    Ratio { num: (p - 1000 * (s - e)) as u128, den: p as u128 },
                    SignedRatio { num: (p - 1000 * s) as i128, den: (1000 * e) as u128 },
                )
            } else {
                (Ratio { num: 1000, den: line[j] as u128 }, SignedRatio { num: 0, den: 1 })
            }
        },
    }
}

/// An outcome of the best line: the market whose odds are taken, the outcome, the share
/// of the bet to place on it and the profit per unit of bet if it wins.
#[derive(Debug)]
pub struct MarkedOutcome<'a> {
    pub market: usize,
    pub outcome: &'a Outcome,
    pub rate: Ratio,
    pub profit: SignedRatio,
}

/// Whether `m` is what the best line of a table and a strategy give for outcome `j`: the
/// market with the best odds for it, its outcome there, and its share and profit.
pub open spec fn is_marked_best<'a>(table: Seq<Vec<&'a Outcome>>, strategy: Strategy, m: MarkedOutcome<'a>, j: int) -> bool {
    let t = odds_table(table);
    let b = best_market(t, j, t.len());
    &&& m.market == b
    &&& m.outcome == table[b]@[j]
    &&& (m.rate, m.profit) == share(best_line(t), strategy, j)
}

proof fn lemma_guess_index(line: Seq<u32>, favorite: bool, n: nat)
    requires
        0 < n <= line.len(),
    ensures
        0 <= guess_index(line, favorite, n) < n,
    decreases n,
{
    if n > 1 {
        lemma_guess_index(line, favorite, (n - 1) as nat);
    }
}

/// Among the first `n` odds, the chosen one is the lowest (favourite) or the highest
/// (underdog), and no later one is as low (as high).
proof fn lemma_guess_extreme(line: Seq<u32>, favorite: bool, n: nat)
    requires
        0 < n <= line.len(),
    ensures
        0 <= guess_index(line, favorite, n) < n,
        forall|k: int| 0 <= k < n ==> (favorite ==> line[guess_index(line, favorite, n)] <= #[trigger] line[k])
            && (!favorite ==> line[guess_index(line, favorite, n)] >= line[k]),
        forall|k: int| guess_index(line, favorite, n) < k < n ==> (favorite ==> line[guess_index(line, favorite, n)] < #[trigger] line[k])
            && (!favorite ==> line[guess_index(line, favorite, n)] > line[k]),
    decreases n,
{
    if n > 1 {
        lemma_guess_extreme(line, favorite, (n - 1) as nat);
    }
}

/// With the favourite strategy the surplus goes to an outcome with the lowest odds (the
/// last of equal lowest ones), with the underdog strategy to one with the highest (the
/// last of equal highest ones); every other outcome gets the plain share `1 / odds` and
/// no profit.
pub proof fn surplus_goes_to_the_extreme_odds(line: Seq<u32>, strategy: Strategy)
    requires
        line.len() > 0,
        strategy != Strategy::Unbiased,
    ensures
        ({
            let favorite = strategy == Strategy::Favorite;
            let g = guess_index(line, favorite, line.len());
            &&& 0 <= g < line.len()
            &&& forall|k: int| 0 <= k < line.len() ==> (favorite ==> line[g] <= #[trigger] line[k])
                && (!favorite ==> line[g] >= line[k])
            &&& forall|k: int| g < k < line.len() ==> (favorite ==> line[g] < #[trigger] line[k])
                && (!favorite ==> line[g] > line[k])
            &&& forall|k: int| 0 <= k < line.len() && k != g ==> #[trigger] share(line, strategy, k)
                == (Ratio { num: 1000, den: line[k] as u128 }, SignedRatio { num: 0, den: 1 })
        }),
{
    lemma_guess_extreme(line, strategy == Strategy::Favorite, line.len());
}

proof fn lemma_except_le_product(line: Seq<u32>, j: int)
    requires
        line.len() <= 3,
        0 <= j < line.len(),
        forall|k: int| 0 <= k < line.len() ==> #[trigger] line[k] > 0,
    ensures
        product_except(line, j) <= product(line),
        product_except(line, j) <= sum_of_products_except(line, line.len()),
        product(line) == product_except(line, j) * line[j],
{
    lemma_products(line);
    if line.len() == 1 {
        assert(1 * line[0] == line[0]);
    } else if line.len() == 2 {
        assert(line[0] * line[1] == line[1] * line[0]) by (nonlinear_arith);
        assert(line[0] * line[1] >= line[1]) by (nonlinear_arith)
            requires
                line[0] > 0,
        ;
        assert(line[0] * line[1] >= line[0]) by (nonlinear_arith)
            requires
                line[1] > 0,
        ;
    } else if line.len() == 3 {
        let (a, b, c) = (line[0] as int, line[1] as int, line[2] as int);
        assert(a * b * c >= b * c && a * b * c >= a * c && a * b * c >= a * b
            && a * b * c == b * c * a && a * b * c == a * c * b) by (nonlinear_arith)
            requires
                a > 0,
                b > 0,
                c > 0,
        ;
        assert(b * c >= 0 && a * c >= 0 && a * b >= 0) by (nonlinear_arith)
            requires
                a > 0,
                b > 0,
                c > 0,
        ;
    }
}

/// The bounds of the product and of the sum of partial products of up to three odds.
pub proof fn lemma_line_bounds(line: Seq<u32>)
    requires
        line.len() <= 3,
    ensures
        product(line) <= 0x1_0000_0000_0000_0000_0000_0000,
        sum_of_products_except(line, line.len()) <= 3 * 0x1_0000_0000_0000_0000,
        forall|j: int| 0 <= j < line.len() ==> #[trigger] product_except(line, j) <= 0x1_0000_0000_0000_0000,
{
    lemma_products(line);
    if line.len() == 1 {
    } else if line.len() == 2 {
        let (a, b) = (line[0] as int, line[1] as int);
        assert(a * b <= 0xffff_ffff * 0xffff_ffff) by (nonlinear_arith)
            requires
                0 <= a <= 0xffff_ffff,
                0 <= b <= 0xffff_ffff,
        ;
    } else if line.len() == 3 {
        let (a, b, c) = (line[0] as int, line[1] as int, line[2] as int);
        assert(a * b <= 0xffff_ffff * 0xffff_ffff && a * c <= 0xffff_ffff * 0xffff_ffff
            && b * c <= 0xffff_ffff * 0xffff_ffff && a * b >= 0) by (nonlinear_arith)
            requires
                0 <= a <= 0xffff_ffff,
                0 <= b <= 0xffff_ffff,
                0 <= c <= 0xffff_ffff,
        ;
        assert(a * b * c <= 0xffff_ffff * 0xffff_ffff * 0xffff_ffff) by (nonlinear_arith)
            requires
                0 <= a * b <= 0xffff_ffff * 0xffff_ffff,
                0 <= c <= 0xffff_ffff,
        ;
    }
}

/// Odds whose product is positive are all positive.
proof fn lemma_positive_line(line: Seq<u32>)
    requires
        line.len() <= 3,
        product(line) > 0,
    ensures
        forall|k: int| 0 <= k < line.len() ==> #[trigger] line[k] > 0,
{
    lemma_products(line);
    if line.len() == 2 {
        let (a, b) = (line[0] as int, line[1] as int);
        assert(a > 0 && b > 0) by (nonlinear_arith)
            requires
                a >= 0,
                b >= 0,
                a * b > 0,
        ;
    } else if line.len() == 3 {
        let (a, b, c) = (line[0] as int, line[1] as int, line[2] as int);
        assert(a * b >= 0) by (nonlinear_arith)
            requires
                a >= 0,
                b >= 0,
        ;
        assert(a * b > 0 && c > 0) by (nonlinear_arith)
            requires
                a * b >= 0,
                c >= 0,
                a * b * c > 0,
        ;
        assert(a > 0 && b > 0) by (nonlinear_arith)
            requires
                a >= 0,
                b >= 0,
                a * b > 0,
        ;
    }
}

/// When betting on a line of odds wins whatever happens (`1000 S < P`), every odds is
/// positive, and so is every partial product and their sum.
pub proof fn lemma_opportunity_line(line: Seq<u32>)
    requires
        0 < line.len() <= 3,
        1000 * sum_of_products_except(line, line.len()) < product(line),
    ensures
        forall|k: int| 0 <= k < line.len() ==> #[trigger] line[k] > 0,
        forall|j: int| 0 <= j < line.len() ==> #[trigger] product_except(line, j) > 0,
        sum_of_products_except(line, line.len()) > 0,
{
    lemma_positive_line(line);
    assert forall|j: int| 0 <= j < line.len() implies #[trigger] product_except(line, j) > 0 by {
        lemma_except_le_product(line, j);
        let e = product_except(line, j) as int;
        let o = line[j] as int;
        assert(e > 0) by (nonlinear_arith)
            requires
                e >= 0,
                o > 0,
                e * o > 0,
        ;
    }
    lemma_except_le_product(line, 0);
}

/// The best odds of each outcome over the markets, and how a strategy splits a bet over
/// them (see `share`). The table must show an opportunity: a margin below 1.
pub fn find_best<'a>(table: &Vec<Vec<&'a Outcome>>, strategy: Strategy) -> (r: Vec<MarkedOutcome<'a>>)
    requires
        valid_table(odds_table(table@)),
        table@[0]@.len() > 0,
        ({
            let m = inverse_sum(best_line(odds_table(table@)));
            m.0 < m.1
        }),
    ensures
        r@.len() == table@[0]@.len(),
        forall|j: int| 0 <= j < r@.len() ==> is_marked_best(table@, strategy, #[trigger] r@[j], j),
{
    let ghost t = odds_table(table@);
    let (markets, line) = best_of_table(table);
    let (p, except) = products(&line);
    let n = line.len();
    let ghost ln = line@;
    let mut s: u128 = 0;
    let mut j: usize = 0;
    while j < n
        invariant
            except@.len() == n,
            n == ln.len(),
            ln == line@,
            n <= 3,
            forall|k: int| 0 <= k < n ==> #[trigger] except@[k] == product_except(ln, k),
            forall|k: int| 0 <= k < n ==> #[trigger] except@[k] <= 0x1_0000_0000_0000_0000,
            j <= n,
            s == sum_of_products_except(ln, j as nat),
            s <= j * 0x1_0000_0000_0000_0000,
        decreases n - j,
    {
        s = s + except[j];
        j = j + 1;
    }
    proof {
        lemma_positive_line(ln);
    }
    let favorite = match strategy {
        Strategy::Favorite => true,
        _ => false,
    };
    let mut guess: usize = 0;
    let mut k: usize = 1;
    while k < n
        invariant
            n == ln.len(),
            ln == line@,
            n > 0,
            1 <= k <= n,
            guess as int == guess_index(ln, favorite, k as nat),
            guess < k,
        decreases n - k,
    {
        let c = line[k];
        if (favorite && c <= line[guess]) || (!favorite && c >= line[guess]) {
            guess = k;
        }
        k = k + 1;
    }
    let mut r: Vec<MarkedOutcome<'a>> = Vec::new();
    let mut j: usize = 0;
    while j < n
        invariant
            t == odds_table(table@),
            valid_table(t),
            n == ln.len(),
            ln == line@,
            ln == best_line(t),
            n == table@[0]@.len(),
            n <= 3,
            markets@.len() == n,
            forall|k: int| 0 <= k < n ==> #[trigger] markets@[k] as int == best_market(t, k, table@.len() as nat),
            except@.len() == n,
            forall|k: int| 0 <= k < n ==> #[trigger] except@[k] == product_except(ln, k),
            forall|k: int| 0 <= k < n ==> #[trigger] ln[k] > 0,
            p == product(ln),
            s == sum_of_products_except(ln, n as nat),
            1000 * s < p,
            p <= 0x1_0000_0000_0000_0000_0000_0000,
            s <= 3 * 0x1_0000_0000_0000_0000,
            guess as int == guess_index(ln, favorite, n as nat),
            favorite == (strategy == Strategy::Favorite),
            j <= n,
            r@.len() == j,
            forall|k: int| 0 <= k < j ==> is_marked_best(table@, strategy, #[trigger] r@[k], k),
        decreases n - j,
    {
        let market = markets[j];
        proof {
            lemma_best_market(t, j as int, t.len());
            assert(t[market as int].len() == n);
            assert(table@[market as int]@.len() == n);
            lemma_except_le_product(ln, j as int);
        }
        let outcome = table[market][j];
        let e = except[j];
        let (rate, profit) = match strategy {
            Strategy::Unbiased => (
                Ratio { num: e, den: s },
                SignedRatio { num: (p - 1000 * s) as i128, den: 1000 * s },
            ),
            _ => {
                if j == guess {
                    (
                        Ratio { num: p - 1000 * (s - e), den: p },
                        SignedRatio { num: (p - 1000 * s) as i128, den: 1000 * e },
                    )
                } else {
                    (Ratio { num: 1000, den: line[j] as u128 }, SignedRatio { num: 0, den: 1 })
                }
            },
        };
        r.push(MarkedOutcome { market, outcome, rate, profit });
        j = j + 1;
    }
    r
}

/// Whether some fractions `(numerator, denominator)`, at most three of them, add up to 1.
pub open spec fn add_up_to_one(rs: Seq<(int, int)>) -> bool {
    if rs.len() == 1 {
        rs[0].0 == rs[0].1
    } else if rs.len() == 2 {
        rs[0].0 * rs[1].1 + rs[1].0 * rs[0].1 == rs[0].1 * rs[1].1
    } else if rs.len() == 3 {
        rs[0].0 * rs[1].1 * rs[2].1 + rs[1].0 * rs[0].1 * rs[2].1 + rs[2].0 * rs[0].1 * rs[1].1
            == rs[0].1 * rs[1].1 * rs[2].1
    } else {
        false
    }
}

/// The shares a strategy gives the outcomes of a line, as fractions.
pub open spec fn shares_of(line: Seq<u32>, strategy: Strategy) -> Seq<(int, int)> {
    Seq::new(line.len(), |j: int| (share(line, strategy, j).0.num as int, share(line, strategy, j).0.den as int))
}

/// The numbers a split of a line of winning odds is made of: every odds times the product
/// of the others is the product of all, and the sums and products fit the fields of the
/// shares and profits.
proof fn lemma_split_parts(line: Seq<u32>)
    requires
        0 < line.len() <= 3,
        1000 * sum_of_products_except(line, line.len()) < product(line),
    ensures
        forall|j: int| 0 <= j < line.len() ==> #[trigger] product_except(line, j) * line[j] == product(line),
        forall|j: int| 0 <= j < line.len() ==> #[trigger] product_except(line, j) <= sum_of_products_except(line, line.len()),
        forall|j: int| 0 <= j < line.len() ==> 0 < #[trigger] product_except(line, j) <= 0x1_0000_0000_0000_0000,
        forall|k: int| 0 <= k < line.len() ==> #[trigger] line[k] > 0,
        0 < sum_of_products_except(line, line.len()) <= 3 * 0x1_0000_0000_0000_0000,
        product(line) <= 0x1_0000_0000_0000_0000_0000_0000,
{
    lemma_opportunity_line(line);
    lemma_line_bounds(line);
    assert forall|j: int| 0 <= j < line.len() implies #[trigger] product_except(line, j) * line[j] == product(line)
        && product_except(line, j) <= sum_of_products_except(line, line.len()) by {
        lemma_except_le_product(line, j);
    }
}

/// A split of a bet over a line of odds that wins whatever happens spends the whole bet,
/// whatever the strategy: the shares of the outcomes add up to 1.
pub proof fn split_spends_the_whole_bet(line: Seq<u32>, strategy: Strategy)
    requires
        0 < line.len() <= 3,
        1000 * sum_of_products_except(line, line.len()) < product(line),
    ensures
        add_up_to_one(shares_of(line, strategy)),
{
    lemma_split_parts(line);
    lemma_products(line);
    let rs = shares_of(line, strategy);
    let p = product(line) as int;
    let s = sum_of_products_except(line, line.len()) as int;
    let g = guess_index(line, strategy == Strategy::Favorite, line.len());
    lemma_guess_index(line, strategy == Strategy::Favorite, line.len());
    if line.len() == 1 {
        assert(rs[0].0 == rs[0].1);
    } else if line.len() == 2 {
        let (o0, o1) = (line[0] as int, line[1] as int);
        let (e0, e1) = (product_except(line, 0) as int, product_except(line, 1) as int);
        assert(e0 * o0 == p && e1 * o1 == p && s == e0 + e1);
        if strategy == Strategy::Unbiased {
            assert(rs[0] == (e0, s) && rs[1] == (e1, s));
            assert(e0 * s + e1 * s == s * s) by (nonlinear_arith)
                requires
                    s == e0 + e1,
            ;
        } else if g == 0 {
            assert(rs[0] == (p - 1000 * e1, p) && rs[1] == (1000int, o1));
            assert((p - 1000 * e1) * o1 + 1000 * p == p * o1) by (nonlinear_arith)
                requires
                    e1 * o1 == p,
            ;
        } else {
            assert(rs[0] == (1000int, o0) && rs[1] == (p - 1000 * e0, p));
            assert(1000 * p + (p - 1000 * e0) * o0 == o0 * p) by (nonlinear_arith)
                requires
                    e0 * o0 == p,
            ;
        }
    } else {
        let (o0, o1, o2) = (line[0] as int, line[1] as int, line[2] as int);
        let (e0, e1, e2) = (product_except(line, 0) as int, product_except(line, 1) as int, product_except(line, 2) as int);
        assert(e0 * o0 == p && e1 * o1 == p && e2 * o2 == p && s == e0 + e1 + e2);
        if strategy == Strategy::Unbiased {
            assert(rs[0] == (e0, s) && rs[1] == (e1, s) && rs[2] == (e2, s));
            assert(e0 * s * s + e1 * s * s + e2 * s * s == s * s * s) by (nonlinear_arith)
                requires
                    s == e0 + e1 + e2,
            ;
        } else if g == 0 {
            assert(rs[0] == (p - 1000 * (e1 + e2), p) && rs[1] == (1000int, o1) && rs[2] == (1000int, o2));
            assert((p - 1000 * (e1 + e2)) * o1 * o2 + 1000 * p * o2 + 1000 * p * o1 == p * o1 * o2) by (nonlinear_arith)
                requires
                    e1 * o1 == p,
                    e2 * o2 == p,
            ;
        } else if g == 1 {
            assert(rs[0] == (1000int, o0) && rs[1] == (p - 1000 * (e0 + e2), p) && rs[2] == (1000int, o2));
            assert(1000 * p * o2 + (p - 1000 * (e0 + e2)) * o0 * o2 + 1000 * o0 * p == o0 * p * o2) by (nonlinear_arith)
                requires
                    e0 * o0 == p,
                    e2 * o2 == p,
            ;
        } else {
            assert(rs[0] == (1000int, o0) && rs[1] == (1000int, o1) && rs[2] == (p - 1000 * (e0 + e1), p));
            assert(1000 * o1 * p + 1000 * o0 * p + (p - 1000 * (e0 + e1)) * o0 * o1 == o0 * o1 * p) by (nonlinear_arith)
                requires
                    e0 * o0 == p,
                    e1 * o1 == p,
            ;
        }
    }
}

/// Every outcome of a split of a bet over a line of odds that wins whatever happens wins
/// the profit the split states for it: its share times its odds, less the bet
/// (`share · odds / 1000 - 1 = profit`, odds in thousandths).
pub proof fn split_profit_is_share_times_odds(line: Seq<u32>, strategy: Strategy, j: int)
    requires
        0 < line.len() <= 3,
        1000 * sum_of_products_except(line, line.len()) < product(line),
        0 <= j < line.len(),
    ensures
        ({
            let (r, profit) = share(line, strategy, j);
            (r.num as int) * (line[j] as int) * (profit.den as int)
                == 1000 * (r.den as int) * ((profit.num as int) + (profit.den as int))
        }),
{
    lemma_split_parts(line);
    let p = product(line) as int;
    let s = sum_of_products_except(line, line.len()) as int;
    let e = product_except(line, j) as int;
    let o = line[j] as int;
    assert(e * o == p);
    let g = guess_index(line, strategy == Strategy::Favorite, line.len());
    let (r, profit) = share(line, strategy, j);
    if strategy == Strategy::Unbiased {
        assert(r.num == e && r.den == s && profit.num == p - 1000 * s && profit.den == 1000 * s);
        assert(e * o * (1000 * s) == 1000 * s * ((p - 1000 * s) + 1000 * s)) by (nonlinear_arith)
            requires
                e * o == p,
        ;
    } else if j == g {
        assert(r.num == p - 1000 * (s - e) && r.den == p && profit.num == p - 1000 * s && profit.den == 1000 * e);
        assert((p - 1000 * (s - e)) * o * (1000 * e) == 1000 * p * ((p - 1000 * s) + 1000 * e)) by (nonlinear_arith)
            requires
                e * o == p,
        ;
    }
}

} // verus!
