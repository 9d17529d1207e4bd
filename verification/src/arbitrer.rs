//! The arbitrer's decisions: what to do with an offer a bookmaker reports, whether a
//! market shows an arbitrage opportunity worth taking, how much to stake on each of its
//! outcomes, and the protocol that places the bets of a combo together.

use vstd::prelude::*;
use crate::bookie::{Bookie, Stage};
use crate::currency::Currency;
use crate::markets::{Offer, Outcome, OfferView, is_draw, title_is_draw, game_name, kind_name};
use crate::combo::{Bet, Combo};
use crate::matcher::{collate_outcomes, collation, collation_is_permutation, is_permutation};
use crate::opportunity::{
    Ratio, SignedRatio, Strategy, MarkedOutcome, calc_margin, find_best, odds_table, best_line,
    best_market, inverse_sum, share, is_marked_best, lemma_line_bounds,
};
use crate::table::{
    MarkedOffer, MarkedView, marked_views, Table, BucketView, entry_after_update, entry_after_remove,
    market_size_after_update, entry_index, find_bucket, well_formed_entry, well_formed_market,
};
use crate::matcher::headline;
use crate::combo::{contains, DbError};
use rusqlite::Connection;

verus! {

/// The stake that goes on the outcome with the lowest share (cents).
pub const BASE_STAKE: i64 = 100;

/// The highest stake on one outcome (cents).
pub const MAX_STAKE: i64 = 500;

/// The least profit worth betting for (percent).
pub const MIN_PROFIT_PERCENT: i128 = 2;

/// The highest profit that is believed (percent); a higher one is suspicious.
pub const MAX_PROFIT_PERCENT: i128 = 15;

/// Which outcome of offer `i` of a market lines up with outcome `j` of the first offer:
/// the first offer's own outcomes stay in place, the others are collated with them.
pub open spec fn lined_up(market: Seq<MarkedView>, i: int, j: int) -> int {
    if i == 0 {
        j
    } else {
        collation(market[0].1.outcomes, market[i].1.outcomes)[j]
    }
}

/// The odds of a market, one row per offer, in the order of the first offer's outcomes.
pub open spec fn market_odds(market: Seq<MarkedView>) -> Seq<Seq<u32>> {
    Seq::new(
        market.len(),
        |i: int| Seq::new(market[0].1.outcomes.len(), |j: int| market[i].1.outcomes[lined_up(market, i, j)].1),
    )
}

/// The markets the decisions take: offers with at most three outcomes, all with as many
/// outcomes as the first.
pub open spec fn uniform_market(market: Seq<MarkedOffer>) -> bool {
    market.len() > 0 ==> {
        &&& market[0].1.outcomes@.len() <= 3
        &&& forall|i: int| 0 <= i < market.len() ==> #[trigger] market[i].1.outcomes@.len() == market[0].1.outcomes@.len()
    }
}

/// The outcomes of a market lined up with those of its first offer, one row per offer.
fn collate_market<'a>(market: &'a Vec<MarkedOffer>) -> (t: Vec<Vec<&'a Outcome>>)
    requires
        market@.len() > 0,
        uniform_market(market@),
    ensures
        t@.len() == market@.len(),
        forall|i: int| 0 <= i < t@.len() ==> #[trigger] t@[i]@.len() == market@[0].1.outcomes@.len(),
        forall|i: int, j: int| 0 <= i < t@.len() && 0 <= j < market@[0].1.outcomes@.len() ==>
            *(#[trigger] t@[i]@[j]) == market@[i].1.outcomes@[lined_up(marked_views(market@), i, j)],
        forall|i: int, j: int| 0 <= i < t@.len() && 0 <= j < market@[0].1.outcomes@.len() ==>
            0 <= #[trigger] lined_up(marked_views(market@), i, j) < market@[0].1.outcomes@.len(),
{
    let ghost mv = marked_views(market@);
    let etalon = &market[0].1.outcomes;
    let n = etalon.len();
    let mut first: Vec<&'a Outcome> = Vec::new();
    let mut j: usize = 0;
    while j < n
        invariant
            j <= n,
            n == etalon@.len(),
            etalon == &market@[0].1.outcomes,
            first@.len() == j,
            forall|k: int| 0 <= k < j ==> *(#[trigger] first@[k]) == etalon@[k],
        decreases n - j,
    {
        first.push(&etalon[j]);
        j = j + 1;
    }
    let mut t: Vec<Vec<&'a Outcome>> = Vec::new();
    t.push(first);
    let mut i: usize = 1;
    while i < market.len()
        invariant
            1 <= i <= market@.len(),
            uniform_market(market@),
            mv == marked_views(market@),
            n == market@[0].1.outcomes@.len(),
            etalon == &market@[0].1.outcomes,
            t@.len() == i,
            forall|r: int| 0 <= r < i ==> #[trigger] t@[r]@.len() == n,
            forall|r: int, k: int| 0 <= r < i && 0 <= k < n ==>
                *(#[trigger] t@[r]@[k]) == market@[r].1.outcomes@[lined_up(mv, r, k)],
            forall|r: int, k: int| 0 <= r < i && 0 <= k < n ==> 0 <= #[trigger] lined_up(mv, r, k) < n,
        decreases market@.len() - i,
    {
        let outs = &market[i].1.outcomes;
        proof {
            assert(outs@.len() == n);
        }
        let perm = collate_outcomes(etalon, outs);
        let ghost p = perm@.map_values(|x: usize| x as int);
        proof {
            assert(mv[0].1.outcomes == etalon@.map_values(|o: Outcome| o@));
            assert(mv[i as int].1.outcomes == outs@.map_values(|o: Outcome| o@));
            collation_is_permutation(etalon@.map_values(|o: Outcome| o@), outs@.map_values(|o: Outcome| o@));
            assert(is_permutation(p, n as nat));
        }
        let mut row: Vec<&'a Outcome> = Vec::new();
        let mut k: usize = 0;
        while k < perm.len()
            invariant
                k <= perm.len(),
                perm@.len() == n,
                outs@.len() == n,
                p == perm@.map_values(|x: usize| x as int),
                is_permutation(p, n as nat),
                row@.len() == k,
                forall|q: int| 0 <= q < k ==> *(#[trigger] row@[q]) == outs@[p[q]],
            decreases perm.len() - k,
        {
            proof {
                assert(p[k as int] == perm@[k as int] as int);
            }
            row.push(&outs[perm[k]]);
            k = k + 1;
        }
        proof {
            assert forall|q: int| 0 <= q < n implies lined_up(mv, i as int, q) == p[q] by {}
        }
        t.push(row);
        i = i + 1;
    }
    t
}

/// Whether the bookmaker of offer `i` of a market is known and running.
pub open spec fn runs(market: Seq<MarkedOffer>, bookies: Seq<Bookie>, i: int) -> bool {
    &&& market[i].0 < bookies.len()
    &&& bookies[market[i].0 as int].stage_spec() == Stage::Running
}

/// Whether a profit (per unit of stake) is within the bounds worth betting for.
pub open spec fn profit_in_bounds(p: SignedRatio) -> bool {
    &&& MIN_PROFIT_PERCENT * p.den <= 100 * p.num
    &&& 100 * p.num <= MAX_PROFIT_PERCENT * p.den
}

/// Whether a profit (per unit of stake) is too high to be believed.
pub open spec fn profit_too_high(p: SignedRatio) -> bool {
    100 * p.num > MAX_PROFIT_PERCENT * p.den
}

/// What the opportunity of a market gives for outcome `j` of its first offer: the market
/// with the best odds for it, the outcome there, and the unbiased share of the bet and
/// profit.
pub open spec fn is_best_of_market<'a>(market: Seq<MarkedOffer>, m: MarkedOutcome<'a>, j: int) -> bool {
    let mv = marked_views(market);
    let t = market_odds(mv);
    let b = best_market(t, j, t.len());
    &&& m.market == b
    &&& *m.outcome == market[b].1.outcomes@[lined_up(mv, b, j)]
    &&& (m.rate, m.profit) == share(best_line(t), Strategy::Unbiased, j)
}

/// The opportunity of a market: one outcome per outcome of the first offer.
pub open spec fn is_opportunity<'a>(market: Seq<MarkedOffer>, os: Seq<MarkedOutcome<'a>>) -> bool {
    &&& os.len() == market[0].1.outcomes@.len()
    &&& forall|j: int| 0 <= j < os.len() ==> is_best_of_market(market, #[trigger] os[j], j)
}

/// What the arbitrer concludes about a market.
#[derive(Debug)]
pub enum Verdict<'a> {
    /// Fewer than two offers: nothing to compare.
    Alone,
    /// The bookmaker of the offer at this position is not running (or unknown).
    Halted(usize),
    /// No opportunity: the margin is at least 1, or infinite when some outcome has only
    /// zero odds.
    NoOpportunity(Ratio),
    /// An opportunity with too small a profit.
    TooSmall(Vec<MarkedOutcome<'a>>),
    /// An opportunity with a profit too high to be believed.
    Suspicious(Vec<MarkedOutcome<'a>>),
    /// An opportunity worth taking.
    Take(Vec<MarkedOutcome<'a>>),
}

/// What the arbitrer concludes about a market, given its bookmakers.
pub open spec fn is_verdict<'a>(market: Seq<MarkedOffer>, bookies: Seq<Bookie>, v: Verdict<'a>) -> bool {
    if market.len() < 2 {
        v is Alone
    } else if exists|i: int| 0 <= i < market.len() && !runs(market, bookies, i) {
        v matches Verdict::Halted(i) && 0 <= i < market.len() && !runs(market, bookies, i as int)
            && forall|k: int| 0 <= k < i ==> runs(market, bookies, k)
    } else {
        let t = market_odds(marked_views(market));
        let line = best_line(t);
        let m = inverse_sum(line);
        if !(m.0 < m.1) {
            v == Verdict::<'a>::NoOpportunity(Ratio { num: m.0 as u128, den: m.1 as u128 })
        } else if line.len() == 0 {
            v matches Verdict::TooSmall(os) && os@.len() == 0
        } else {
            let p = share(line, Strategy::Unbiased, 0).1;
            if profit_in_bounds(p) {
                v matches Verdict::Take(os) && is_opportunity(market, os@)
            } else if profit_too_high(p) {
                v matches Verdict::Suspicious(os) && is_opportunity(market, os@)
            } else {
                v matches Verdict::TooSmall(os) && is_opportunity(market, os@)
            }
        }
    }
}

/// Decides about a market: with at least two offers whose bookmakers all run, lines up
/// the outcomes, and when the margin is below 1 splits a bet evenly in profit over the
/// best odds and judges the profit.
pub fn realize_market<'a>(market: &'a Vec<MarkedOffer>, bookies: &Vec<Bookie>) -> (v: Verdict<'a>)
    requires
        uniform_market(market@),
    ensures
        is_verdict(market@, bookies@, v),
{
    if market.len() < 2 {
        return Verdict::Alone;
    }
    let mut i: usize = 0;
    while i < market.len()
        invariant
            i <= market@.len(),
            market@.len() >= 2,
            forall|k: int| 0 <= k < i ==> runs(market@, bookies@, k),
        decreases market@.len() - i,
    {
        let b = market[i].0;
        if b >= bookies.len() {
            return Verdict::Halted(i);
        }
        if bookies[b].stage() != Stage::Running {
            assert(!runs(market@, bookies@, i as int));
            return Verdict::Halted(i);
        }
        i = i + 1;
    }
    let ghost mv = marked_views(market@);
    let table = collate_market(market);
    let ghost t = market_odds(mv);
    proof {
        assert forall|r: int| 0 <= r < table@.len() implies #[trigger] odds_table(table@)[r] =~= t[r] by {
            assert(odds_table(table@)[r] == table@[r]@.map_values(|o: &Outcome| o.1));
            assert forall|j: int| 0 <= j < t[r].len() implies odds_table(table@)[r][j] == t[r][j] by {
                let k = lined_up(mv, r, j);
                assert(*table@[r]@[j] == market@[r].1.outcomes@[k]);
                assert(mv[r].1.outcomes == market@[r].1.outcomes@.map_values(|o: Outcome| o@));
            }
        }
        assert(odds_table(table@) =~= t);
    }
    let margin = calc_margin(&table);
    if !(margin.num < margin.den) {
        return Verdict::NoOpportunity(margin);
    }
    if table[0].len() == 0 {
        proof {
            assert(best_line(t).len() == 0);
        }
        return Verdict::TooSmall(Vec::new());
    }
    let outcomes = find_best(&table, Strategy::Unbiased);
    proof {
        assert forall|j: int| 0 <= j < outcomes@.len() implies is_best_of_market(market@, #[trigger] outcomes@[j], j) by {
            assert(is_marked_best(table@, Strategy::Unbiased, outcomes@[j], j));
            let b = best_market(t, j, t.len());
            crate::opportunity::lemma_best_market(t, j, t.len());
        }
        lemma_line_bounds(best_line(t));
    }
    let profit = outcomes[0].profit;
    let den = profit.den as i128;
    if MIN_PROFIT_PERCENT * den <= 100 * profit.num && 100 * profit.num <= MAX_PROFIT_PERCENT * den {
        Verdict::Take(outcomes)
    } else if 100 * profit.num > MAX_PROFIT_PERCENT * den {
        Verdict::Suspicious(outcomes)
    } else {
        Verdict::TooSmall(outcomes)
    }
}


/// The shares of a bet that some outcomes get, over their common denominator.
pub open spec fn shares<'a>(os: Seq<MarkedOutcome<'a>>) -> Seq<u128> {
    os.map_values(|o: MarkedOutcome<'a>| o.rate.num)
}

/// The lowest of some shares.
pub open spec fn lowest_share(nums: Seq<u128>) -> u128
    decreases nums.len(),
{
    if nums.len() <= 1 {
        nums[0]
    } else {
        let m = lowest_share(nums.drop_last());
        if nums.last() < m {
            nums.last()
        } else {
            m
        }
    }
}

/// The stake on an outcome whose share is `num` when the lowest share is `base`:
/// `BASE_STAKE · num / base` cents, rounded to the nearest cent (halves up).
pub open spec fn stake_cents(num: nat, base: nat) -> int {
    (2 * BASE_STAKE * num + base) / (2 * base as int)
}

/// The stakes on some outcomes, by their shares.
pub open spec fn stakes_for(nums: Seq<u128>) -> Seq<int> {
    Seq::new(nums.len(), |j: int| stake_cents(nums[j] as nat, lowest_share(nums) as nat))
}

/// The lowest share is one of the shares and no share is lower.
proof fn lemma_lowest_share(nums: Seq<u128>)
    requires
        nums.len() > 0,
    ensures
        forall|k: int| 0 <= k < nums.len() ==> lowest_share(nums) <= #[trigger] nums[k],
        exists|k: int| 0 <= k < nums.len() && #[trigger] nums[k] == lowest_share(nums),
    decreases nums.len(),
{
    if nums.len() > 1 {
        let p = nums.drop_last();
        lemma_lowest_share(p);
        let k = choose|k: int| 0 <= k < p.len() && #[trigger] p[k] == lowest_share(p);
        assert(nums[k] == p[k]);
        assert(nums[nums.len() - 1] == nums.last());
        assert forall|i: int| 0 <= i < nums.len() implies lowest_share(nums) <= #[trigger] nums[i] by {
            if i < nums.len() - 1 {
                assert(nums[i] == p[i]);
            }
        }
    } else {
        assert(nums[0] == lowest_share(nums));
    }
}

/// The stake of a share at least the lowest is at least `BASE_STAKE`, exactly `BASE_STAKE`
/// for the lowest, and a larger share never gets a smaller stake.
proof fn lemma_stake_cents(n: nat, m: nat, b: nat)
    requires
        0 < b <= n,
        n <= m,
    ensures
        stake_cents(n, b) >= BASE_STAKE,
        n == b ==> stake_cents(n, b) == BASE_STAKE,
        stake_cents(n, b) <= stake_cents(m, b),
{
    let (ni, mi, bi) = (n as int, m as int, b as int);
    let d: int = 2 * bi;
    assert(stake_cents(n, b) == (200 * ni + bi) / d);
    assert(stake_cents(m, b) == (200 * mi + bi) / d);
    assert(200 * ni + bi >= 100 * d);
    vstd::arithmetic::div_mod::lemma_div_is_ordered(100 * d, 200 * ni + bi, d);
    vstd::arithmetic::div_mod::lemma_div_multiples_vanish(100, d);
    assert(d * 100 == 100 * d) by (nonlinear_arith);
    if n == b {
        vstd::arithmetic::div_mod::lemma_fundamental_div_mod_converse(200 * ni + bi, d, 100, bi);
    }
    vstd::arithmetic::div_mod::lemma_div_is_ordered(200 * ni + bi, 200 * mi + bi, d);
}

/// The stakes of a split start at `BASE_STAKE`: every stake is at least `BASE_STAKE`, an
/// outcome with the lowest share gets exactly `BASE_STAKE`, and a larger share never gets a
/// smaller stake.
pub proof fn stakes_start_at_the_base_stake(nums: Seq<u128>)
    requires
        nums.len() > 0,
        forall|k: int| 0 <= k < nums.len() ==> #[trigger] nums[k] > 0,
    ensures
        stakes_for(nums).len() == nums.len(),
        forall|j: int| 0 <= j < nums.len() ==> #[trigger] stakes_for(nums)[j] >= BASE_STAKE,
        exists|j: int| 0 <= j < nums.len() && #[trigger] stakes_for(nums)[j] == BASE_STAKE
            && forall|k: int| 0 <= k < nums.len() ==> nums[j] <= #[trigger] nums[k],
        forall|j: int, k: int| 0 <= j < nums.len() && 0 <= k < nums.len() && nums[j] <= nums[k]
            ==> #[trigger] stakes_for(nums)[j] <= #[trigger] stakes_for(nums)[k],
{
    lemma_lowest_share(nums);
    let b = lowest_share(nums);
    let st = stakes_for(nums);
    assert forall|j: int| 0 <= j < nums.len() implies #[trigger] st[j] >= BASE_STAKE by {
        lemma_stake_cents(nums[j] as nat, nums[j] as nat, b as nat);
    }
    let k0 = choose|k: int| 0 <= k < nums.len() && #[trigger] nums[k] == b;
    lemma_stake_cents(nums[k0] as nat, nums[k0] as nat, b as nat);
    assert(st[k0] == BASE_STAKE);
    assert forall|j: int, k: int| 0 <= j < nums.len() && 0 <= k < nums.len() && nums[j] <= nums[k]
        implies #[trigger] st[j] <= #[trigger] st[k] by {
        lemma_stake_cents(nums[j] as nat, nums[k] as nat, b as nat);
    }
}

/// The bookmakers of the markets that some outcomes are taken from.
pub open spec fn owners<'a>(market: Seq<MarkedOffer>, os: Seq<MarkedOutcome<'a>>) -> Seq<usize> {
    os.map_values(|o: MarkedOutcome<'a>| market[o.market as int].0)
}

/// Every stake is at most the highest stake and at most the balance of its bookmaker.
pub open spec fn affordable(stakes: Seq<int>, owners: Seq<usize>, bookies: Seq<Bookie>) -> bool {
    forall|j: int| 0 <= j < stakes.len() ==> {
        &&& #[trigger] stakes[j] <= MAX_STAKE
        &&& stakes[j] <= bookies[owners[j] as int].balance_spec().0
    }
}

/// The balance of bookmaker `b` after holding the first `n` stakes that are its own.
pub open spec fn balance_after_holds(balance: i64, stakes: Seq<int>, owners: Seq<usize>, b: usize, n: nat) -> i64
    decreases n,
{
    if n == 0 {
        balance
    } else {
        let prev = balance_after_holds(balance, stakes, owners, b, (n - 1) as nat);
        if owners[n - 1] == b {
            prev.wrapping_sub(stakes[n - 1] as i64)
        } else {
            prev
        }
    }
}

/// Only the balances of bookmakers change.
pub open spec fn only_balances_change(before: Seq<Bookie>, after: Seq<Bookie>) -> bool {
    &&& after.len() == before.len()
    &&& forall|b: int| 0 <= b < before.len() ==> {
        &&& (#[trigger] after[b]).well_formed()
        &&& after[b].stage_spec() == before[b].stage_spec()
        &&& after[b].delay_spec() == before[b].delay_spec()
        &&& after[b].offers() == before[b].offers()
        &&& after[b].host_spec() == before[b].host_spec()
    }
}

/// Whether `os` is the opportunity of a market whose margin is below 1, with the
/// bookmakers of the market known.
pub open spec fn takes_opportunity<'a>(market: Seq<MarkedOffer>, os: Seq<MarkedOutcome<'a>>, bookies: Seq<Bookie>) -> bool {
    let line = best_line(market_odds(marked_views(market)));
    &&& market.len() > 0
    &&& uniform_market(market)
    &&& market[0].1.outcomes@.len() > 0
    &&& inverse_sum(line).0 < inverse_sum(line).1
    &&& is_opportunity(market, os)
    &&& forall|i: int| 0 <= i < market.len() ==> #[trigger] market[i].0 < bookies.len()
}

/// Splits the money over the outcomes of an opportunity: the outcome with the lowest
/// share gets `BASE_STAKE`, the others in proportion to their shares. When a stake
/// exceeds `MAX_STAKE` or the balance of its bookmaker, nothing is staked; otherwise
/// every stake is held on its bookmaker's balance.
pub fn distribute_currency<'a>(market: &Vec<MarkedOffer>, outcomes: &Vec<MarkedOutcome<'a>>, bookies: &mut Vec<Bookie>) -> (r: Option<Vec<Currency>>)
    requires
        takes_opportunity(market@, outcomes@, old(bookies)@),
        forall|b: int| 0 <= b < old(bookies)@.len() ==> (#[trigger] old(bookies)@[b]).well_formed(),
    ensures
        only_balances_change(old(bookies)@, final(bookies)@),
        ({
            let stakes = stakes_for(shares(outcomes@));
            let ow = owners(market@, outcomes@);
            if affordable(stakes, ow, old(bookies)@) {
                &&& r matches Some(v) && v@.len() == stakes.len()
                    && forall|j: int| 0 <= j < stakes.len() ==> (#[trigger] v@[j]).0 == stakes[j]
                &&& forall|b: int| 0 <= b < old(bookies)@.len() ==> (#[trigger] final(bookies)@[b]).balance_spec().0
                    == balance_after_holds(old(bookies)@[b].balance_spec().0, stakes, ow, b as usize, stakes.len())
            } else {
                &&& r is None
                &&& final(bookies)@ == old(bookies)@
            }
        }),
{
    let ghost mv = marked_views(market@);
    let ghost t = market_odds(mv);
    let ghost line = best_line(t);
    let ghost nums = shares(outcomes@);
    let ghost stakes = stakes_for(nums);
    let ghost ow = owners(market@, outcomes@);
    let n = outcomes.len();
    proof {
        crate::opportunity::lemma_opportunity_line(line);
        lemma_line_bounds(line);
        assert forall|j: int| 0 <= j < n implies 0 < #[trigger] nums[j] <= 0x1_0000_0000_0000_0000 by {
            assert(is_best_of_market(market@, outcomes@[j], j));
        }
        assert forall|j: int| 0 <= j < n implies #[trigger] outcomes@[j].market < market@.len() by {
            assert(is_best_of_market(market@, outcomes@[j], j));
            crate::opportunity::lemma_best_market(t, j, t.len());
        }
    }
    let mut base: u128 = outcomes[0].rate.num;
    let mut j: usize = 1;
    while j < n
        invariant
            n == outcomes@.len(),
            nums == shares(outcomes@),
            1 <= j <= n,
            base == lowest_share(nums.take(j as int)),
            forall|k: int| 0 <= k < n ==> 0 < #[trigger] nums[k] <= 0x1_0000_0000_0000_0000,
            0 < base <= 0x1_0000_0000_0000_0000,
        decreases n - j,
    {
        proof {
            let tk = nums.take(j as int + 1);
            assert(tk.drop_last() =~= nums.take(j as int));
            assert(tk.last() == nums[j as int]);
            assert(nums[j as int] == outcomes@[j as int].rate.num);
        }
        if outcomes[j].rate.num < base {
            base = outcomes[j].rate.num;
        }
        j = j + 1;
    }
    proof {
        assert(nums.take(n as int) =~= nums);
    }
    let mut v: Vec<Currency> = Vec::new();
    let mut j: usize = 0;
    while j < n
        invariant
            n == outcomes@.len(),
            nums == shares(outcomes@),
            stakes == stakes_for(nums),
            ow == owners(market@, outcomes@),
            base == lowest_share(nums),
            0 < base <= 0x1_0000_0000_0000_0000,
            forall|k: int| 0 <= k < n ==> 0 < #[trigger] nums[k] <= 0x1_0000_0000_0000_0000,
            forall|k: int| 0 <= k < n ==> #[trigger] outcomes@[k].market < market@.len(),
            forall|i: int| 0 <= i < market@.len() ==> #[trigger] market@[i].0 < bookies@.len(),
            bookies@ == old(bookies)@,
            forall|b: int| 0 <= b < bookies@.len() ==> (#[trigger] bookies@[b]).well_formed(),
            j <= n,
            v@.len() == j,
            forall|k: int| 0 <= k < j ==> (#[trigger] v@[k]).0 == stakes[k],
            forall|k: int| 0 <= k < j ==> #[trigger] stakes[k] <= MAX_STAKE && stakes[k] <= bookies@[ow[k] as int].balance_spec().0,
        decreases n - j,
    {
        let num = outcomes[j].rate.num;
        proof {
            assert(nums[j as int] == num);
        }
        let stake = (200 * num + base) / (2 * base);
        proof {
            assert(stake == stakes[j as int]);
        }
        if stake > 500 {
            proof {
                assert(!affordable(stakes, ow, bookies@));
            }
            return None;
        }
        let owner = market[outcomes[j].market].0;
        proof {
            assert(ow[j as int] == owner);
        }
        let balance = bookies[owner].balance();
        if (stake as i64) > balance.0 {
            proof {
                assert(!affordable(stakes, ow, bookies@));
            }
            return None;
        }
        v.push(Currency(stake as i64));
        j = j + 1;
    }
    proof {
        assert(affordable(stakes, ow, bookies@));
    }
    let ghost before = bookies@;
    assert(before.len() == bookies.len());
    let mut j: usize = 0;
    while j < n
        invariant
            n == outcomes@.len(),
            v@.len() == n,
            stakes.len() == n,
            forall|k: int| 0 <= k < n ==> (#[trigger] v@[k]).0 == stakes[k],
            ow == owners(market@, outcomes@),
            forall|k: int| 0 <= k < n ==> #[trigger] outcomes@[k].market < market@.len(),
            forall|i: int| 0 <= i < market@.len() ==> #[trigger] market@[i].0 < before.len(),
            forall|b: int| 0 <= b < before.len() ==> (#[trigger] before[b]).well_formed(),
            only_balances_change(before, bookies@),
            before.len() <= usize::MAX,
            j <= n,
            forall|b: int| 0 <= b < before.len() ==> (#[trigger] bookies@[b]).balance_spec().0
                == balance_after_holds(before[b].balance_spec().0, stakes, ow, b as usize, j as nat),
        decreases n - j,
    {
        let owner = market[outcomes[j].market].0;
        proof {
            assert(ow[j as int] == owner);
        }
        let ghost prev = bookies@;
        bookies[owner].hold_stake(v[j]);
        proof {
            assert forall|b: int| 0 <= b < before.len() implies (#[trigger] bookies@[b]).balance_spec().0
                == balance_after_holds(before[b].balance_spec().0, stakes, ow, b as usize, (j + 1) as nat) by {
                let bal = before[b].balance_spec().0;
                let was = balance_after_holds(bal, stakes, ow, b as usize, j as nat);
                assert(balance_after_holds(bal, stakes, ow, b as usize, (j + 1) as nat) == if ow[j as int] == b as usize {
                    was.wrapping_sub(stakes[j as int] as i64)
                } else {
                    was
                });
                assert(prev[b].balance_spec().0 == was);
                if b != owner {
                    assert(bookies@[b] == prev[b]);
                } else {
                    assert(v@[j as int].0 == stakes[j as int]);
                    assert(stakes[j as int] as i64 == v@[j as int].0);
                    assert(bookies@[b].balance_spec().0 == was.wrapping_sub(v@[j as int].0));
                    assert(ow[j as int] == b as usize);
                }
            }
            assert forall|b: int| 0 <= b < before.len() implies {
                &&& (#[trigger] bookies@[b]).well_formed()
                &&& bookies@[b].stage_spec() == before[b].stage_spec()
                &&& bookies@[b].delay_spec() == before[b].delay_spec()
                &&& bookies@[b].offers() == before[b].offers()
                &&& bookies@[b].host_spec() == before[b].host_spec()
            } by {
                if b != owner {
                    assert(bookies@[b] == prev[b]);
                }
            }
        }
        j = j + 1;
    }
    Some(v)
}


/// Whether a bet records outcome `o` of a market with its stake.
pub open spec fn is_bet_for<'a>(bet: Bet, market: Seq<MarkedOffer>, o: MarkedOutcome<'a>, stake: Currency, bookies: Seq<Bookie>) -> bool {
    let marked = market[o.market as int];
    &&& bet.host@ == bookies[marked.0 as int].host_spec()
    &&& bet.id == marked.1.oid
    &&& match bet.title {
        None => is_draw(o.outcome.0@),
        Some(t) => !is_draw(o.outcome.0@) && t@ == o.outcome.0@,
    }
    &&& bet.expiry == marked.1.date
    &&& bet.coef == o.outcome.1
    &&& bet.stake == stake
    &&& bet.profit == o.profit
    &&& !bet.placed
}

/// The record of a combo about to be placed at `date`: the game and kind of the market
/// of the first outcome, and a bet per outcome with its stake, none placed yet.
pub fn combo_for<'a>(date: u32, market: &Vec<MarkedOffer>, outcomes: &Vec<MarkedOutcome<'a>>, stakes: &Vec<Currency>, bookies: &Vec<Bookie>) -> (c: Combo)
    requires
        outcomes@.len() > 0,
        stakes@.len() == outcomes@.len(),
        forall|j: int| 0 <= j < outcomes@.len() ==> #[trigger] outcomes@[j].market < market@.len(),
        forall|i: int| 0 <= i < market@.len() ==> #[trigger] market@[i].0 < bookies@.len(),
    ensures
        c.date == date,
        c.game@ == game_name(market@[outcomes@[0].market as int].1.game),
        c.kind@ == kind_name(market@[outcomes@[0].market as int].1.kind),
        c.bets@.len() == outcomes@.len(),
        forall|j: int| 0 <= j < outcomes@.len() ==> is_bet_for(#[trigger] c.bets@[j], market@, outcomes@[j], stakes@[j], bookies@),
{
    let first = &market[outcomes[0].market].1;
    let game = first.game.name().to_string();
    let kind = first.kind.name().to_string();
    let mut bets: Vec<Bet> = Vec::new();
    let mut j: usize = 0;
    while j < outcomes.len()
        invariant
            j <= outcomes@.len(),
            stakes@.len() == outcomes@.len(),
            forall|k: int| 0 <= k < outcomes@.len() ==> #[trigger] outcomes@[k].market < market@.len(),
            forall|i: int| 0 <= i < market@.len() ==> #[trigger] market@[i].0 < bookies@.len(),
            bets@.len() == j,
            forall|k: int| 0 <= k < j ==> is_bet_for(#[trigger] bets@[k], market@, outcomes@[k], stakes@[k], bookies@),
        decreases outcomes@.len() - j,
    {
        let o = &outcomes[j];
        let marked = &market[o.market];
        let title = if title_is_draw(o.outcome.0.as_str()) {
            None
        } else {
            Some(o.outcome.0.clone())
        };
        let bet = Bet {
            host: bookies[marked.0].host().clone(),
            id: marked.1.oid,
            title,
            expiry: marked.1.date,
            coef: o.outcome.1,
            stake: stakes[j],
            profit: o.profit,
            placed: false,
        };
        bets.push(bet);
        j = j + 1;
    }
    Combo { date, game, kind, bets }
}


/// The steps of placing one bet of a combo, in order: glance at the offer, check the bet
/// on the site, wait for the other bets to be checked, glance again, wait for the others
/// to glance again, wait for the combo to be recorded, place the bet, mark it placed.
#[derive(Debug, Clone, Copy, PartialEq, Eq, Structural)]
pub enum BetStep {
    Glance,
    Check,
    AwaitChecks,
    Reglance,
    AwaitReglances,
    AwaitRecord,
    Place,
    Mark,
}

/// How a step went: it passed, it failed (the offer changed, a bet is refused, the time
/// is up), or the site broke (the check could not be made, or placing failed).
#[derive(Debug, Clone, Copy, PartialEq, Eq, Structural)]
pub enum StepResult {
    Passed,
    Failed,
    Broken,
}

/// What to do after a step: the next step, or stop, degrading the bookmaker (taking all
/// its offers out of the table) or not, and releasing the held stake or not.
#[derive(Debug, Clone, Copy, PartialEq, Eq, Structural)]
pub enum BetAction {
    Step(BetStep),
    Finish { degrade: bool, release: bool },
}

/// The position of a step in the protocol.
pub open spec fn step_order(s: BetStep) -> nat {
    match s {
        BetStep::Glance => 0,
        BetStep::Check => 1,
        BetStep::AwaitChecks => 2,
        BetStep::Reglance => 3,
        BetStep::AwaitReglances => 4,
        BetStep::AwaitRecord => 5,
        BetStep::Place => 6,
        BetStep::Mark => 7,
    }
}

/// What follows a step of placing a bet.
pub open spec fn bet_transition(step: BetStep, result: StepResult) -> BetAction {
    let stop = BetAction::Finish { degrade: false, release: true };
    match step {
        BetStep::Glance => if result == StepResult::Passed { BetAction::Step(BetStep::Check) } else { stop },
        BetStep::Check => match result {
            StepResult::Passed => BetAction::Step(BetStep::AwaitChecks),
            StepResult::Failed => stop,
            StepResult::Broken => BetAction::Finish { degrade: true, release: true },
        },
        BetStep::AwaitChecks => if result == StepResult::Passed { BetAction::Step(BetStep::Reglance) } else { stop },
        BetStep::Reglance => if result == StepResult::Passed { BetAction::Step(BetStep::AwaitReglances) } else { stop },
        BetStep::AwaitReglances => if result == StepResult::Passed { BetAction::Step(BetStep::AwaitRecord) } else { stop },
        BetStep::AwaitRecord => BetAction::Step(BetStep::Place),
        BetStep::Place => if result == StepResult::Passed {
            BetAction::Step(BetStep::Mark)
        } else {
            BetAction::Finish { degrade: true, release: true }
        },
        BetStep::Mark => BetAction::Finish { degrade: false, release: false },
    }
}

/// What to do after a step of placing a bet. The protocol starts with `Glance`.
pub fn place_bet(step: BetStep, result: StepResult) -> (a: BetAction)
    ensures
        a == bet_transition(step, result),
{
    let stop = BetAction::Finish { degrade: false, release: true };
    match step {
        BetStep::Glance => if result == StepResult::Passed { BetAction::Step(BetStep::Check) } else { stop },
        BetStep::Check => match result {
            StepResult::Passed => BetAction::Step(BetStep::AwaitChecks),
            StepResult::Failed => stop,
            StepResult::Broken => BetAction::Finish { degrade: true, release: true },
        },
        BetStep::AwaitChecks => if result == StepResult::Passed { BetAction::Step(BetStep::Reglance) } else { stop },
        BetStep::Reglance => if result == StepResult::Passed { BetAction::Step(BetStep::AwaitReglances) } else { stop },
        BetStep::AwaitReglances => if result == StepResult::Passed { BetAction::Step(BetStep::AwaitRecord) } else { stop },
        BetStep::AwaitRecord => BetAction::Step(BetStep::Place),
        BetStep::Place => if result == StepResult::Passed {
            BetAction::Step(BetStep::Mark)
        } else {
            BetAction::Finish { degrade: true, release: true }
        },
        BetStep::Mark => BetAction::Finish { degrade: false, release: false },
    }
}

/// Every step of placing a bet moves forward, so the protocol ends after at most eight
/// steps; when it ends, the held stake is released unless the bet was placed, and the
/// bookmaker is degraded exactly when its site broke (a check that could not be made, or
/// a placing that failed).
pub proof fn bet_protocol_ends_well(step: BetStep, result: StepResult)
    ensures
        match bet_transition(step, result) {
            BetAction::Step(next) => step_order(next) == step_order(step) + 1,
            BetAction::Finish { degrade, release } => {
                &&& release == (step != BetStep::Mark)
                &&& degrade == ((step == BetStep::Check && result == StepResult::Broken)
                    || (step == BetStep::Place && result != StepResult::Passed))
            },
        },
{
}

/// The steps of the arbitrer while a combo is placed: wait for the checks, wait for the
/// second glances, record the combo, let the bets be placed.
#[derive(Debug, Clone, Copy, PartialEq, Eq, Structural)]
pub enum ComboStep {
    AwaitChecks,
    AwaitReglances,
    Record,
    Release,
}

/// What the arbitrer does after a step of placing a combo: the next step, or stop.
#[derive(Debug, Clone, Copy, PartialEq, Eq, Structural)]
pub enum ComboAction {
    Step(ComboStep),
    Finish,
}

/// What follows a step of placing a combo: a wait that ran out of time stops it.
pub open spec fn combo_transition(step: ComboStep, passed: bool) -> ComboAction {
    match step {
        ComboStep::AwaitChecks => if passed { ComboAction::Step(ComboStep::AwaitReglances) } else { ComboAction::Finish },
        ComboStep::AwaitReglances => if passed { ComboAction::Step(ComboStep::Record) } else { ComboAction::Finish },
        ComboStep::Record => ComboAction::Step(ComboStep::Release),
        ComboStep::Release => ComboAction::Finish,
    }
}

/// What the arbitrer does after a step of placing a combo. It starts with `AwaitChecks`.
pub fn place_bets(step: ComboStep, passed: bool) -> (a: ComboAction)
    ensures
        a == combo_transition(step, passed),
{
    match step {
        ComboStep::AwaitChecks => if passed { ComboAction::Step(ComboStep::AwaitReglances) } else { ComboAction::Finish },
        ComboStep::AwaitReglances => if passed { ComboAction::Step(ComboStep::Record) } else { ComboAction::Finish },
        ComboStep::Record => ComboAction::Step(ComboStep::Release),
        ComboStep::Release => ComboAction::Finish,
    }
}


/// Takes in an offer a bookmaker reports: a new or changed offer (`upsert`) is stored in
/// the table, a withdrawn one is taken out. Returns whether the offer now shares a market
/// with offers of other bookmakers, so that the market is to be checked.
pub fn accept_offer(table: &mut Table, bookie: usize, offer: &Offer, upsert: bool) -> (check: bool)
    requires
        old(table).well_formed(),
        offer.well_formed(),
    ensures
        final(table).well_formed(),
        ({
            let m = (bookie, offer@);
            let e = old(table).entry_for(offer@);
            let es = old(table).entries();
            if upsert {
                &&& final(table).entries() == es.update(e, entry_after_update(es[e], m))
                &&& check == (market_size_after_update(es[e], m) >= 2)
            } else {
                &&& final(table).entries() == es.update(e, entry_after_remove(es[e], m))
                &&& !check
            }
        }),
{
    let marked = MarkedOffer(bookie, offer.duplicate());
    proof {
        assert(marked.1.outcomes@.len() == marked.1@.outcomes.len());
        assert(offer.outcomes@.len() == offer@.outcomes.len());
    }
    if upsert {
        table.update_offer(marked) >= 2
    } else {
        table.remove_offer(&marked);
        false
    }
}

/// The entries of a table after taking out, in turn, the offers of a bookmaker.
pub open spec fn entries_after_removals(es: Seq<Seq<BucketView>>, bookie: usize, offers: Seq<OfferView>) -> Seq<Seq<BucketView>>
    decreases offers.len(),
{
    if offers.len() == 0 {
        es
    } else {
        let prev = entries_after_removals(es, bookie, offers.drop_last());
        let m = (bookie, offers.last());
        let e = entry_index(headline(m.1), prev.len());
        prev.update(e, entry_after_remove(prev[e], m))
    }
}

proof fn lemma_removals_keep_length(es: Seq<Seq<BucketView>>, bookie: usize, offers: Seq<OfferView>)
    requires
        es.len() > 0,
    ensures
        entries_after_removals(es, bookie, offers).len() == es.len(),
    decreases offers.len(),
{
    if offers.len() > 0 {
        lemma_removals_keep_length(es, bookie, offers.drop_last());
    }
}

/// When a bookmaker stops working: it forgets all its offers, and they all leave the
/// table. Returns the offers, in the order they were taken out.
pub fn degradation(table: &mut Table, index: usize, bookie: &mut Bookie) -> (removed: Vec<Offer>)
    requires
        old(table).well_formed(),
        old(bookie).well_formed(),
    ensures
        final(table).well_formed(),
        final(bookie).well_formed(),
        final(bookie).offers() == Map::<crate::markets::OID, OfferView>::empty(),
        final(bookie).stage_spec() == old(bookie).stage_spec(),
        final(bookie).delay_spec() == old(bookie).delay_spec(),
        final(bookie).balance_spec() == old(bookie).balance_spec(),
        final(bookie).host_spec() == old(bookie).host_spec(),
        removed@.len() == old(bookie).offers().len(),
        forall|i: int| 0 <= i < removed@.len() ==> old(bookie).offers().contains_key(#[trigger] removed@[i].oid)
            && old(bookie).offers()[removed@[i].oid] == removed@[i]@,
        forall|k: crate::markets::OID| old(bookie).offers().contains_key(k) ==>
            exists|i: int| 0 <= i < removed@.len() && #[trigger] removed@[i].oid == k,
        final(table).entries() == entries_after_removals(
            old(table).entries(),
            index,
            removed@.map_values(|o: Offer| o@),
        ),
{
    let removed = bookie.drain();
    let ghost views = removed@.map_values(|o: Offer| o@);
    proof {
        assert forall|k: int| 0 <= k < removed@.len() implies (#[trigger] removed@[k]).well_formed() by {
            assert(old(bookie).offers().contains_key(removed@[k].oid));
        }
    }
    let ghost start = table.entries();
    let mut i: usize = 0;
    while i < removed.len()
        invariant
            i <= removed@.len(),
            table.well_formed(),
            start.len() > 0,
            views == removed@.map_values(|o: Offer| o@),
            forall|k: int| 0 <= k < removed@.len() ==> (#[trigger] removed@[k]).well_formed(),
            table.entries() == entries_after_removals(start, index, views.take(i as int)),
        decreases removed@.len() - i,
    {
        proof {
            let t = views.take(i as int + 1);
            assert(t.drop_last() =~= views.take(i as int));
            assert(t.last() == removed@[i as int]@);
            lemma_removals_keep_length(start, index, views.take(i as int));
        }
        let marked = MarkedOffer(index, removed[i].duplicate());
        proof {
            assert(marked.1.outcomes@.len() == marked.1@.outcomes.len());
            assert(removed@[i as int].outcomes@.len() == removed@[i as int]@.outcomes.len());
        }
        table.remove_offer(&marked);
        i = i + 1;
    }
    proof {
        assert(views.take(removed@.len() as int) =~= views);
    }
    removed
}

/// Looks up the market of an offer and decides about it (see `realize_market`).
/// Returns the market with the verdict, nothing when the offer has no market.
pub fn resolve<'a>(table: &'a Table, offer: &Offer, bookies: &Vec<Bookie>) -> (r: Option<(&'a Vec<MarkedOffer>, Verdict<'a>)>)
    requires
        table.well_formed(),
        offer.well_formed(),
    ensures
        match find_bucket(table.entries()[table.entry_for(offer@)], offer@) {
            Some(b) => r matches Some((market, v))
                && marked_views(market@) == table.entries()[table.entry_for(offer@)][b].market
                && is_verdict(market@, bookies@, v),
            None => r is None,
        },
{
    match table.get_market(offer) {
        Some(market) => {
            proof {
                let es = table.entries();
                let e = table.entry_for(offer@);
                table.lemma_entry_for(offer@);
                let b = find_bucket(es[e], offer@).unwrap();
                crate::table::lemma_find_bucket(es[e], offer@);
                assert(well_formed_entry(es[e], e, es.len()));
                assert(well_formed_market(es[e][b]));
                let mv = marked_views(market@);
                assert forall|i: int| 0 <= i < market@.len() implies #[trigger] market@[i].1.outcomes@.len() == market@[0].1.outcomes@.len() by {
                    assert(mv[i] == market@[i]@);
                    assert(mv[0] == market@[0]@);
                    assert(headline(mv[i].1) == headline(es[e][b].badge));
                    assert(headline(mv[0].1) == headline(es[e][b].badge));
                }
                if market@.len() > 0 {
                    assert(mv[0] == market@[0]@);
                    assert(crate::table::matchable(mv[0].1));
                }
            }
            let v = realize_market(market, bookies);
            Some((market, v))
        },
        None => None,
    }
}

/// What one lookup of a recorded bet decides: a recorded bet ends the check with "bets
/// were made", an error ends it with the error, and no record goes on to the next offer.
pub open spec fn lookup_outcome(answer: Result<bool, DbError>) -> Option<Result<bool, DbError>> {
    match answer {
        Ok(true) => Some(Ok(false)),
        Ok(false) => None,
        Err(e) => Some(Err(e)),
    }
}

/// Takes in the answer of one lookup (see `lookup_outcome`): the result of the check when
/// the answer ends it, none when the check goes on.
pub fn after_lookup(answer: Result<bool, DbError>) -> (next: Option<Result<bool, DbError>>)
    ensures
        next == lookup_outcome(answer),
{
    match answer {
        Ok(true) => Some(Ok(false)),
        Ok(false) => None,
        Err(e) => Some(Err(e)),
    }
}

/// What is asked of the database about an offer of a market: its bookmaker's site and
/// its id.
pub open spec fn lookup_key(bookies: Seq<Bookie>, m: MarkedOffer) -> (Seq<char>, u64) {
    (bookies[m.0 as int].host_spec(), m.1.oid)
}

/// The views of lookup keys.
pub open spec fn key_views(keys: Seq<(String, u64)>) -> Seq<(Seq<char>, u64)> {
    keys.map_values(|k: (String, u64)| (k.0@, k.1))
}

/// What to ask of the database about each offer of a market, in order (see `lookup_key`).
pub fn market_lookups(bookies: &Vec<Bookie>, market: &Vec<MarkedOffer>) -> (keys: Vec<(String, u64)>)
    requires
        forall|i: int| 0 <= i < market@.len() ==> #[trigger] market@[i].0 < bookies@.len(),
    ensures
        keys@.len() == market@.len(),
        forall|i: int| 0 <= i < market@.len() ==> #[trigger] key_views(keys@)[i] == lookup_key(bookies@, market@[i]),
{
    let mut keys: Vec<(String, u64)> = Vec::new();
    let mut i: usize = 0;
    while i < market.len()
        invariant
            i <= market@.len(),
            keys@.len() == i,
            forall|k: int| 0 <= k < market@.len() ==> #[trigger] market@[k].0 < bookies@.len(),
            forall|k: int| 0 <= k < i ==> #[trigger] key_views(keys@)[k] == lookup_key(bookies@, market@[k]),
        decreases market@.len() - i,
    {
        let marked = &market[i];
        let host = bookies[marked.0].host().clone();
        let ghost before = keys@;
        keys.push((host, marked.1.oid));
        proof {
            assert(key_views(keys@) =~= key_views(before).push((host@, marked.1.oid)));
        }
        i = i + 1;
    }
    keys
}

/// What the answers of the lookups, in order, decide: the first that ends the check
/// (see `lookup_outcome`), or "no bets" when none does.
pub open spec fn first_recorded_of(answers: Seq<Result<bool, DbError>>) -> Result<bool, DbError>
    decreases answers.len(),
{
    if answers.len() == 0 {
        Ok(true)
    } else {
        match lookup_outcome(answers[0]) {
            Some(r) => r,
            None => first_recorded_of(answers.drop_first()),
        }
    }
}

/// Combines the answers of the lookups, in order (see `first_recorded_of`).
pub fn first_recorded(answers: Vec<Result<bool, DbError>>) -> (r: Result<bool, DbError>)
    ensures
        r == first_recorded_of(answers@),
{
    let ghost all = answers@;
    let mut rest = answers;
    let mut i: usize = 0;
    proof {
        assert(all.skip(0) =~= all);
    }
    let n = rest.len();
    assert(n == all.len());
    while rest.len() > 0
        invariant
            all == answers@,
            all.len() <= usize::MAX,
            i + rest@.len() == all.len(),
            rest@ == all.skip(i as int),
            first_recorded_of(all) == first_recorded_of(rest@),
        decreases rest@.len(),
    {
        let ghost before = rest@;
        let answer = rest.remove(0);
        proof {
            assert(answer == before[0]);
            assert(rest@ =~= before.drop_first());
            assert(all.skip(i + 1) =~= before.drop_first());
            assert(first_recorded_of(before) == match lookup_outcome(before[0]) {
                Some(r) => r,
                None => first_recorded_of(before.drop_first()),
            });
        }
        let next = after_lookup(answer);
        match next {
            Some(r) => {
                proof {
                    assert(next == lookup_outcome(before[0]));
                    assert(first_recorded_of(before) == r);
                    assert(first_recorded_of(all) == r);
                }
                return r;
            },
            None => {},
        }
        i = i + 1;
    }
    Ok(true)
}

/// Whether no bet on any offer of a market is recorded yet. Asks the database about the
/// offers in order, by their keys (see `market_lookups`), and stops at the first recorded
/// bet or failure. The result is what those answers decide (see `first_recorded`): every
/// answer but the last was "not recorded", and no more were asked than there are offers.
pub fn no_bets_on_market(db: &Connection, bookies: &Vec<Bookie>, market: &Vec<MarkedOffer>) -> (r: Result<bool, DbError>)
    requires
        forall|i: int| 0 <= i < market@.len() ==> #[trigger] market@[i].0 < bookies@.len(),
    ensures
        market@.len() == 0 ==> r == Ok::<bool, DbError>(true),
        r matches Ok(false) ==> market@.len() > 0,
        r is Err ==> market@.len() > 0,
        exists|answers: Seq<Result<bool, DbError>>| {
            &&& answers.len() <= market@.len()
            &&& forall|k: int| 0 <= k < answers.len() - 1 ==> #[trigger] answers[k] == Ok::<bool, DbError>(false)
            &&& r == #[trigger] first_recorded_of(answers)
        },
{
    let keys = market_lookups(bookies, market);
    let mut answers: Vec<Result<bool, DbError>> = Vec::new();
    let mut i: usize = 0;
    while i < keys.len()
        invariant
            i <= keys@.len(),
            keys@.len() == market@.len(),
            answers@.len() == i,
            forall|k: int| 0 <= k < i ==> #[trigger] answers@[k] == Ok::<bool, DbError>(false),
        decreases keys@.len() - i,
    {
        let answer = contains(db, keys[i].0.as_str(), keys[i].1);
        let goes_on = matches!(answer, Ok(false));
        answers.push(answer);
        if !goes_on {
            let ghost seen = answers@;
            let r = first_recorded(answers);
            proof {
                assert(seen.len() > 0);
                assert(r == first_recorded_of(seen));
            }
            return r;
        }
        i = i + 1;
    }
    let ghost seen = answers@;
    let r = first_recorded(answers);
    proof {
        if market@.len() == 0 {
            assert(seen.len() == 0);
        }
        assert(r == first_recorded_of(seen));
    }
    r
}

} // verus!
