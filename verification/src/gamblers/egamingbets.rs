//! eGamingBets: its table of bets on games, polled for changes, and the offers that
//! leave it when their games start.

use vstd::prelude::*;
use std::collections::HashMap;
use crate::markets::{Game, Kind, Offer, OfferView, Outcome, OutcomeView, OID, DRAW};
use crate::gamblers::{Message, MessageView, message_views, live_after, removals_follow_upserts, reports_of};
use crate::parse::{has_substring, contains, odds_value, parse_odds};
use crate::text::str_eq;
use crate::error::SiteError;
use crate::html::{first_attribute, first_attribute_of};
use crate::markets::{outcome_position, lemma_outcome_position};

verus! {

broadcast use vstd::std_specs::hash::group_hash_axioms;

/// A bet of the table: the game, the start (Unix seconds), the odds of the first side,
/// the second side and the draw as the site writes them (the draw's is empty when there
/// is none), the two sides, the id, the winner (positive once decided), whether it is
/// live, and when it was last changed.
#[derive(Debug)]
pub struct Bet {
    pub game: String,
    pub date: u32,
    pub coef_1: String,
    pub coef_2: String,
    pub coef_draw: String,
    pub gamer_1: String,
    pub gamer_2: String,
    pub id: u64,
    pub winner: i32,
    pub live: u8,
    pub ut: u32,
}

/// The game of a name the site uses.
pub open spec fn game_named(name: Seq<char>) -> Option<Game> {
    if name == "Counter-Strike"@ {
        Some(Game::CounterStrike)
    } else if name == "Dota2"@ {
        Some(Game::Dota2)
    } else if name == "Hearthstone"@ {
        Some(Game::Hearthstone)
    } else if name == "HeroesOfTheStorm"@ {
        Some(Game::HeroesOfTheStorm)
    } else if name == "LoL"@ {
        Some(Game::LeagueOfLegends)
    } else if name == "Overwatch"@ {
        Some(Game::Overwatch)
    } else if name == "Smite"@ {
        Some(Game::Smite)
    } else if name == "StarCraft2"@ {
        Some(Game::StarCraft2)
    } else if name == "WorldOfTanks"@ {
        Some(Game::WorldOfTanks)
    } else {
        None
    }
}

/// The game of a name the site uses.
fn game_of(name: &str) -> (r: Option<Game>)
    ensures
        r == game_named(name@),
{
    if str_eq(name, "Counter-Strike") {
        Some(Game::CounterStrike)
    } else if str_eq(name, "Dota2") {
        Some(Game::Dota2)
    } else if str_eq(name, "Hearthstone") {
        Some(Game::Hearthstone)
    } else if str_eq(name, "HeroesOfTheStorm") {
        Some(Game::HeroesOfTheStorm)
    } else if str_eq(name, "LoL") {
        Some(Game::LeagueOfLegends)
    } else if str_eq(name, "Overwatch") {
        Some(Game::Overwatch)
    } else if str_eq(name, "Smite") {
        Some(Game::Smite)
    } else if str_eq(name, "StarCraft2") {
        Some(Game::StarCraft2)
    } else if str_eq(name, "WorldOfTanks") {
        Some(Game::WorldOfTanks)
    } else {
        None
    }
}

/// Whether a bet is of no interest at `now`: decided, live, started, or with a live side.
pub open spec fn irrelevant(bet: Bet, now: u32) -> bool {
    ||| bet.winner > 0
    ||| bet.live == 1
    ||| now >= bet.date
    ||| has_substring(bet.gamer_1@, "(Live)"@)
    ||| has_substring(bet.gamer_2@, "(Live)"@)
}

/// Odds the site writes, in thousandths, when they fit.
pub open spec fn odds_of(text: Seq<char>) -> Option<u32> {
    match odds_value(text) {
        Some(v) => if v <= u32::MAX { Some(v as u32) } else { None },
        None => None,
    }
}

/// The offer of a bet at `now`: `Ok(None)` for an irrelevant bet or an unknown game, an
/// error when odds cannot be read, and the draw an outcome when its odds are positive.
pub open spec fn bet_offer(bet: Bet, now: u32) -> Result<Option<OfferView>, ()> {
    if irrelevant(bet, now) {
        Ok(None)
    } else {
        match game_named(bet.game@) {
            None => Ok(None),
            Some(game) => match (odds_of(bet.coef_1@), odds_of(bet.coef_2@)) {
                (Some(c1), Some(c2)) => {
                    let draw = if bet.coef_draw@.len() == 0 { Some(0u32) } else { odds_of(bet.coef_draw@) };
                    match draw {
                        Some(cd) => Ok(Some(OfferView {
                            oid: bet.id,
                            date: bet.date,
                            game,
                            kind: Kind::Series,
                            outcomes: seq![(bet.gamer_1@, c1), (bet.gamer_2@, c2)] + if cd > 0 {
                                seq![(DRAW@, cd)]
                            } else {
                                Seq::<OutcomeView>::empty()
                            },
                        })),
                        None => Err(()),
                    }
                },
                _ => Err(()),
            },
        }
    }
}

/// Reads the offer of a bet at `now` (see `bet_offer`).
pub fn extract_offer(bet: &Bet, now: u32) -> (r: Result<Option<Offer>, SiteError>)
    ensures
        match bet_offer(*bet, now) {
            Ok(Some(v)) => r matches Ok(Some(o)) && o@ == v,
            Ok(None) => r matches Ok(None),
            Err(_) => r is Err,
        },
{
    if bet.winner > 0 || bet.live == 1 || now >= bet.date || contains(bet.gamer_1.as_str(), "(Live)")
        || contains(bet.gamer_2.as_str(), "(Live)") {
        return Ok(None);
    }
    let game = match game_of(bet.game.as_str()) {
        Some(game) => game,
        None => {
            return Ok(None);
        },
    };
    let coef_1 = match parse_odds(bet.coef_1.as_str()) {
        Some(c) => c,
        None => {
            return Err(SiteError::Unexpected("invalid odds".to_string()));
        },
    };
    let coef_2 = match parse_odds(bet.coef_2.as_str()) {
        Some(c) => c,
        None => {
            return Err(SiteError::Unexpected("invalid odds".to_string()));
        },
    };
    proof {
        reveal_strlit("");
    }
    let coef_draw = if str_eq(bet.coef_draw.as_str(), "") {
        0
    } else {
        assert(bet.coef_draw@.len() != 0) by {
            if bet.coef_draw@.len() == 0 {
                assert(bet.coef_draw@ =~= ""@);
            }
        }
        match parse_odds(bet.coef_draw.as_str()) {
            Some(c) => c,
            None => {
                return Err(SiteError::Unexpected("invalid odds".to_string()));
            },
        }
    };
    let mut outcomes: Vec<Outcome> = Vec::new();
    outcomes.push(Outcome(bet.gamer_1.clone(), coef_1));
    outcomes.push(Outcome(bet.gamer_2.clone(), coef_2));
    if coef_draw > 0 {
        outcomes.push(Outcome(DRAW.to_string(), coef_draw));
    }
    let offer = Offer { oid: bet.id, date: bet.date, game, kind: Kind::Series, outcomes };
    proof {
        let v = bet_offer(*bet, now)->Ok_0->0;
        assert(offer@.outcomes =~= v.outcomes);
    }
    Ok(Some(offer))
}

/// A mark of when an offer is due to start: its date and id.
pub type Marker = (u32, u64);

/// Whether marker `a` is due no later than `b`: earlier dates first, and among equal
/// dates the higher ids first.
pub open spec fn due_before(a: Marker, b: Marker) -> bool {
    a.0 < b.0 || (a.0 == b.0 && a.1 >= b.1)
}

/// Whether markers are in the order they fall due.
pub open spec fn in_due_order(ms: Seq<Marker>) -> bool {
    forall|i: int, j: int| 0 <= i < j < ms.len() ==> due_before(#[trigger] ms[i], #[trigger] ms[j])
}

/// Where a marker goes among markers in due order: after all that are strictly due
/// before it.
pub open spec fn marker_slot(ms: Seq<Marker>, m: Marker) -> int
    decreases ms.len(),
{
    if ms.len() == 0 || !(due_before(ms[0], m) && ms[0] != m) {
        0
    } else {
        1 + marker_slot(ms.drop_first(), m)
    }
}

/// What the watcher of the site keeps: the offers by id, the markers of when they are
/// due (in due order), and the times of the last look.
pub struct EgbState {
    offers: HashMap<u64, Offer>,
    markers: Vec<Marker>,
    user_time: u32,
    update_time: u32,
}

/// The state in plain values.
pub struct EgbView {
    pub offers: Map<u64, OfferView>,
    pub markers: Seq<Marker>,
    pub user_time: u32,
    pub update_time: u32,
}

/// What taking in a bet does, with whether its marker is always pushed (the first look
/// at the table): the last change time goes up to the bet's; a relevant bet of a known
/// game is stored and reported, and a marker with its date is placed when the offer is
/// new or its date changed; an unreadable bet stops the look.
pub open spec fn take_bet(s: EgbView, bet: Bet, now: u32, first: bool) -> (EgbView, Option<MessageView>, bool) {
    let ut = if bet.ut > s.update_time { bet.ut } else { s.update_time };
    match bet_offer(bet, now) {
        Err(_) => (EgbView { update_time: ut, ..s }, None, false),
        Ok(None) => (EgbView { update_time: ut, ..s }, None, true),
        Ok(Some(o)) => {
            let mark = first || !s.offers.contains_key(bet.id) || s.offers[bet.id].date != o.date;
            let m = (o.date, bet.id);
            (
                EgbView {
                    offers: s.offers.insert(bet.id, o),
                    markers: if mark { s.markers.insert(marker_slot(s.markers, m), m) } else { s.markers },
                    user_time: s.user_time,
                    update_time: ut,
                },
                Some(MessageView::Upsert(o)),
                true,
            )
        },
    }
}

/// What taking in some bets does: each in turn, until one cannot be read.
pub open spec fn take_bets(s: EgbView, bets: Seq<Bet>, now: u32, first: bool) -> (EgbView, Seq<MessageView>, bool)
    decreases bets.len(),
{
    if bets.len() == 0 {
        (s, Seq::empty(), true)
    } else {
        let (s1, ms, ok) = take_bets(s, bets.drop_last(), now, first);
        if !ok {
            (s1, ms, false)
        } else {
            let (s2, m, ok2) = take_bet(s1, bets.last(), now, first);
            (s2, match m {
                Some(msg) => ms.push(msg),
                None => ms,
            }, ok2)
        }
    }
}

/// What expiring does with the markers due by `threshold`, in due order: the first one
/// leaves, and its offer too (reported gone) when the offer still has the marker's date.
pub open spec fn expire(offers: Map<u64, OfferView>, markers: Seq<Marker>, threshold: u32) -> (Map<u64, OfferView>, Seq<Marker>, Seq<MessageView>)
    decreases markers.len(),
{
    if markers.len() == 0 || markers[0].0 > threshold {
        (offers, markers, Seq::empty())
    } else {
        let (date, id) = markers[0];
        let gone = offers.contains_key(id) && offers[id].date == date;
        let rest = expire(if gone { offers.remove(id) } else { offers }, markers.drop_first(), threshold);
        (rest.0, rest.1, if gone { seq![MessageView::Remove(offers[id].oid)] + rest.2 } else { rest.2 })
    }
}

proof fn lemma_marker_slot(ms: Seq<Marker>, m: Marker)
    requires
        in_due_order(ms),
    ensures
        0 <= marker_slot(ms, m) <= ms.len(),
        in_due_order(ms.insert(marker_slot(ms, m), m)),
    decreases ms.len(),
{
    let p = marker_slot(ms, m);
    if ms.len() > 0 && due_before(ms[0], m) && ms[0] != m {
        let t = ms.drop_first();
        assert(in_due_order(t)) by {
            assert forall|i: int, j: int| 0 <= i < j < t.len() implies due_before(#[trigger] t[i], #[trigger] t[j]) by {
                assert(t[i] == ms[i + 1] && t[j] == ms[j + 1]);
            }
        }
        lemma_marker_slot(t, m);
        let r = ms.insert(p, m);
        assert(r == seq![ms[0]] + t.insert(p - 1, m));
        assert forall|i: int, j: int| 0 <= i < j < r.len() implies due_before(#[trigger] r[i], #[trigger] r[j]) by {
            if i == 0 {
                if j < p {
                    assert(r[j] == ms[j]);
                } else if j == p {
                    assert(r[j] == m);
                } else {
                    assert(r[j] == ms[j - 1]);
                }
            } else {
                assert(r[i] == t.insert(p - 1, m)[i - 1]);
                assert(r[j] == t.insert(p - 1, m)[j - 1]);
            }
        }
    } else {
        let r = ms.insert(0, m);
        assert forall|i: int, j: int| 0 <= i < j < r.len() implies due_before(#[trigger] r[i], #[trigger] r[j]) by {
            if i == 0 {
                assert(r[j] == ms[j - 1]);
                if ms.len() > 0 {
                    assert(due_before(ms[0], ms[j - 1]) || j - 1 == 0);
                }
            } else {
                assert(r[i] == ms[i - 1]);
                assert(r[j] == ms[j - 1]);
            }
        }
    }
}


/// Once a bet cannot be read, the bets after it change nothing.
proof fn lemma_take_bets_stop(s: EgbView, bets: Seq<Bet>, now: u32, first: bool, n: int)
    requires
        0 <= n <= bets.len(),
        !take_bets(s, bets.take(n), now, first).2,
    ensures
        take_bets(s, bets, now, first) == take_bets(s, bets.take(n), now, first),
    decreases bets.len() - n,
{
    if n < bets.len() {
        let t = bets.take(n + 1);
        assert(t.drop_last() =~= bets.take(n));
        lemma_take_bets_stop(s, bets, now, first, n + 1);
    } else {
        assert(bets.take(n) =~= bets);
    }
}

/// Whether the stored offers fit the reports so far: every report of an offer gone
/// followed a report of it, and each stored offer is kept under its id and reported.
pub open spec fn egb_tracks(offers: Map<u64, OfferView>, ms: Seq<MessageView>) -> bool {
    &&& removals_follow_upserts(ms)
    &&& forall|k: u64| #[trigger] offers.contains_key(k) ==> offers[k].oid == k && live_after(ms).contains(k)
}

/// The watcher starts with no offer stored and nothing reported.
pub proof fn egb_tracking_starts()
    ensures
        egb_tracks(Map::empty(), Seq::empty()),
{
}

/// Taking in the bets of a look (see `EgbState::take_bets`) keeps the stored offers
/// fitting the reports.
pub proof fn egb_bets_keep_tracking(s: EgbView, ms: Seq<MessageView>, bets: Seq<Bet>, now: u32, first: bool)
    requires
        egb_tracks(s.offers, ms),
    ensures
        egb_tracks(take_bets(s, bets, now, first).0.offers, ms + take_bets(s, bets, now, first).1),
    decreases bets.len(),
{
    if bets.len() == 0 {
        assert(ms + take_bets(s, bets, now, first).1 =~= ms);
    } else {
        let p = bets.drop_last();
        egb_bets_keep_tracking(s, ms, p, now, first);
        let (s1, ns, ok) = take_bets(s, p, now, first);
        if ok {
            let bet = bets.last();
            match bet_offer(bet, now) {
                Ok(Some(o)) => {
                    assert(o.oid == bet.id);
                    let before = ms + ns;
                    let after = before.push(MessageView::Upsert(o));
                    assert(ms + ns.push(MessageView::Upsert(o)) =~= after);
                    assert(after.drop_last() =~= before);
                },
                _ => {},
            }
        }
    }
}

/// Taking out the offers due by a time (see `EgbState::expire`) reports gone only offers
/// that were reported and not yet gone, and keeps the stored offers fitting the reports.
pub proof fn egb_expire_keeps_tracking(offers: Map<u64, OfferView>, markers: Seq<Marker>, threshold: u32, ms: Seq<MessageView>)
    requires
        egb_tracks(offers, ms),
    ensures
        egb_tracks(expire(offers, markers, threshold).0, ms + expire(offers, markers, threshold).2),
    decreases markers.len(),
{
    if markers.len() == 0 || markers[0].0 > threshold {
        assert(ms + expire(offers, markers, threshold).2 =~= ms);
    } else {
        let (date, id) = markers[0];
        let gone = offers.contains_key(id) && offers[id].date == date;
        if gone {
            let after = ms.push(MessageView::Remove(offers[id].oid));
            assert(after.drop_last() =~= ms);
            let rest = offers.remove(id);
            assert forall|j: u64| #[trigger] rest.contains_key(j) implies rest[j].oid == j
                && live_after(after).contains(j) by {
                assert(offers.contains_key(j));
            }
            egb_expire_keeps_tracking(rest, markers.drop_first(), threshold, after);
            assert(ms + expire(offers, markers, threshold).2
                =~= after + expire(rest, markers.drop_first(), threshold).2);
        } else {
            egb_expire_keeps_tracking(offers, markers.drop_first(), threshold, ms);
        }
    }
}

/// Whether one step of the watcher takes its state from `s` to `s2` with the reports
/// `batch`: taking in the bets of a look (`EgbState::take_bets`), taking out the offers
/// due by a time (`expire`), or recording the user time (`set_user_time`).
pub open spec fn egb_step(s: EgbView, s2: EgbView, batch: Seq<MessageView>) -> bool {
    ||| exists|bets: Seq<Bet>, now: u32, first: bool| #[trigger] take_bets(s, bets, now, first).0 == s2
            && take_bets(s, bets, now, first).1 == batch
    ||| exists|threshold: u32| #[trigger] expire(s.offers, s.markers, threshold) == (s2.offers, s2.markers, batch)
    ||| s2.offers == s.offers && batch == Seq::<MessageView>::empty()
}

/// Whether `ss` are the states through a run of the watcher from the start (no offer
/// stored), and `batches` the reports of each step.
pub open spec fn egb_run(ss: Seq<EgbView>, batches: Seq<Seq<MessageView>>) -> bool {
    &&& ss.len() == batches.len() + 1
    &&& ss[0].offers == Map::<u64, OfferView>::empty()
    &&& forall|i: int| 0 <= i < batches.len() ==> #[trigger] egb_step(ss[i], ss[i + 1], batches[i])
}

/// Over any run of the watcher, every report of an offer gone follows a report of that
/// offer, with no report of it gone in between.
pub proof fn egb_run_removals_follow_upserts(ss: Seq<EgbView>, batches: Seq<Seq<MessageView>>)
    requires
        egb_run(ss, batches),
    ensures
        removals_follow_upserts(reports_of(batches)),
{
    lemma_egb_run_tracks(ss, batches, batches.len() as int);
    assert(batches.take(batches.len() as int) =~= batches);
}

proof fn lemma_egb_run_tracks(ss: Seq<EgbView>, batches: Seq<Seq<MessageView>>, k: int)
    requires
        egb_run(ss, batches),
        0 <= k <= batches.len(),
    ensures
        egb_tracks(ss[k].offers, reports_of(batches.take(k))),
    decreases k,
{
    if k == 0 {
        assert(batches.take(0) =~= Seq::<Seq<MessageView>>::empty());
        egb_tracking_starts();
    } else {
        lemma_egb_run_tracks(ss, batches, k - 1);
        let i = k - 1;
        assert(egb_step(ss[i], ss[i + 1], batches[i]));
        let s = ss[i];
        let s2 = ss[k];
        let ms = reports_of(batches.take(i));
        let batch = batches[i];
        assert(batches.take(k).drop_last() =~= batches.take(i));
        assert(reports_of(batches.take(k)) == ms + batch);
        if exists|bets: Seq<Bet>, now: u32, first: bool| #[trigger] take_bets(s, bets, now, first).0 == s2
            && take_bets(s, bets, now, first).1 == batch {
            let (bets, now, first) = choose|bets: Seq<Bet>, now: u32, first: bool| #[trigger] take_bets(s, bets, now, first).0 == s2
                && take_bets(s, bets, now, first).1 == batch;
            egb_bets_keep_tracking(s, ms, bets, now, first);
        } else if exists|threshold: u32| #[trigger] expire(s.offers, s.markers, threshold) == (s2.offers, s2.markers, batch) {
            let threshold = choose|threshold: u32| #[trigger] expire(s.offers, s.markers, threshold) == (s2.offers, s2.markers, batch);
            egb_expire_keeps_tracking(s.offers, s.markers, threshold, ms);
        } else {
            assert(ms + batch =~= ms);
        }
    }
}

/// The views of stored offers.
pub open spec fn stored_views(m: Map<u64, Offer>) -> Map<u64, OfferView> {
    Map::new(|k: u64| m.contains_key(k), |k: u64| m[k]@)
}

impl View for EgbState {
    type V = EgbView;

    closed spec fn view(&self) -> EgbView {
        EgbView {
            offers: stored_views(self.offers@),
            markers: self.markers@,
            user_time: self.user_time,
            update_time: self.update_time,
        }
    }
}

/// Places a marker among markers in due order.
fn insert_marker(ms: &mut Vec<Marker>, m: Marker)
    requires
        in_due_order(old(ms)@),
    ensures
        final(ms)@ == old(ms)@.insert(marker_slot(old(ms)@, m), m),
        in_due_order(final(ms)@),
{
    let ghost start = ms@;
    proof {
        lemma_marker_slot(start, m);
        assert(start.skip(0) =~= start);
    }
    let mut i: usize = 0;
    while i < ms.len() && ms[i].0 <= m.0 && (ms[i].0 < m.0 || ms[i].1 >= m.1) && !(ms[i].0 == m.0 && ms[i].1 == m.1)
        invariant
            ms@ == start,
            i <= ms@.len(),
            marker_slot(start, m) == i + marker_slot(start.skip(i as int), m),
        decreases ms@.len() - i,
    {
        proof {
            assert(start.skip(i as int).drop_first() =~= start.skip(i + 1));
            assert(start.skip(i as int)[0] == start[i as int]);
        }
        i = i + 1;
    }
    proof {
        if i < ms@.len() {
            assert(start.skip(i as int)[0] == start[i as int]);
        }
    }
    ms.insert(i, m);
}

impl EgbState {
    /// The markers are in due order.
    pub closed spec fn well_formed(&self) -> bool {
        in_due_order(self.markers@)
    }

    /// Nothing seen yet.
    pub fn new() -> (s: EgbState)
        ensures
            s.well_formed(),
            s@.offers == Map::<u64, OfferView>::empty(),
            s@.markers == Seq::<Marker>::empty(),
            s@.update_time == 0,
            s@.user_time == 0,
    {
        let s = EgbState { offers: HashMap::new(), markers: Vec::new(), user_time: 0, update_time: 0 };
        proof {
            assert(s@.offers =~= Map::<u64, OfferView>::empty());
        }
        s
    }

    /// Takes in the bets of a look at the table (see `take_bets`). Returns the changes to
    /// report and the error that stopped the look, if one did.
    pub fn take_bets(&mut self, bets: &Vec<Bet>, now: u32, first: bool) -> (r: (Vec<Message>, Option<SiteError>))
        requires
            old(self).well_formed(),
        ensures
            final(self).well_formed(),
            take_bets(old(self)@, bets@, now, first) == (final(self)@, message_views(r.0@), r.1 is None),
    {
        let ghost s0 = self@;
        let mut messages: Vec<Message> = Vec::new();
        let mut i: usize = 0;
        proof {
            assert(bets@.take(0) =~= Seq::<Bet>::empty());
        }
        while i < bets.len()
            invariant
                i <= bets@.len(),
                self.well_formed(),
                s0 == old(self)@,
                take_bets(s0, bets@.take(i as int), now, first) == (self@, message_views(messages@), true),
            decreases bets@.len() - i,
        {
            let bet = &bets[i];
            let ghost before = self@;
            let ghost msgs = message_views(messages@);
            proof {
                let t = bets@.take(i + 1);
                assert(t.drop_last() =~= bets@.take(i as int));
                assert(t.last() == *bet);
            }
            if bet.ut > self.update_time {
                self.update_time = bet.ut;
            }
            match extract_offer(bet, now) {
                Err(e) => {
                    proof {
                        assert(self@ == take_bet(before, *bet, now, first).0);
                        lemma_take_bets_stop(s0, bets@, now, first, i + 1);
                    }
                    return (messages, Some(e));
                },
                Ok(None) => {
                    proof {
                        assert(self@ == take_bet(before, *bet, now, first).0);
                    }
                },
                Ok(Some(offer)) => {
                    let id = bet.id;
                    let mark = match self.offers.get(&id) {
                        Some(stored) => first || stored.date != offer.date,
                        None => true,
                    };
                    let date = offer.date;
                    if mark {
                        insert_marker(&mut self.markers, (date, id));
                    }
                    let ghost ov = offer@;
                    let copy = offer.duplicate();
                    self.offers.insert(id, copy);
                    messages.push(Message::Upsert(offer));
                    proof {
                        assert(self@.offers =~= before.offers.insert(id, ov));
                        assert(message_views(messages@) =~= msgs.push(MessageView::Upsert(ov)));
                        assert(self@ == take_bet(before, *bet, now, first).0);
                    }
                },
            }
            i = i + 1;
        }
        proof {
            assert(bets@.take(bets@.len() as int) =~= bets@);
        }
        (messages, None)
    }

    /// The user time the site gave at the last look.
    pub fn user_time(&self) -> (t: u32)
        ensures
            t == self@.user_time,
    {
        self.user_time
    }

    /// The latest change time among the bets seen.
    pub fn update_time(&self) -> (t: u32)
        ensures
            t == self@.update_time,
    {
        self.update_time
    }

    /// Records the user time the site gave.
    pub fn set_user_time(&mut self, t: u32)
        requires
            old(self).well_formed(),
        ensures
            final(self).well_formed(),
            final(self)@ == (EgbView { user_time: t, ..old(self)@ }),
    {
        self.user_time = t;
    }

    /// Takes out the offers due by `threshold` (see `expire`), and reports them gone.
    pub fn expire(&mut self, threshold: u32) -> (messages: Vec<Message>)
        requires
            old(self).well_formed(),
        ensures
            final(self).well_formed(),
            final(self)@.user_time == old(self)@.user_time,
            final(self)@.update_time == old(self)@.update_time,
            expire(old(self)@.offers, old(self)@.markers, threshold) == (final(self)@.offers, final(self)@.markers, message_views(messages@)),
    {
        let ghost goal = expire(self@.offers, self@.markers, threshold);
        let mut messages: Vec<Message> = Vec::new();
        while self.markers.len() > 0 && self.markers[0].0 <= threshold
            invariant
                self.well_formed(),
                self@.user_time == old(self)@.user_time,
                self@.update_time == old(self)@.update_time,
                ({
                    let rest = expire(self@.offers, self@.markers, threshold);
                    &&& goal.0 == rest.0
                    &&& goal.1 == rest.1
                    &&& goal.2 == message_views(messages@) + rest.2
                }),
            decreases self.markers@.len(),
        {
            let ghost before = self@;
            let ghost msgs = message_views(messages@);
            let (date, id) = self.markers.remove(0);
            proof {
                assert(self.markers@ =~= before.markers.drop_first());
                assert(in_due_order(self.markers@)) by {
                    assert forall|i: int, j: int| 0 <= i < j < self.markers@.len() implies
                        due_before(#[trigger] self.markers@[i], #[trigger] self.markers@[j]) by {
                        assert(self.markers@[i] == before.markers[i + 1]);
                        assert(self.markers@[j] == before.markers[j + 1]);
                    }
                }
            }
            let gone = match self.offers.get(&id) {
                Some(stored) => stored.date == date,
                None => false,
            };
            if gone {
                let oid = match self.offers.remove(&id) {
                    Some(o) => o.oid,
                    None => id,
                };
                messages.push(Message::Remove(oid));
                proof {
                    assert(self@.offers =~= before.offers.remove(id));
                    assert(message_views(messages@) =~= msgs.push(MessageView::Remove(before.offers[id].oid)));
                    assert(msgs.push(MessageView::Remove(before.offers[id].oid)) + expire(self@.offers, self@.markers, threshold).2
                        =~= msgs + (seq![MessageView::Remove(before.offers[id].oid)] + expire(self@.offers, self@.markers, threshold).2));
                }
            } else {
                proof {
                    assert(self@.offers =~= before.offers);
                }
            }
        }
        proof {
            assert(message_views(messages@) + Seq::<MessageView>::empty() =~= message_views(messages@));
        }
        messages
    }
}


/// The side a bet is on: the position of its outcome in the offer, counting from 1.
pub fn bet_side(offer: &Offer, outcome: &Outcome) -> (r: usize)
    requires
        offer@.outcomes.contains(outcome@),
    ensures
        r == 1 + outcome_position(offer@.outcomes, outcome@),
{
    let ghost os = offer@.outcomes;
    proof {
        lemma_outcome_position(os, outcome@);
    }
    let mut i: usize = 0;
    while i < offer.outcomes.len() && !offer.outcomes[i].same_as(outcome)
        invariant
            os == offer@.outcomes,
            i <= offer.outcomes@.len(),
            forall|k: int| 0 <= k < i ==> #[trigger] os[k] != outcome@,
        decreases offer.outcomes@.len() - i,
    {
        proof {
            assert(os[i as int] == offer.outcomes@[i as int]@);
        }
        i = i + 1;
    }
    proof {
        let p = outcome_position(os, outcome@);
        let w = choose|k: int| 0 <= k < os.len() && os[k] == outcome@;
        if i < offer.outcomes@.len() {
            assert(os[i as int] == offer.outcomes@[i as int]@);
        }
        if p < i {
            assert(os[p] == outcome@);
        }
        if i < p {
            assert(os[i as int] != outcome@);
        }
    }
    i + 1
}

/// The position of the first bet with id `id`, or the number of bets.
pub open spec fn bet_position(bets: Seq<Bet>, id: u64) -> int
    decreases bets.len(),
{
    if bets.len() == 0 || bets[0].id == id {
        0
    } else {
        1 + bet_position(bets.drop_first(), id)
    }
}

/// Whether an offer about to be bet on is still on the table, as the bets of a look at
/// it at `now` tell: an offer whose bet is not in the look is taken to be unchanged;
/// one whose bet became irrelevant is not; otherwise the bet must give the same offer.
pub open spec fn offer_still_there(bets: Option<Seq<Bet>>, offer: OfferView, now: u32) -> Result<bool, ()> {
    match bets {
        None => Ok(true),
        Some(bs) => {
            let k = bet_position(bs, offer.oid);
            if k >= bs.len() {
                Ok(true)
            } else {
                match bet_offer(bs[k], now) {
                    Err(_) => Err(()),
                    Ok(None) => Ok(false),
                    Ok(Some(v)) => Ok(v == offer),
                }
            }
        },
    }
}

/// Checks an offer about to be bet on against a look at the table (see
/// `offer_still_there`).
pub fn check_offer(bets: Option<&Vec<Bet>>, offer: &Offer, now: u32) -> (r: Result<bool, SiteError>)
    ensures
        match offer_still_there(match bets { Some(bs) => Some(bs@), None => None }, offer@, now) {
            Ok(b) => r == Ok::<bool, SiteError>(b),
            Err(_) => r is Err,
        },
{
    let bs = match bets {
        None => {
            return Ok(true);
        },
        Some(bs) => bs,
    };
    let mut i: usize = 0;
    proof {
        assert(bs@.skip(0) =~= bs@);
    }
    while i < bs.len() && bs[i].id != offer.oid
        invariant
            i <= bs@.len(),
            bet_position(bs@, offer.oid) == i + bet_position(bs@.skip(i as int), offer.oid),
        decreases bs@.len() - i,
    {
        proof {
            assert(bs@.skip(i as int).drop_first() =~= bs@.skip(i + 1));
            assert(bs@.skip(i as int)[0] == bs@[i as int]);
        }
        i = i + 1;
    }
    if i == bs.len() {
        return Ok(true);
    }
    proof {
        assert(bs@.skip(i as int)[0] == bs@[i as int]);
    }
    match extract_offer(&bs[i], now) {
        Err(e) => Err(e),
        Ok(None) => Ok(false),
        Ok(Some(actual)) => Ok(actual.same_as(offer)),
    }
}

/// The page's CSRF token tag.
pub const CSRF_SELECTOR: &'static str = "meta[name=\"csrf-token\"]";

/// The CSRF token of a page: the `content` of its first CSRF token tag; an error when
/// there is none.
pub fn extract_csrf(page: &str) -> (r: Result<String, SiteError>)
    ensures
        match first_attribute_of(page@, CSRF_SELECTOR@, "content"@) {
            Some(t) => r matches Ok(v) && v@ == t,
            None => r is Err,
        },
{
    proof {
        reveal_strlit("content");
    }
    match first_attribute(page, CSRF_SELECTOR, "content") {
        Some(t) => Ok(t),
        None => Err(SiteError::Unexpected("No CSRF token".to_string())),
    }
}

} // verus!
