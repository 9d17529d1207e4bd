//! BetClub: its events by sport, each with a main market of rates, and the baskets its
//! bets are placed with.

use vstd::prelude::*;
use std::collections::HashMap;
use crate::markets::{Game, Kind, Offer, OfferView, Outcome, OutcomeView, OID, DRAW};
use crate::gamblers::{Message, MessageView, message_views};
use crate::gamblers::xsporta::{offer_ids, first_occurrences, dropped_ids};
use crate::parse::{unsigned_value, parse_unsigned, has_substring, contains, strip_around, strip_prefixes, strip_suffixes};
use crate::text::{str_eq, chars_of, string_from_chars};
use crate::error::SiteError;

verus! {

broadcast use vstd::std_specs::hash::group_hash_axioms;

/// What a bet on a rate is placed with: the event and bet ids, the odds (thousandths),
/// whether it is live, the two extra parameters and the handicap as written.
#[derive(Debug)]
pub struct Basket {
    pub e_id: u32,
    pub b_id: u32,
    pub r: u32,
    pub is_live: bool,
    pub a1: Option<u32>,
    pub a2: Option<u32>,
    pub fs: Option<String>,
}

/// A rate of a market: its short name and its basket.
#[derive(Debug)]
pub struct Rate {
    pub name_short: String,
    pub add_to_basket: Basket,
}

/// A market of an event: its id, whether it is enabled and the main one, its rates and
/// its caption.
#[derive(Debug)]
pub struct Market {
    pub id: String,
    pub is_enabled: bool,
    pub is_main: bool,
    pub rates: Vec<Rate>,
    pub caption: String,
}

/// An event: its id, date as written (`/Date(milliseconds)/`), teams, sport id, sport
/// and country names, and markets.
#[derive(Debug)]
pub struct Event {
    pub id: u32,
    pub date: String,
    pub teams_group: Vec<String>,
    pub s_id: u32,
    pub sport_name: String,
    pub country_name: String,
    pub markets: Vec<Market>,
}

/// The game of a sport name (other than electronic sports).
pub open spec fn sport_game(name: Seq<char>) -> Option<Game> {
    if name == "Basketball"@ {
        Some(Game::Basketball)
    } else if name == "Baseball"@ {
        Some(Game::Baseball)
    } else if name == "Tennis 3 set."@ {
        Some(Game::Tennis)
    } else if name == "Tennis 5-set."@ {
        Some(Game::Tennis)
    } else if name == "Soccer"@ {
        Some(Game::Football)
    } else if name == "Hockey"@ {
        Some(Game::IceHockey)
    } else if name == "Volleyball"@ {
        Some(Game::Volleyball)
    } else if name == "American football"@ {
        Some(Game::AmericanFootball)
    } else if name == "Handball"@ {
        Some(Game::Handball)
    } else if name == "Field hockey"@ {
        Some(Game::FieldHockey)
    } else if name == "Water polo"@ {
        Some(Game::WaterPolo)
    } else if name == "Badminton"@ {
        Some(Game::Badminton)
    } else if name == "Futsal"@ {
        Some(Game::Futsal)
    } else if name == "Snooker"@ {
        Some(Game::Snooker)
    } else {
        None
    }
}

/// The game of an electronic sports country name.
pub open spec fn esport_game(name: Seq<char>) -> Option<Game> {
    if name == "Dota II"@ {
        Some(Game::Dota2)
    } else if name == "StarCraft II"@ {
        Some(Game::StarCraft2)
    } else if name == "Counter-Strike"@ {
        Some(Game::CounterStrike)
    } else if name == "Heroes Of The Storm"@ {
        Some(Game::HeroesOfTheStorm)
    } else if name == "Hearthstone"@ {
        Some(Game::Hearthstone)
    } else if name == "League of Legends"@ {
        Some(Game::LeagueOfLegends)
    } else if name == "Overwatch"@ {
        Some(Game::Overwatch)
    } else if name == "World of Tanks"@ {
        Some(Game::WorldOfTanks)
    } else {
        None
    }
}

/// The game of a sport name.
fn sport_game_of(name: &str) -> (r: Option<Game>)
    ensures
        r == sport_game(name@),
{
    if str_eq(name, "Basketball") {
        Some(Game::Basketball)
    } else if str_eq(name, "Baseball") {
        Some(Game::Baseball)
    } else if str_eq(name, "Tennis 3 set.") {
        Some(Game::Tennis)
    } else if str_eq(name, "Tennis 5-set.") {
        Some(Game::Tennis)
    } else if str_eq(name, "Soccer") {
        Some(Game::Football)
    } else if str_eq(name, "Hockey") {
        Some(Game::IceHockey)
    } else if str_eq(name, "Volleyball") {
        Some(Game::Volleyball)
    } else if str_eq(name, "American football") {
        Some(Game::AmericanFootball)
    } else if str_eq(name, "Handball") {
        Some(Game::Handball)
    } else if str_eq(name, "Field hockey") {
        Some(Game::FieldHockey)
    } else if str_eq(name, "Water polo") {
        Some(Game::WaterPolo)
    } else if str_eq(name, "Badminton") {
        Some(Game::Badminton)
    } else if str_eq(name, "Futsal") {
        Some(Game::Futsal)
    } else if str_eq(name, "Snooker") {
        Some(Game::Snooker)
    } else {
        None
    }
}

/// The game of an electronic sports country name.
fn esport_game_of(name: &str) -> (r: Option<Game>)
    ensures
        r == esport_game(name@),
{
    if str_eq(name, "Dota II") {
        Some(Game::Dota2)
    } else if str_eq(name, "StarCraft II") {
        Some(Game::StarCraft2)
    } else if str_eq(name, "Counter-Strike") {
        Some(Game::CounterStrike)
    } else if str_eq(name, "Heroes Of The Storm") {
        Some(Game::HeroesOfTheStorm)
    } else if str_eq(name, "Hearthstone") {
        Some(Game::Hearthstone)
    } else if str_eq(name, "League of Legends") {
        Some(Game::LeagueOfLegends)
    } else if str_eq(name, "Overwatch") {
        Some(Game::Overwatch)
    } else if str_eq(name, "World of Tanks") {
        Some(Game::WorldOfTanks)
    } else {
        None
    }
}

/// The game of an event: by its sport, and for electronic sports by its country.
pub open spec fn event_game(e: Event) -> Option<Game> {
    if e.sport_name@ == "Electronic Sports"@ {
        esport_game(e.country_name@)
    } else {
        sport_game(e.sport_name@)
    }
}

/// The game of an event (see `event_game`).
pub fn get_game(event: &Event) -> (r: Option<Game>)
    ensures
        r == event_game(*event),
{
    if str_eq(event.sport_name.as_str(), "Electronic Sports") {
        esport_game_of(event.country_name.as_str())
    } else {
        sport_game_of(event.sport_name.as_str())
    }
}

/// The position of the first main market, or the number of markets.
pub open spec fn main_position(ms: Seq<Market>) -> int
    decreases ms.len(),
{
    if ms.len() == 0 || ms[0].is_main {
        0
    } else {
        1 + main_position(ms.drop_first())
    }
}

/// The market an event is offered by: its first main market, when it is enabled, is the
/// result market, and the event has two teams.
pub open spec fn event_market(e: Event) -> Option<int> {
    let k = main_position(e.markets@);
    if k >= e.markets@.len() {
        None
    } else {
        let m = e.markets@[k];
        if !m.is_enabled || m.caption@ != "Result"@ || e.teams_group@.len() < 2 {
            None
        } else {
            Some(k)
        }
    }
}

/// The market an event is offered by (see `event_market`), by its position.
pub fn get_market(event: &Event) -> (r: Option<usize>)
    ensures
        match r {
            Some(k) => event_market(*event) == Some(k as int) && k < event.markets@.len(),
            None => event_market(*event) is None,
        },
{
    let mut i: usize = 0;
    proof {
        assert(event.markets@.skip(0) =~= event.markets@);
    }
    while i < event.markets.len() && !event.markets[i].is_main
        invariant
            i <= event.markets@.len(),
            main_position(event.markets@) == i + main_position(event.markets@.skip(i as int)),
        decreases event.markets@.len() - i,
    {
        proof {
            assert(event.markets@.skip(i as int).drop_first() =~= event.markets@.skip(i + 1));
            assert(event.markets@.skip(i as int)[0] == event.markets@[i as int]);
        }
        i = i + 1;
    }
    if i == event.markets.len() {
        return None;
    }
    proof {
        assert(event.markets@.skip(i as int)[0] == event.markets@[i as int]);
    }
    let m = &event.markets[i];
    if !m.is_enabled || !str_eq(m.caption.as_str(), "Result") || event.teams_group.len() < 2 {
        return None;
    }
    Some(i)
}

/// The outcomes of an event by a market of at least two rates: the first team at the
/// first rate, the second team at the third rate when there are more than two (else at
/// the second), and the draw at the second rate when there are more than two and its
/// odds exceed 1.
pub open spec fn market_outcomes(e: Event, m: Market) -> Seq<OutcomeView> {
    let rs = m.rates@;
    let x2 = if rs.len() > 2 { 2int } else { 1int };
    seq![(e.teams_group@[0]@, rs[0].add_to_basket.r), (e.teams_group@[1]@, rs[x2].add_to_basket.r)]
        + if x2 == 2 && rs[1].add_to_basket.r > 1000 {
        seq![(DRAW@, rs[1].add_to_basket.r)]
    } else {
        Seq::<OutcomeView>::empty()
    }
}

/// The outcomes of an event by a market (see `market_outcomes`).
pub fn get_outcomes(event: &Event, market: &Market) -> (r: Vec<Outcome>)
    requires
        market.rates@.len() >= 2,
        event.teams_group@.len() >= 2,
    ensures
        r@.map_values(|o: Outcome| o@) == market_outcomes(*event, *market),
{
    let x2: usize = if market.rates.len() > 2 { 2 } else { 1 };
    let mut outcomes: Vec<Outcome> = Vec::new();
    outcomes.push(Outcome(event.teams_group[0].clone(), market.rates[0].add_to_basket.r));
    outcomes.push(Outcome(event.teams_group[1].clone(), market.rates[x2].add_to_basket.r));
    if x2 == 2 {
        let draw = market.rates[1].add_to_basket.r;
        if draw > 1000 {
            outcomes.push(Outcome(DRAW.to_string(), draw));
        }
    }
    proof {
        assert(outcomes@.map_values(|o: Outcome| o@) =~= market_outcomes(*event, *market));
    }
    outcomes
}


/// The start of an event (Unix seconds, cut to 32 bits) from its date written as
/// `/Date(milliseconds)/`; none when the number does not read.
pub open spec fn event_date(date: Seq<char>) -> Option<u32> {
    match unsigned_value(strip_suffixes(strip_prefixes(date, "/Date("@), ")/"@)) {
        Some(ms) => if ms <= u64::MAX { Some((ms / 1000) as u32) } else { None },
        None => None,
    }
}

/// The start of an event (see `event_date`).
pub fn get_date(event: &Event) -> (r: Option<u32>)
    ensures
        r == event_date(event.date@),
{
    let text = strip_around(event.date.as_str(), "/Date(", ")/");
    match parse_unsigned(text.as_str(), u64::MAX) {
        Some(ms) => Some((ms / 1000) as u32),
        None => None,
    }
}

/// The events whose offer can be read: a market they are offered by has two rates.
pub open spec fn readable(e: Event) -> bool {
    event_market(e) matches Some(k) ==> e.markets@[k].rates@.len() >= 2
}

/// The offer of an event: by its market, with a known game and a readable date.
pub open spec fn event_offer(e: Event) -> Option<OfferView> {
    match event_market(e) {
        None => None,
        Some(k) => match (event_game(e), event_date(e.date@)) {
            (Some(game), Some(date)) => Some(OfferView {
                oid: e.id as OID,
                date,
                game,
                kind: Kind::Series,
                outcomes: market_outcomes(e, e.markets@[k]),
            }),
            _ => None,
        },
    }
}

/// Reads the offer of an event (see `event_offer`).
pub fn get_offer(event: &Event) -> (r: Option<Offer>)
    requires
        readable(*event),
    ensures
        match event_offer(*event) {
            Some(v) => r matches Some(o) && o@ == v,
            None => r is None,
        },
{
    let k = match get_market(event) {
        Some(k) => k,
        None => {
            return None;
        },
    };
    proof {
        assert(event.markets@[k as int].rates@.len() >= 2);
    }
    let outcomes = get_outcomes(event, &event.markets[k]);
    let game = match get_game(event) {
        Some(g) => g,
        None => {
            return None;
        },
    };
    let date = match get_date(event) {
        Some(d) => d,
        None => {
            return None;
        },
    };
    Some(Offer { oid: event.id as OID, date, game, kind: Kind::Series, outcomes })
}

/// The offers of some events that have one, with the events, in order.
pub open spec fn events_offers(es: Seq<Event>) -> Seq<OfferView>
    decreases es.len(),
{
    if es.len() == 0 {
        Seq::empty()
    } else {
        match event_offer(es.last()) {
            Some(o) => events_offers(es.drop_last()).push(o),
            None => events_offers(es.drop_last()),
        }
    }
}

/// What the watcher of the site keeps: the events of the offers reported, by offer id,
/// and the offers active in each sport.
pub struct BetClubState {
    events: HashMap<OID, Event>,
    active: Vec<Vec<OID>>,
}

impl BetClubState {
    /// The events of the offers reported, by offer id.
    pub closed spec fn events(&self) -> Map<OID, Event> {
        self.events@
    }

    /// The offers active in each sport.
    pub closed spec fn active(&self) -> Seq<Seq<OID>> {
        self.active@.map_values(|v: Vec<OID>| v@)
    }

    /// Nothing seen yet in any of `sports` sports.
    pub fn new(sports: usize) -> (s: BetClubState)
        ensures
            s.events() == Map::<OID, Event>::empty(),
            s.active().len() == sports,
            forall|i: int| 0 <= i < sports ==> #[trigger] s.active()[i] == Seq::<OID>::empty(),
    {
        let mut active: Vec<Vec<OID>> = Vec::new();
        let mut i: usize = 0;
        while i < sports
            invariant
                i <= sports,
                active@.len() == i,
                forall|k: int| 0 <= k < i ==> #[trigger] active@[k]@ == Seq::<OID>::empty(),
            decreases sports - i,
        {
            active.push(Vec::new());
            i = i + 1;
        }
        let s = BetClubState { events: HashMap::new(), active };
        proof {
            assert forall|k: int| 0 <= k < sports implies #[trigger] s.active()[k] == Seq::<OID>::empty() by {
                assert(s.active()[k] == active@[k]@);
            }
        }
        s
    }

    /// Takes in a fresh look at the events of sport `sport`: reports the offers that were
    /// active there and are gone (forgetting their events), then every offer of the look
    /// (recording its event); the active offers of the sport become those of the look.
    pub fn refresh(&mut self, sport: usize, recent: Vec<Event>) -> (messages: Vec<Message>)
        requires
            sport < old(self).active().len(),
            forall|i: int| 0 <= i < recent@.len() ==> readable(#[trigger] recent@[i]),
        ensures
            final(self).active() == old(self).active().update(sport as int, first_occurrences(offer_ids(events_offers(recent@)))),
            message_views(messages@) == dropped_ids(old(self).active()[sport as int], offer_ids(events_offers(recent@)))
                .map_values(|id: OID| MessageView::Remove(id))
                + events_offers(recent@).map_values(|o: OfferView| MessageView::Upsert(o)),
    {
        let ghost rv = recent@;
        let ghost os = events_offers(rv);
        let mut offers: Vec<Offer> = Vec::new();
        let mut kept: Vec<Event> = Vec::new();
        let mut recent = recent;
        let mut i: usize = 0;
        proof {
            assert(rv.take(0) =~= Seq::<Event>::empty());
            assert(offers@.map_values(|o: Offer| o@) =~= Seq::<OfferView>::empty());
            assert(rv.len() == recent.len());
        }
        while recent.len() > 0
            invariant
                i + recent@.len() == rv.len(),
                rv.len() <= usize::MAX,
                recent@ == rv.skip(i as int),
                forall|k: int| 0 <= k < rv.len() ==> readable(#[trigger] rv[k]),
                offers@.map_values(|o: Offer| o@) == events_offers(rv.take(i as int)),
                kept@.len() == offers@.len(),
                forall|k: int| 0 <= k < kept@.len() ==> (#[trigger] kept@[k]).id as OID == offers@[k].oid,
            decreases recent@.len(),
        {
            let event = recent.remove(0);
            proof {
                assert(event == rv[i as int]);
                let t = rv.take(i + 1);
                assert(t.drop_last() =~= rv.take(i as int));
                assert(t.last() == event);
                assert(recent@ =~= rv.skip(i + 1));
            }
            let ghost before = offers@.map_values(|o: Offer| o@);
            match get_offer(&event) {
                Some(o) => {
                    offers.push(o);
                    kept.push(event);
                    proof {
                        assert(offers@.map_values(|o: Offer| o@) =~= before.push(offers@.last()@));
                    }
                },
                None => {},
            }
            i = i + 1;
        }
        proof {
            assert(rv.take(i as int) =~= rv);
        }
        let mut ids: Vec<OID> = Vec::new();
        let mut j: usize = 0;
        while j < offers.len()
            invariant
                j <= offers@.len(),
                offers@.map_values(|o: Offer| o@) == os,
                ids@ == offer_ids(os).take(j as int),
            decreases offers@.len() - j,
        {
            ids.push(offers[j].oid);
            proof {
                assert(ids@ =~= offer_ids(os).take(j + 1));
            }
            j = j + 1;
        }
        proof {
            assert(offer_ids(os).take(offers@.len() as int) =~= offer_ids(os));
        }
        let active: &Vec<OID> = &self.active[sport];
        let ghost old_active = active@;
        proof {
            assert(old_active == old(self).active()[sport as int]);
        }
        let mut messages: Vec<Message> = Vec::new();
        let mut j: usize = 0;
        proof {
            assert(old_active.take(0) =~= Seq::<OID>::empty());
        }
        while j < active.len()
            invariant
                j <= active@.len(),
                active@ == old_active,
                self.active@ == old(self).active@,
                sport < self.active@.len(),
                ids@ == offer_ids(os),
                message_views(messages@) == dropped_ids(old_active.take(j as int), ids@).map_values(|id: OID| MessageView::Remove(id)),
            decreases active@.len() - j,
        {
            let id = active[j];
            let ghost msgs = message_views(messages@);
            proof {
                let t = old_active.take(j + 1);
                assert(t.drop_last() =~= old_active.take(j as int));
                assert(t.last() == id);
            }
            if !crate::gamblers::xsporta::has_id(&ids, id) {
                self.events.remove(&id);
                messages.push(Message::Remove(id));
                proof {
                    assert(message_views(messages@) =~= msgs.push(MessageView::Remove(id)));
                }
            }
            j = j + 1;
        }
        proof {
            assert(old_active.take(active@.len() as int) =~= old_active);
        }
        let ghost removes = message_views(messages@);
        let mut fresh: Vec<OID> = Vec::new();
        let mut j: usize = 0;
        proof {
            assert(ids@.take(0) =~= Seq::<OID>::empty());
            assert(offers@.len() == ids.len());
        }
        while offers.len() > 0
            invariant
                j + offers@.len() == os.len(),
                os.len() == ids.len(),
                kept@.len() == offers@.len(),
                self.active@ == old(self).active@,
                sport < self.active@.len(),
                forall|k: int| 0 <= k < kept@.len() ==> (#[trigger] kept@[k]).id as OID == offers@[k].oid,
                offers@.map_values(|o: Offer| o@) == os.skip(j as int),
                ids@ == offer_ids(os),
                j <= ids@.len(),
                message_views(messages@) == removes + os.take(j as int).map_values(|o: OfferView| MessageView::Upsert(o)),
                fresh@ == first_occurrences(ids@.take(j as int)),
            decreases offers@.len(),
        {
            let ghost prev = offers@;
            let o = offers.remove(0);
            let event = kept.remove(0);
            let id = o.oid;
            let ghost msgs = message_views(messages@);
            proof {
                assert(o == prev[0]);
                assert(prev.map_values(|o: Offer| o@)[0] == os.skip(j as int)[0]);
                assert(o@ == os[j as int]);
                let t = ids@.take(j + 1);
                assert(t.drop_last() =~= ids@.take(j as int));
                assert(t.last() == id);
                assert(os.skip(j as int).drop_first() =~= os.skip(j + 1));
                assert(offers@.map_values(|o: Offer| o@) =~= os.skip(j + 1));
            }
            if !crate::gamblers::xsporta::has_id(&fresh, id) {
                fresh.push(id);
            }
            self.events.insert(id, event);
            messages.push(Message::Upsert(o));
            proof {
                assert(message_views(messages@) =~= msgs.push(MessageView::Upsert(os[j as int])));
                assert(os.take(j + 1).map_values(|o: OfferView| MessageView::Upsert(o))
                    =~= os.take(j as int).map_values(|o: OfferView| MessageView::Upsert(o)).push(MessageView::Upsert(os[j as int])));
            }
            j = j + 1;
        }
        proof {
            assert(os.take(j as int) =~= os);
            assert(ids@.take(j as int) =~= ids@);
        }
        let ghost before_set = self.active@;
        self.active.set(sport, fresh);
        proof {
            assert(self.active() =~= old(self).active().update(sport as int, first_occurrences(offer_ids(os))));
        }
        messages
    }

    /// The sport of the event of an offer reported.
    pub fn sport_of(&self, oid: OID) -> (r: Option<u32>)
        ensures
            r == if self.events().contains_key(oid) { Some(self.events()[oid].s_id) } else { None::<u32> },
    {
        match self.events.get(&oid) {
            Some(e) => Some(e.s_id),
            None => None,
        }
    }
}

/// The position of the first event with an id, or the number of events.
pub open spec fn event_position(es: Seq<Event>, id: u32) -> int
    decreases es.len(),
{
    if es.len() == 0 || es[0].id == id {
        0
    } else {
        1 + event_position(es.drop_first(), id)
    }
}

/// Whether a fresh look at a sport still offers an outcome of an offer: the first event
/// of the offer's id must give an offer holding the outcome. None when the look has no
/// such event.
pub open spec fn still_offered(current: Seq<Event>, oid: OID, outcome: OutcomeView) -> Option<bool> {
    let k = event_position(current, oid as u32);
    if k >= current.len() {
        None
    } else {
        match event_offer(current[k]) {
            Some(o) => Some(o.outcomes.contains(outcome)),
            None => Some(false),
        }
    }
}

/// Whether the event of an offer's id in a fresh look, when there is one, can be read.
pub open spec fn offered_readable(current: Seq<Event>, oid: OID) -> bool {
    let k = event_position(current, oid as u32);
    k < current.len() ==> readable(current[k])
}

/// The position of the first event of an offer's id in a fresh look (see
/// `event_position`).
pub fn event_index(current: &Vec<Event>, oid: OID) -> (r: Option<usize>)
    ensures
        match r {
            Some(k) => k == event_position(current@, oid as u32) && k < current@.len(),
            None => event_position(current@, oid as u32) >= current@.len(),
        },
{
    let id = oid as u32;
    let mut i: usize = 0;
    proof {
        assert(current@.skip(0) =~= current@);
    }
    while i < current.len() && current[i].id != id
        invariant
            i <= current@.len(),
            event_position(current@, id) == i + event_position(current@.skip(i as int), id),
        decreases current@.len() - i,
    {
        proof {
            assert(current@.skip(i as int).drop_first() =~= current@.skip(i + 1));
            assert(current@.skip(i as int)[0] == current@[i as int]);
        }
        i = i + 1;
    }
    if i == current.len() {
        proof {
            assert(current@.skip(i as int).len() == 0);
        }
        return None;
    }
    proof {
        assert(current@.skip(i as int)[0] == current@[i as int]);
    }
    Some(i)
}

/// Checks an offer about to be bet on against a fresh look at its sport (see
/// `still_offered`).
pub fn check_offer(current: &Vec<Event>, offer: &Offer, outcome: &Outcome) -> (r: Option<bool>)
    requires
        offered_readable(current@, offer.oid),
    ensures
        r == still_offered(current@, offer.oid, outcome@),
{
    let i = match event_index(current, offer.oid) {
        Some(i) => i,
        None => {
            return None;
        },
    };
    match get_offer(&current[i]) {
        Some(o) => {
            let ghost ov = o@.outcomes;
            proof {
                assert(still_offered(current@, offer.oid, outcome@) == Some(ov.contains(outcome@)));
            }
            let mut j: usize = 0;
            while j < o.outcomes.len()
                invariant
                    j <= o.outcomes@.len(),
                    ov == o@.outcomes,
                    still_offered(current@, offer.oid, outcome@) == Some(ov.contains(outcome@)),
                    forall|q: int| 0 <= q < j ==> ov[q] != outcome@,
                decreases o.outcomes@.len() - j,
            {
                proof {
                    assert(ov[j as int] == o.outcomes@[j as int]@);
                }
                if o.outcomes[j].same_as(outcome) {
                    proof {
                        assert(ov[j as int] == outcome@);
                        assert(ov.contains(outcome@));
                    }
                    return Some(true);
                }
                j = j + 1;
            }
            Some(false)
        },
        None => Some(false),
    }
}

/// The rate a bet on an outcome titled `title` goes with in a market of three rates: the
/// first for the first team, the third for the second, the second otherwise.
pub open spec fn rate_for(teams: Seq<String>, title: Seq<char>) -> int {
    if title == teams[0]@ {
        0
    } else if title == teams[1]@ {
        2
    } else {
        1
    }
}

impl BetClubState {
    /// The basket of a bet on the outcome titled `title` of a reported offer: by the
    /// market its event is offered by (see `rate_for`); none when the event, the market
    /// or the rate is missing.
    pub fn basket_for(&self, oid: OID, title: &str) -> (r: Option<&Basket>)
        ensures
            match r {
                Some(b) => {
                    &&& self.events().contains_key(oid)
                    &&& event_market(self.events()[oid]) matches Some(k)
                    &&& *b == self.events()[oid].markets@[k].rates@[rate_for(self.events()[oid].teams_group@, title@)].add_to_basket
                },
                None => {
                    ||| !self.events().contains_key(oid)
                    ||| event_market(self.events()[oid]) is None
                    ||| self.events()[oid].markets@[event_market(self.events()[oid])->0].rates@.len()
                        <= rate_for(self.events()[oid].teams_group@, title@)
                },
            },
    {
        let event = match self.events.get(&oid) {
            Some(e) => e,
            None => {
                return None;
            },
        };
        let k = match get_market(event) {
            Some(k) => k,
            None => {
                return None;
            },
        };
        proof {
            assert(event_market(*event) == Some(k as int));
            assert(event.teams_group@.len() >= 2);
        }
        let market = &event.markets[k];
        let index: usize = if str_eq(title, event.teams_group[0].as_str()) {
            0
        } else if str_eq(title, event.teams_group[1].as_str()) {
            2
        } else {
            1
        };
        if index >= market.rates.len() {
            return None;
        }
        Some(&market.rates[index].add_to_basket)
    }
}

/// Whether the reply to adding a bet to the betslip tells it was added.
pub fn added_to_betslip(response: &str) -> (r: bool)
    ensures
        r == has_substring(response@, "LinesID"@),
{
    contains(response, "LinesID")
}

/// Whether the reply to placing a bet tells it was placed.
pub fn bet_placed(response: &str) -> (r: bool)
    ensures
        r == has_substring(response@, "AmountIn"@),
{
    contains(response, "AmountIn")
}

} // verus!
