//! Betway: its events with their markets, the updates it pushes about them, and the
//! pages it embeds its session details in.

use vstd::prelude::*;
use std::collections::HashMap;
use crate::markets::{Game, Kind, Offer, OfferView, Outcome, OutcomeView, OID, DRAW};
use crate::gamblers::{Message, MessageView, message_views, strptime_seconds, parse_time};
use crate::parse::{trim_brackets, unbracketed, parse_unsigned, unsigned_value};
use crate::text::str_eq;
use crate::error::SiteError;
use crate::html::{select, matches_of, attribute, attribute_value, element_views, element_view, ElementView};
use regex::Regex;

verus! {

broadcast use vstd::std_specs::hash::group_hash_axioms;

/// A keyword of an event: its type and its name.
#[derive(Debug)]
pub struct Keyword {
    pub type_cname: String,
    pub cname: String,
}

/// An outcome of a market: its id, its decimal odds (thousandths) and fractional odds
/// when known, its name, whether it is active, and its type.
#[derive(Debug)]
pub struct BetwayOutcome {
    pub outcome_id: u32,
    pub price_dec: Option<u32>,
    pub price_num: Option<u32>,
    pub price_den: Option<u32>,
    pub name: String,
    pub active: bool,
    pub type_cname: String,
}

/// A market of an event: its id, outcomes, whether it is active, its name and type, and
/// whether it is displayed.
#[derive(Debug)]
pub struct Market {
    pub market_id: u32,
    pub outcomes: Vec<BetwayOutcome>,
    pub active: bool,
    pub cname: String,
    pub type_cname: String,
    pub displayed: bool,
}

/// An event: its id, its start as written, its markets and keywords, and whether it is
/// active, displayed and live.
#[derive(Debug)]
pub struct Event {
    pub event_id: u32,
    pub start_at: String,
    pub markets: Vec<Market>,
    pub keywords: Vec<Keyword>,
    pub active: bool,
    pub displayed: bool,
    pub live: bool,
}

/// The position of the first keyword of a type, or the number of keywords.
pub open spec fn keyword_position(kws: Seq<Keyword>, t: Seq<char>) -> int
    decreases kws.len(),
{
    if kws.len() == 0 || kws[0].type_cname@ == t {
        0
    } else {
        1 + keyword_position(kws.drop_first(), t)
    }
}

/// The name of the first keyword of a type.
pub open spec fn keyword(kws: Seq<Keyword>, t: Seq<char>) -> Option<Seq<char>> {
    let k = keyword_position(kws, t);
    if k < kws.len() {
        Some(kws[k].cname@)
    } else {
        None
    }
}

/// The game of a sport keyword (other than the groups of games).
pub open spec fn sport_game(cname: Seq<char>) -> Option<Game> {
    if cname == "badminton"@ {
        Some(Game::Badminton)
    } else if cname == "basketball"@ {
        Some(Game::Basketball)
    } else if cname == "curling"@ {
        Some(Game::Curling)
    } else if cname == "darts"@ {
        Some(Game::Darts)
    } else if cname == "soccer"@ {
        Some(Game::Football)
    } else if cname == "ice-hockey"@ {
        Some(Game::IceHockey)
    } else if cname == "tennis"@ {
        Some(Game::Tennis)
    } else if cname == "table-tennis"@ {
        Some(Game::TableTennis)
    } else if cname == "horse-racing"@ {
        Some(Game::HorseRacing)
    } else if cname == "american-football"@ {
        Some(Game::AmericanFootball)
    } else if cname == "cricket"@ {
        Some(Game::Cricket)
    } else if cname == "rugby-union"@ {
        Some(Game::Rugby)
    } else if cname == "rugby-league"@ {
        Some(Game::Rugby)
    } else if cname == "snooker"@ {
        Some(Game::Snooker)
    } else if cname == "golf"@ {
        Some(Game::Golf)
    } else if cname == "motor-sport"@ {
        Some(Game::Motorbikes)
    } else if cname == "baseball"@ {
        Some(Game::Baseball)
    } else if cname == "boxing"@ {
        Some(Game::Boxing)
    } else if cname == "volleyball"@ {
        Some(Game::Volleyball)
    } else if cname == "cycling"@ {
        Some(Game::BicycleRacing)
    } else if cname == "handball"@ {
        Some(Game::Handball)
    } else if cname == "ufc---martial-arts"@ {
        Some(Game::MartialArts)
    } else if cname == "bandy"@ {
        Some(Game::Bandy)
    } else if cname == "floorball"@ {
        Some(Game::Floorball)
    } else if cname == "futsal"@ {
        Some(Game::Futsal)
    } else if cname == "poker"@ {
        Some(Game::Poker)
    } else if cname == "pool"@ {
        Some(Game::Pool)
    } else if cname == "water-polo"@ {
        Some(Game::WaterPolo)
    } else {
        None
    }
}

/// The game of an eSports country keyword.
pub open spec fn esports_game(cname: Seq<char>) -> Option<Game> {
    if cname == "cs-go"@ {
        Some(Game::CounterStrike)
    } else if cname == "dota-2"@ {
        Some(Game::Dota2)
    } else if cname == "league-of-legends"@ {
        Some(Game::LeagueOfLegends)
    } else if cname == "hearthstone"@ {
        Some(Game::Hearthstone)
    } else if cname == "heroes-of-the-storm"@ {
        Some(Game::HeroesOfTheStorm)
    } else if cname == "overwatch"@ {
        Some(Game::Overwatch)
    } else if cname == "starcraft-2"@ {
        Some(Game::StarCraft2)
    } else if cname == "world-of-tanks"@ {
        Some(Game::WorldOfTanks)
    } else if cname == "fifa"@ {
        Some(Game::Fifa)
    } else {
        None
    }
}

/// The game of a Gaelic sports country keyword.
pub open spec fn gaelic_game(cname: Seq<char>) -> Option<Game> {
    if cname == "hurling"@ {
        Some(Game::Hurling)
    } else if cname == "gaelic-football"@ {
        Some(Game::GaelicFootball)
    } else {
        None
    }
}

/// The game of a winter sports country keyword.
pub open spec fn winter_game(cname: Seq<char>) -> Option<Game> {
    if cname == "biathlon-men"@ {
        Some(Game::Biathlon)
    } else if cname == "biathlon-women"@ {
        Some(Game::Biathlon)
    } else if cname == "biathlon-mixed"@ {
        Some(Game::Biathlon)
    } else if cname == "alpine-men"@ {
        Some(Game::AlpineSkiing)
    } else if cname == "alpine-women"@ {
        Some(Game::AlpineSkiing)
    } else if cname == "ski-jumping"@ {
        Some(Game::SkiJumping)
    } else {
        None
    }
}

/// The game of a sport keyword.
fn sport_game_of(cname: &str) -> (r: Option<Game>)
    ensures
        r == sport_game(cname@),
{
    if str_eq(cname, "badminton") {
        Some(Game::Badminton)
    } else if str_eq(cname, "basketball") {
        Some(Game::Basketball)
    } else if str_eq(cname, "curling") {
        Some(Game::Curling)
    } else if str_eq(cname, "darts") {
        Some(Game::Darts)
    } else if str_eq(cname, "soccer") {
        Some(Game::Football)
    } else if str_eq(cname, "ice-hockey") {
        Some(Game::IceHockey)
    } else if str_eq(cname, "tennis") {
        Some(Game::Tennis)
    } else if str_eq(cname, "table-tennis") {
        Some(Game::TableTennis)
    } else if str_eq(cname, "horse-racing") {
        Some(Game::HorseRacing)
    } else if str_eq(cname, "american-football") {
        Some(Game::AmericanFootball)
    } else if str_eq(cname, "cricket") {
        Some(Game::Cricket)
    } else if str_eq(cname, "rugby-union") {
        Some(Game::Rugby)
    } else if str_eq(cname, "rugby-league") {
        Some(Game::Rugby)
    } else if str_eq(cname, "snooker") {
        Some(Game::Snooker)
    } else if str_eq(cname, "golf") {
        Some(Game::Golf)
    } else if str_eq(cname, "motor-sport") {
        Some(Game::Motorbikes)
    } else if str_eq(cname, "baseball") {
        Some(Game::Baseball)
    } else if str_eq(cname, "boxing") {
        Some(Game::Boxing)
    } else if str_eq(cname, "volleyball") {
        Some(Game::Volleyball)
    } else if str_eq(cname, "cycling") {
        Some(Game::BicycleRacing)
    } else if str_eq(cname, "handball") {
        Some(Game::Handball)
    } else if str_eq(cname, "ufc---martial-arts") {
        Some(Game::MartialArts)
    } else if str_eq(cname, "bandy") {
        Some(Game::Bandy)
    } else if str_eq(cname, "floorball") {
        Some(Game::Floorball)
    } else if str_eq(cname, "futsal") {
        Some(Game::Futsal)
    } else if str_eq(cname, "poker") {
        Some(Game::Poker)
    } else if str_eq(cname, "pool") {
        Some(Game::Pool)
    } else if str_eq(cname, "water-polo") {
        Some(Game::WaterPolo)
    } else {
        None
    }
}

/// The game of an eSports country keyword.
fn esports_game_of(cname: &str) -> (r: Option<Game>)
    ensures
        r == esports_game(cname@),
{
    if str_eq(cname, "cs-go") {
        Some(Game::CounterStrike)
    } else if str_eq(cname, "dota-2") {
        Some(Game::Dota2)
    } else if str_eq(cname, "league-of-legends") {
        Some(Game::LeagueOfLegends)
    } else if str_eq(cname, "hearthstone") {
        Some(Game::Hearthstone)
    } else if str_eq(cname, "heroes-of-the-storm") {
        Some(Game::HeroesOfTheStorm)
    } else if str_eq(cname, "overwatch") {
        Some(Game::Overwatch)
    } else if str_eq(cname, "starcraft-2") {
        Some(Game::StarCraft2)
    } else if str_eq(cname, "world-of-tanks") {
        Some(Game::WorldOfTanks)
    } else if str_eq(cname, "fifa") {
        Some(Game::Fifa)
    } else {
        None
    }
}

/// The game of a Gaelic sports country keyword.
fn gaelic_game_of(cname: &str) -> (r: Option<Game>)
    ensures
        r == gaelic_game(cname@),
{
    if str_eq(cname, "hurling") {
        Some(Game::Hurling)
    } else if str_eq(cname, "gaelic-football") {
        Some(Game::GaelicFootball)
    } else {
        None
    }
}

/// The game of a winter sports country keyword.
fn winter_game_of(cname: &str) -> (r: Option<Game>)
    ensures
        r == winter_game(cname@),
{
    if str_eq(cname, "biathlon-men") {
        Some(Game::Biathlon)
    } else if str_eq(cname, "biathlon-women") {
        Some(Game::Biathlon)
    } else if str_eq(cname, "biathlon-mixed") {
        Some(Game::Biathlon)
    } else if str_eq(cname, "alpine-men") {
        Some(Game::AlpineSkiing)
    } else if str_eq(cname, "alpine-women") {
        Some(Game::AlpineSkiing)
    } else if str_eq(cname, "ski-jumping") {
        Some(Game::SkiJumping)
    } else {
        None
    }
}

/// The game of an event: by its sport keyword, and for the groups of games (eSports,
/// Gaelic sports, winter sports) by its country keyword.
pub open spec fn event_game(kws: Seq<Keyword>) -> Option<Game> {
    match keyword(kws, "sport"@) {
        None => None,
        Some(sport) => if sport == "esports"@ || sport == "gaelic-sports"@ || sport == "winter-sports"@ {
            match keyword(kws, "country"@) {
                None => None,
                Some(country) => if sport == "esports"@ {
                    esports_game(country)
                } else if sport == "gaelic-sports"@ {
                    gaelic_game(country)
                } else {
                    winter_game(country)
                },
            }
        } else {
            sport_game(sport)
        },
    }
}

/// The name of the first keyword of a type.
fn find_keyword<'a>(kws: &'a Vec<Keyword>, t: &str) -> (r: Option<&'a String>)
    ensures
        match keyword(kws@, t@) {
            Some(n) => r matches Some(s) && s@ == n,
            None => r is None,
        },
{
    let mut i: usize = 0;
    proof {
        assert(kws@.skip(0) =~= kws@);
    }
    while i < kws.len()
        invariant
            i <= kws@.len(),
            keyword_position(kws@, t@) == i + keyword_position(kws@.skip(i as int), t@),
        decreases kws@.len() - i,
    {
        proof {
            assert(kws@.skip(i as int).drop_first() =~= kws@.skip(i + 1));
            assert(kws@.skip(i as int)[0] == kws@[i as int]);
        }
        if str_eq(kws[i].type_cname.as_str(), t) {
            return Some(&kws[i].cname);
        }
        i = i + 1;
    }
    None
}

/// The game of an event (see `event_game`).
pub fn get_game(event: &Event) -> (r: Option<Game>)
    ensures
        r == event_game(event.keywords@),
{
    let sport = match find_keyword(&event.keywords, "sport") {
        Some(s) => s.as_str(),
        None => {
            return None;
        },
    };
    let esports = str_eq(sport, "esports");
    let gaelic = str_eq(sport, "gaelic-sports");
    let winter = str_eq(sport, "winter-sports");
    if esports || gaelic || winter {
        let country = match find_keyword(&event.keywords, "country") {
            Some(c) => c.as_str(),
            None => {
                return None;
            },
        };
        if esports {
            esports_game_of(country)
        } else if gaelic {
            gaelic_game_of(country)
        } else {
            winter_game_of(country)
        }
    } else {
        sport_game_of(sport)
    }
}


/// The title of an outcome: its name without brackets around it (`[NaVi]` is `NaVi`).
pub fn get_title(outcome: &BetwayOutcome) -> (r: String)
    ensures
        r@ == unbracketed(outcome.name@),
{
    trim_brackets(outcome.name.as_str())
}

/// The title an outcome stands under in an offer: `Draw` is the draw.
pub open spec fn outcome_title(o: BetwayOutcome) -> Seq<char> {
    let t = unbracketed(o.name@);
    if t == "Draw"@ {
        DRAW@
    } else {
        t
    }
}

/// The outcomes of a market: none when an outcome has no decimal odds.
pub open spec fn market_outcomes(os: Seq<BetwayOutcome>) -> Option<Seq<OutcomeView>> {
    if exists|i: int| 0 <= i < os.len() && (#[trigger] os[i]).price_dec is None {
        None
    } else {
        Some(Seq::new(os.len(), |i: int| (outcome_title(os[i]), os[i].price_dec->0)))
    }
}

/// The outcomes of a market (see `market_outcomes`).
pub fn get_outcomes(market: &Market) -> (r: Option<Vec<Outcome>>)
    ensures
        match market_outcomes(market.outcomes@) {
            Some(v) => r matches Some(os) && os@.map_values(|o: Outcome| o@) == v,
            None => r is None,
        },
{
    let mut i: usize = 0;
    while i < market.outcomes.len()
        invariant
            i <= market.outcomes@.len(),
            forall|k: int| 0 <= k < i ==> (#[trigger] market.outcomes@[k]).price_dec is Some,
        decreases market.outcomes@.len() - i,
    {
        if market.outcomes[i].price_dec.is_none() {
            return None;
        }
        i = i + 1;
    }
    let mut out: Vec<Outcome> = Vec::new();
    let mut i: usize = 0;
    while i < market.outcomes.len()
        invariant
            i <= market.outcomes@.len(),
            forall|k: int| 0 <= k < market.outcomes@.len() ==> (#[trigger] market.outcomes@[k]).price_dec is Some,
            out@.len() == i,
            forall|k: int| 0 <= k < i ==> (#[trigger] out@[k])@ == (outcome_title(market.outcomes@[k]), market.outcomes@[k].price_dec->0),
        decreases market.outcomes@.len() - i,
    {
        let o = &market.outcomes[i];
        let name = get_title(o);
        let title = if str_eq(name.as_str(), "Draw") { DRAW.to_string() } else { name };
        let price = match o.price_dec {
            Some(p) => p,
            None => 0,
        };
        out.push(Outcome(title, price));
        i = i + 1;
    }
    proof {
        assert(out@.map_values(|o: Outcome| o@) =~= market_outcomes(market.outcomes@)->0);
    }
    Some(out)
}

/// The start of an event (Unix seconds, cut to 32 bits).
pub open spec fn event_time(e: Event) -> Option<u32> {
    match strptime_seconds(e.start_at@, "%Y-%m-%dT%H:%M:%SZ"@) {
        Some(s) => Some(s as u32),
        None => None,
    }
}

/// The start of an event (see `event_time`).
pub fn get_time(event: &Event) -> (r: Option<u32>)
    ensures
        r == event_time(*event),
{
    match parse_time(event.start_at.as_str(), "%Y-%m-%dT%H:%M:%SZ") {
        Some(s) => Some(s as u32),
        None => None,
    }
}

/// The kind of market of an event: always a series.
pub fn get_kind(event: &Event) -> (r: Option<Kind>)
    ensures
        r == Some(Kind::Series),
{
    Some(Kind::Series)
}

/// The offer of a market of an event: the market must be active, displayed and of a
/// winner type (`to-win` or `win-draw-win`), the event active and displayed, and the
/// outcomes, start and game known.
pub open spec fn market_offer(m: Market, e: Event) -> Option<OfferView> {
    if !m.active || !m.displayed || !(m.type_cname@ == "to-win"@ || m.type_cname@ == "win-draw-win"@)
        || !e.active || !e.displayed || market_outcomes(m.outcomes@) is None || event_time(e) is None
        || event_game(e.keywords@) is None {
        None
    } else {
        Some(OfferView {
            oid: m.market_id as OID,
            date: event_time(e)->0,
            game: event_game(e.keywords@)->0,
            kind: Kind::Series,
            outcomes: market_outcomes(m.outcomes@)->0,
        })
    }
}

/// The offer of a market of an event (see `market_offer`).
pub fn convert_market_to_offer(market: &Market, event: &Event) -> (r: Option<Offer>)
    ensures
        match market_offer(*market, *event) {
            Some(v) => r matches Some(o) && o@ == v,
            None => r is None,
        },
{
    let outcomes = get_outcomes(market);
    let ts = get_time(event);
    let game = get_game(event);
    let kind = get_kind(event);
    let winner_type = str_eq(market.type_cname.as_str(), "to-win") || str_eq(market.type_cname.as_str(), "win-draw-win");
    if !market.active || !market.displayed || !winner_type || !event.active || !event.displayed {
        return None;
    }
    match (outcomes, ts, game, kind) {
        (Some(outcomes), Some(date), Some(game), Some(kind)) => Some(Offer {
            oid: market.market_id as OID,
            date,
            game,
            kind,
            outcomes,
        }),
        _ => None,
    }
}

/// A pushed change of an event: whether it is live and active.
#[derive(Debug)]
pub struct EventUpdate {
    pub event_id: u32,
    pub live: Option<bool>,
    pub active: Option<bool>,
}

/// A pushed change of a market: whether it is active and displayed.
#[derive(Debug)]
pub struct MarketUpdate {
    pub event_id: u32,
    pub market_id: u32,
    pub active: Option<bool>,
    pub displayed: Option<bool>,
}

/// A pushed change of an outcome: whether it is active, and its odds.
#[derive(Debug)]
pub struct OutcomeUpdate {
    pub event_id: u32,
    pub market_id: u32,
    pub outcome_id: u32,
    pub active: Option<bool>,
    pub price_dec: Option<u32>,
    pub price_num: Option<u32>,
    pub price_den: Option<u32>,
}

/// A pushed change, by the type the site gives it.
#[derive(Debug)]
pub enum Update {
    EventUpdate(EventUpdate),
    MarketUpdate(MarketUpdate),
    OutcomeUpdate(OutcomeUpdate),
    UnsupportedUpdate(String),
}

/// A field after a change: a reported value replaces it.
pub open spec fn changed<T>(old: T, new: Option<T>) -> T {
    match new {
        Some(v) => v,
        None => old,
    }
}

/// What applying a change of an event does: `b` is `a` with its activity and liveness as
/// reported, and `r` tells whether one of them changed.
pub open spec fn event_update_done(a: Event, b: Event, u: EventUpdate, r: bool) -> bool {
    &&& b.active == changed(a.active, u.active)
    &&& b.live == changed(a.live, u.live)
    &&& b.event_id == a.event_id
    &&& b.start_at == a.start_at
    &&& b.markets == a.markets
    &&& b.keywords == a.keywords
    &&& b.displayed == a.displayed
    &&& r == (b.active != a.active || b.live != a.live)
}

/// Applies a change of an event. Returns whether something changed.
pub fn apply_event_update(event: &mut Event, update: &EventUpdate) -> (r: bool)
    ensures
        event_update_done(*old(event), *final(event), *update, r),
{
    let mut is_updated = false;
    match update.active {
        Some(a) => if a != event.active {
            event.active = a;
            is_updated = true;
        },
        None => {},
    }
    match update.live {
        Some(l) => if l != event.live {
            event.live = l;
            is_updated = true;
        },
        None => {},
    }
    is_updated
}

/// The position of the first market with an id, or the number of markets.
pub open spec fn market_position(ms: Seq<Market>, id: u32) -> int
    decreases ms.len(),
{
    if ms.len() == 0 || ms[0].market_id == id {
        0
    } else {
        1 + market_position(ms.drop_first(), id)
    }
}

/// The position of the first outcome with an id, or the number of outcomes.
pub open spec fn outcome_position_by_id(os: Seq<BetwayOutcome>, id: u32) -> int
    decreases os.len(),
{
    if os.len() == 0 || os[0].outcome_id == id {
        0
    } else {
        1 + outcome_position_by_id(os.drop_first(), id)
    }
}

/// The position of the first market with an id.
fn find_market(ms: &Vec<Market>, id: u32) -> (r: usize)
    ensures
        r == market_position(ms@, id),
        r <= ms@.len(),
{
    let mut i: usize = 0;
    proof {
        assert(ms@.skip(0) =~= ms@);
    }
    while i < ms.len() && ms[i].market_id != id
        invariant
            i <= ms@.len(),
            market_position(ms@, id) == i + market_position(ms@.skip(i as int), id),
        decreases ms@.len() - i,
    {
        proof {
            assert(ms@.skip(i as int).drop_first() =~= ms@.skip(i + 1));
            assert(ms@.skip(i as int)[0] == ms@[i as int]);
        }
        i = i + 1;
    }
    proof {
        if i < ms@.len() {
            assert(ms@.skip(i as int)[0] == ms@[i as int]);
        }
    }
    i
}

/// The position of the first outcome with an id.
fn find_outcome(os: &Vec<BetwayOutcome>, id: u32) -> (r: usize)
    ensures
        r == outcome_position_by_id(os@, id),
        r <= os@.len(),
{
    let mut i: usize = 0;
    proof {
        assert(os@.skip(0) =~= os@);
    }
    while i < os.len() && os[i].outcome_id != id
        invariant
            i <= os@.len(),
            outcome_position_by_id(os@, id) == i + outcome_position_by_id(os@.skip(i as int), id),
        decreases os@.len() - i,
    {
        proof {
            assert(os@.skip(i as int).drop_first() =~= os@.skip(i + 1));
            assert(os@.skip(i as int)[0] == os@[i as int]);
        }
        i = i + 1;
    }
    proof {
        if i < os@.len() {
            assert(os@.skip(i as int)[0] == os@[i as int]);
        }
    }
    i
}

/// A market after a change: its activity and display as reported.
pub open spec fn market_after(m: Market, u: MarketUpdate) -> Market {
    Market { active: changed(m.active, u.active), displayed: changed(m.displayed, u.displayed), ..m }
}

/// What applying a change of a market does: the first market of `a` with its id gets its
/// activity and display as reported in `b` (no market with the id, no change), and `r`
/// tells whether one of them changed.
pub open spec fn market_update_done(a: Event, b: Event, u: MarketUpdate, r: bool) -> bool {
    let k = market_position(a.markets@, u.market_id);
    &&& if k < a.markets@.len() {
        let m = a.markets@[k];
        let n = market_after(m, u);
        &&& b.markets@ == a.markets@.update(k, n)
        &&& r == (n.active != m.active || n.displayed != m.displayed)
    } else {
        &&& b.markets@ == a.markets@
        &&& !r
    }
    &&& b.event_id == a.event_id
    &&& b.start_at == a.start_at
    &&& b.keywords == a.keywords
    &&& b.active == a.active
    &&& b.displayed == a.displayed
    &&& b.live == a.live
}

/// Applies a change of a market of an event (the first with its id; none, no change).
/// Returns whether something changed.
pub fn apply_market_update(event: &mut Event, update: &MarketUpdate) -> (r: bool)
    ensures
        market_update_done(*old(event), *final(event), *update, r),
{
    let k = find_market(&event.markets, update.market_id);
    if k == event.markets.len() {
        return false;
    }
    let mut is_updated = false;
    match update.active {
        Some(a) => if a != event.markets[k].active {
            event.markets[k].active = a;
            is_updated = true;
        },
        None => {},
    }
    match update.displayed {
        Some(d) => if d != event.markets[k].displayed {
            event.markets[k].displayed = d;
            is_updated = true;
        },
        None => {},
    }
    proof {
        let m = old(event).markets@[k as int];
        assert(event.markets@ =~= old(event).markets@.update(k as int, market_after(m, *update)));
    }
    is_updated
}

/// An outcome after a change: its odds and activity as reported.
pub open spec fn outcome_after(o: BetwayOutcome, u: OutcomeUpdate) -> BetwayOutcome {
    BetwayOutcome {
        price_dec: if u.price_dec is Some { u.price_dec } else { o.price_dec },
        price_den: if u.price_den is Some { u.price_den } else { o.price_den },
        price_num: if u.price_num is Some { u.price_num } else { o.price_num },
        active: changed(o.active, u.active),
        ..o
    }
}

/// What applying a change of an outcome does: the first outcome with its id of the first
/// market with its id gets its odds and activity as reported in `b` (either missing, no
/// change), and `r` tells whether one of them changed.
pub open spec fn outcome_update_done(a: Event, b: Event, u: OutcomeUpdate, r: bool) -> bool {
    let k = market_position(a.markets@, u.market_id);
    &&& if k < a.markets@.len() {
        let m = a.markets@[k];
        let j = outcome_position_by_id(m.outcomes@, u.outcome_id);
        if j < m.outcomes@.len() {
            let o = m.outcomes@[j];
            let n = outcome_after(o, u);
            &&& b.markets@ == a.markets@.update(k, Market { outcomes: b.markets@[k].outcomes, ..m })
            &&& b.markets@[k].outcomes@ == m.outcomes@.update(j, n)
            &&& r == (n.price_dec != o.price_dec || n.price_den != o.price_den
                || n.price_num != o.price_num || n.active != o.active)
        } else {
            &&& b.markets@ == a.markets@
            &&& !r
        }
    } else {
        &&& b.markets@ == a.markets@
        &&& !r
    }
    &&& b.event_id == a.event_id
    &&& b.start_at == a.start_at
    &&& b.keywords == a.keywords
    &&& b.active == a.active
    &&& b.displayed == a.displayed
    &&& b.live == a.live
}

/// Applies a change of an outcome of a market of an event (the first market and outcome
/// with their ids; none, no change). Returns whether something changed.
pub fn apply_outcome_update(event: &mut Event, update: &OutcomeUpdate) -> (r: bool)
    ensures
        outcome_update_done(*old(event), *final(event), *update, r),
{
    let k = find_market(&event.markets, update.market_id);
    if k == event.markets.len() {
        return false;
    }
    let j = find_outcome(&event.markets[k].outcomes, update.outcome_id);
    if j == event.markets[k].outcomes.len() {
        return false;
    }
    let mut is_updated = false;
    if update.price_dec.is_some() && update.price_dec != event.markets[k].outcomes[j].price_dec {
        event.markets[k].outcomes[j].price_dec = update.price_dec;
        is_updated = true;
    }
    if update.price_den.is_some() && update.price_den != event.markets[k].outcomes[j].price_den {
        event.markets[k].outcomes[j].price_den = update.price_den;
        is_updated = true;
    }
    if update.price_num.is_some() && update.price_num != event.markets[k].outcomes[j].price_num {
        event.markets[k].outcomes[j].price_num = update.price_num;
        is_updated = true;
    }
    match update.active {
        Some(a) => if a != event.markets[k].outcomes[j].active {
            event.markets[k].outcomes[j].active = a;
            is_updated = true;
        },
        None => {},
    }
    proof {
        let m = old(event).markets@[k as int];
        let o = m.outcomes@[j as int];
        assert(event.markets@ =~= old(event).markets@.update(k as int, Market { outcomes: event.markets@[k as int].outcomes, ..m }));
        assert(event.markets@[k as int].outcomes@ =~= m.outcomes@.update(j as int, outcome_after(o, *update)));
    }
    is_updated
}


/// The event a change is about, for the changes the watcher follows.
pub open spec fn update_event(u: Update) -> Option<u32> {
    match u {
        Update::EventUpdate(e) => Some(e.event_id),
        Update::MarketUpdate(m) => Some(m.event_id),
        Update::OutcomeUpdate(o) => Some(o.event_id),
        Update::UnsupportedUpdate(_) => None,
    }
}

/// What applying a change does (see the kinds of change); an unsupported change changes
/// nothing.
pub open spec fn update_done(a: Event, b: Event, u: Update, r: bool) -> bool {
    match u {
        Update::EventUpdate(e) => event_update_done(a, b, e, r),
        Update::MarketUpdate(m) => market_update_done(a, b, m, r),
        Update::OutcomeUpdate(o) => outcome_update_done(a, b, o, r),
        Update::UnsupportedUpdate(_) => !r && b == a,
    }
}

/// Applies a change to an event. Returns whether something changed; an unsupported
/// change changes nothing.
pub fn apply_update(event: &mut Event, update: &Update) -> (r: bool)
    ensures
        update_done(*old(event), *final(event), *update, r),
        final(event).event_id == old(event).event_id,
{
    match update {
        Update::EventUpdate(u) => apply_event_update(event, u),
        Update::MarketUpdate(u) => apply_market_update(event, u),
        Update::OutcomeUpdate(u) => apply_outcome_update(event, u),
        Update::UnsupportedUpdate(_) => false,
    }
}

/// The report about each market of an event: its offer, or the event gone when a market
/// has none.
pub open spec fn event_reports(e: Event) -> Seq<MessageView> {
    Seq::new(e.markets@.len(), |i: int| match market_offer(e.markets@[i], e) {
        Some(o) => MessageView::Upsert(o),
        None => MessageView::Remove(e.event_id as OID),
    })
}

/// The reports about each market of an event (see `event_reports`).
pub fn report_event(event: &Event) -> (r: Vec<Message>)
    ensures
        message_views(r@) == event_reports(*event),
{
    let mut r: Vec<Message> = Vec::new();
    let mut i: usize = 0;
    while i < event.markets.len()
        invariant
            i <= event.markets@.len(),
            r@.len() == i,
            forall|k: int| 0 <= k < i ==> (#[trigger] r@[k])@ == event_reports(*event)[k],
        decreases event.markets@.len() - i,
    {
        match convert_market_to_offer(&event.markets[i], event) {
            Some(o) => r.push(Message::Upsert(o)),
            None => r.push(Message::Remove(event.event_id as OID)),
        }
        i = i + 1;
    }
    proof {
        assert(message_views(r@) =~= event_reports(*event));
    }
    r
}

/// The offers of the markets of a new event that have one, in order.
pub open spec fn new_event_offers(e: Event) -> Seq<OfferView>
    decreases e.markets@.len(),
{
    new_event_offers_upto(e, e.markets@.len() as int)
}

/// The offers of the first `n` markets of an event that have one.
pub open spec fn new_event_offers_upto(e: Event, n: int) -> Seq<OfferView>
    decreases n,
{
    if n <= 0 {
        Seq::empty()
    } else {
        let prev = new_event_offers_upto(e, n - 1);
        match market_offer(e.markets@[n - 1], e) {
            Some(o) => prev.push(o),
            None => prev,
        }
    }
}

/// The events the watcher follows, by id, and the event of each of their markets.
pub struct BetWayState {
    events: HashMap<u32, Event>,
    markets_to_events: HashMap<u32, u32>,
}

impl BetWayState {
    /// The events followed.
    pub closed spec fn events(&self) -> Map<u32, Event> {
        self.events@
    }

    /// The event of each market of the events followed.
    pub closed spec fn market_events(&self) -> Map<u32, u32> {
        self.markets_to_events@
    }

    /// Nothing followed yet.
    pub fn new() -> (s: BetWayState)
        ensures
            s.events() == Map::<u32, Event>::empty(),
            s.market_events() == Map::<u32, u32>::empty(),
    {
        BetWayState { events: HashMap::new(), markets_to_events: HashMap::new() }
    }

    /// Whether an event is followed.
    pub fn follows(&self, event_id: u32) -> (r: bool)
        ensures
            r == self.events().contains_key(event_id),
    {
        self.events.contains_key(&event_id)
    }

    /// Follows a new event: reports the offers of its markets, and records the event of
    /// each of its markets. An event already followed changes nothing (`None`).
    pub fn add_event(&mut self, event: Event) -> (r: Option<Vec<Message>>)
        ensures
            if old(self).events().contains_key(event.event_id) {
                &&& r is None
                &&& final(self).events() == old(self).events()
                &&& final(self).market_events() == old(self).market_events()
            } else {
                &&& r matches Some(ms) && message_views(ms@) == new_event_offers(event).map_values(|o: OfferView| MessageView::Upsert(o))
                &&& final(self).events() == old(self).events().insert(event.event_id, event)
                &&& forall|m: u32| #[trigger] final(self).market_events().contains_key(m) <==>
                    (old(self).market_events().contains_key(m) || exists|i: int| 0 <= i < event.markets@.len() && event.markets@[i].market_id == m)
                &&& forall|m: u32| #[trigger] final(self).market_events().contains_key(m) ==>
                    final(self).market_events()[m] == if exists|i: int| 0 <= i < event.markets@.len() && event.markets@[i].market_id == m {
                        event.event_id
                    } else {
                        old(self).market_events()[m]
                    }
            },
    {
        if self.events.contains_key(&event.event_id) {
            return None;
        }
        let ghost start = self.markets_to_events@;
        let mut messages: Vec<Message> = Vec::new();
        let mut i: usize = 0;
        while i < event.markets.len()
            invariant
                i <= event.markets@.len(),
                message_views(messages@) == new_event_offers_upto(event, i as int).map_values(|o: OfferView| MessageView::Upsert(o)),
                forall|m: u32| #[trigger] self.markets_to_events@.contains_key(m) <==>
                    (start.contains_key(m) || exists|k: int| 0 <= k < i && event.markets@[k].market_id == m),
                forall|m: u32| #[trigger] self.markets_to_events@.contains_key(m) ==>
                    self.markets_to_events@[m] == if exists|k: int| 0 <= k < i && event.markets@[k].market_id == m {
                        event.event_id
                    } else {
                        start[m]
                    },
                self.events@ == old(self).events@,
                start == old(self).markets_to_events@,
            decreases event.markets@.len() - i,
        {
            let ghost before = message_views(messages@);
            match convert_market_to_offer(&event.markets[i], &event) {
                Some(o) => {
                    messages.push(Message::Upsert(o));
                    proof {
                        assert(message_views(messages@) =~= before.push(messages@.last()@));
                    }
                },
                None => {},
            }
            let ghost mbefore = self.markets_to_events@;
            self.markets_to_events.insert(event.markets[i].market_id, event.event_id);
            proof {
                let mid = event.markets@[i as int].market_id;
                assert forall|m: u32| #[trigger] self.markets_to_events@.contains_key(m) <==>
                    (start.contains_key(m) || exists|k: int| 0 <= k < i + 1 && event.markets@[k].market_id == m) by {
                    if m == mid {
                        assert(event.markets@[i as int].market_id == m);
                    }
                    if exists|k: int| 0 <= k < i + 1 && event.markets@[k].market_id == m {
                        let k = choose|k: int| 0 <= k < i + 1 && event.markets@[k].market_id == m;
                        if k < i {
                            assert(exists|q: int| 0 <= q < i && event.markets@[q].market_id == m);
                        }
                    }
                }
                assert forall|m: u32| #[trigger] self.markets_to_events@.contains_key(m) implies
                    self.markets_to_events@[m] == if exists|k: int| 0 <= k < i + 1 && event.markets@[k].market_id == m {
                        event.event_id
                    } else {
                        start[m]
                    } by {
                    if m == mid {
                        assert(event.markets@[i as int].market_id == m);
                    } else {
                        if exists|k: int| 0 <= k < i + 1 && event.markets@[k].market_id == m {
                            let k = choose|k: int| 0 <= k < i + 1 && event.markets@[k].market_id == m;
                            assert(k < i);
                            assert(exists|q: int| 0 <= q < i && event.markets@[q].market_id == m);
                        } else {
                            assert(!exists|q: int| 0 <= q < i && event.markets@[q].market_id == m) by {
                                if exists|q: int| 0 <= q < i && event.markets@[q].market_id == m {
                                    let q = choose|q: int| 0 <= q < i && event.markets@[q].market_id == m;
                                    assert(0 <= q < i + 1 && event.markets@[q].market_id == m);
                                }
                            }
                        }
                    }
                }
            }
            i = i + 1;
        }
        proof {
            assert(new_event_offers(event) == new_event_offers_upto(event, event.markets@.len() as int));
        }
        let id = event.event_id;
        self.events.insert(id, event);
        Some(messages)
    }

    /// Takes in a pushed change of a followed event: when it changes the event, reports
    /// each of its markets (see `event_reports`). Other changes report nothing.
    pub fn handle_update(&mut self, update: &Update) -> (r: Vec<Message>)
        ensures
            final(self).market_events() == old(self).market_events(),
            match update_event(*update) {
                Some(id) => if old(self).events().contains_key(id) {
                    &&& final(self).events().contains_key(id)
                    &&& forall|k: u32| k != id ==> #[trigger] final(self).events().contains_key(k) == old(self).events().contains_key(k)
                    &&& forall|k: u32| k != id && old(self).events().contains_key(k) ==> #[trigger] final(self).events()[k] == old(self).events()[k]
                    &&& exists|c: bool| {
                        &&& #[trigger] update_done(old(self).events()[id], final(self).events()[id], *update, c)
                        &&& message_views(r@) == if c { event_reports(final(self).events()[id]) } else { Seq::<MessageView>::empty() }
                    }
                } else {
                    final(self).events() == old(self).events() && r@.len() == 0
                },
                None => final(self).events() == old(self).events() && r@.len() == 0,
            },
    {
        let id = match update {
            Update::EventUpdate(u) => u.event_id,
            Update::MarketUpdate(u) => u.event_id,
            Update::OutcomeUpdate(u) => u.event_id,
            Update::UnsupportedUpdate(_) => {
                return Vec::new();
            },
        };
        let mut event = match self.events.remove(&id) {
            Some(e) => e,
            None => {
                return Vec::new();
            },
        };
        let ghost before = self.events@;
        let ghost ev0 = event;
        let changed = apply_update(&mut event, update);
        let ghost ev1 = event;
        let messages = if changed { report_event(&event) } else { Vec::new() };
        proof {
            if !changed {
                assert(message_views(messages@) =~= Seq::<MessageView>::empty());
            }
        }
        self.events.insert(id, event);
        proof {
            assert(self.events()[id] == ev1);
            assert(ev0 == old(self).events()[id]);
            assert(update_done(old(self).events()[id], self.events()[id], *update, changed));
        }
        messages
    }
}

/// What `regex::Regex::captures` gives as group 1 of the first match of `pattern` in
/// `text` (none when the pattern does not compile, does not match, or the group is not
/// in the match).
pub uninterp spec fn regex_group(pattern: Seq<char>, text: Seq<char>) -> Option<Seq<char>>;

/// Compiles `pattern` (`Regex::new`) and calls `Regex::captures` on `text`, giving group 1.
/// Claims that the result is `regex_group` of the pattern and the text.
#[verifier::external_body]
fn capture_group(pattern: &str, text: &str) -> (r: Option<String>)
    ensures
        match r {
            Some(s) => regex_group(pattern@, text@) == Some(s@),
            None => regex_group(pattern@, text@) is None,
        },
{
    match Regex::new(pattern) {
        Ok(re) => match re.captures(text) {
            Some(caps) => caps.get(1).map(|m| m.as_str().to_string()),
            None => None,
        },
        Err(_) => None,
    }
}

/// What `regex::Regex::captures_iter` gives as group 1 of each match of `pattern` in
/// `text`, in order (none for a match without the group; nothing when the pattern does not
/// compile).
pub uninterp spec fn regex_groups(pattern: Seq<char>, text: Seq<char>) -> Seq<Option<Seq<char>>>;

/// The views of optional strings.
pub open spec fn optional_views(v: Seq<Option<String>>) -> Seq<Option<Seq<char>>> {
    v.map_values(|o: Option<String>| match o {
        Some(s) => Some(s@),
        None => None,
    })
}

/// Compiles `pattern` (`Regex::new`) and calls `Regex::captures_iter` on `text`, giving
/// group 1 of each match. Claims that the result is `regex_groups` of the pattern and the
/// text.
#[verifier::external_body]
fn capture_groups(pattern: &str, text: &str) -> (r: Vec<Option<String>>)
    ensures
        optional_views(r@) == regex_groups(pattern@, text@),
{
    match Regex::new(pattern) {
        Ok(re) => re.captures_iter(text).map(|caps| caps.get(1).map(|m| m.as_str().to_string())).collect(),
        Err(_) => Vec::new(),
    }
}

/// The page's setting of the client's address.
pub const IP_ADDRESS_PATTERN: &'static str = r#"config\["ip"] = "([\d|.]+)";"#;

/// The page's setting of the server id.
pub const SERVER_ID_PATTERN: &'static str = r#"config\["serverId"] = (\d+);"#;

/// The page's setting of the client type.
pub const CLIENT_TYPE_PATTERN: &'static str = r#"clientType : (\d+),"#;

/// An event id in a page.
pub const EVENT_ID_PATTERN: &'static str = r#"evt_(\d+)"#;

/// The client's address a page sets.
pub fn extract_ip_address(page: &str) -> (r: Option<String>)
    ensures
        match r {
            Some(s) => regex_group(IP_ADDRESS_PATTERN@, page@) == Some(s@),
            None => regex_group(IP_ADDRESS_PATTERN@, page@) is None,
        },
{
    capture_group(IP_ADDRESS_PATTERN, page)
}

/// A number a page sets, by a pattern whose group 1 holds it.
pub open spec fn page_number(pattern: Seq<char>, page: Seq<char>) -> Option<u32> {
    match regex_group(pattern, page) {
        Some(g) => match unsigned_value(g) {
            Some(v) => if v <= u32::MAX { Some(v as u32) } else { None },
            None => None,
        },
        None => None,
    }
}

/// The server id a page sets.
pub fn extract_server_id(page: &str) -> (r: Option<u32>)
    ensures
        r == page_number(SERVER_ID_PATTERN@, page@),
{
    match capture_group(SERVER_ID_PATTERN, page) {
        Some(g) => match parse_unsigned(g.as_str(), u32::MAX as u64) {
            Some(v) => Some(v as u32),
            None => None,
        },
        None => None,
    }
}

/// The client type a page sets.
pub fn extract_client_type(page: &str) -> (r: Option<u32>)
    ensures
        r == page_number(CLIENT_TYPE_PATTERN@, page@),
{
    match capture_group(CLIENT_TYPE_PATTERN, page) {
        Some(g) => match parse_unsigned(g.as_str(), u32::MAX as u64) {
            Some(v) => Some(v as u32),
            None => None,
        },
        None => None,
    }
}

/// The event ids of a page, in order: every match's group read as a number; an error when
/// one does not read.
pub open spec fn page_event_ids(groups: Seq<Option<Seq<char>>>) -> Result<Seq<u32>, ()>
    decreases groups.len(),
{
    if groups.len() == 0 {
        Ok(Seq::empty())
    } else {
        match page_event_ids(groups.drop_last()) {
            Err(_) => Err(()),
            Ok(prev) => match groups.last() {
                None => Ok(prev),
                Some(g) => match unsigned_value(g) {
                    Some(v) => if v <= u32::MAX { Ok(prev.push(v as u32)) } else { Err(()) },
                    None => Err(()),
                },
            },
        }
    }
}

proof fn lemma_page_ids_error_stays(groups: Seq<Option<Seq<char>>>, n: int)
    requires
        0 <= n <= groups.len(),
        page_event_ids(groups.take(n)) is Err,
    ensures
        page_event_ids(groups) is Err,
    decreases groups.len() - n,
{
    if n < groups.len() {
        assert(groups.take(n + 1).drop_last() =~= groups.take(n));
        lemma_page_ids_error_stays(groups, n + 1);
    } else {
        assert(groups.take(n) =~= groups);
    }
}

/// The league check boxes of the main page.
pub const LEAGUE_SELECTOR: &'static str = ".bet-chkbox";

/// The ids of some elements that have one, in order.
pub open spec fn element_ids(es: Seq<ElementView>) -> Seq<Seq<char>>
    decreases es.len(),
{
    if es.len() == 0 {
        Seq::empty()
    } else {
        let prev = element_ids(es.drop_last());
        match attribute_value(es.last().1, "id"@) {
            Some(id) => prev.push(id),
            None => prev,
        }
    }
}

/// The leagues of the main page: the ids of its league check boxes that have one; an
/// error when they cannot be looked for.
pub fn extract_leagues(page: &str) -> (r: Result<Vec<String>, SiteError>)
    ensures
        match matches_of(page@, LEAGUE_SELECTOR@) {
            Some(es) => r matches Ok(v) && v@.map_values(|s: String| s@) == element_ids(es),
            None => r is Err,
        },
{
    proof {
        reveal_strlit("id");
    }
    let es = match select(page, LEAGUE_SELECTOR) {
        Some(es) => es,
        None => {
            return Err(SiteError::Unexpected("Strange error while searching for .bet-chkbox".to_string()));
        },
    };
    let ghost ev = element_views(es@);
    let mut ids: Vec<String> = Vec::new();
    let mut i: usize = 0;
    proof {
        assert(ev.take(0) =~= Seq::<ElementView>::empty());
    }
    while i < es.len()
        invariant
            i <= es@.len(),
            ev == element_views(es@),
            ids@.map_values(|s: String| s@) == element_ids(ev.take(i as int)),
        decreases es@.len() - i,
    {
        proof {
            let t = ev.take(i + 1);
            assert(t.drop_last() =~= ev.take(i as int));
            assert(t.last() == element_view(es@[i as int]));
        }
        let ghost before = ids@;
        match attribute(&es[i], "id") {
            Some(id) => {
                ids.push(id);
                proof {
                    assert(ids@.map_values(|s: String| s@) =~= before.map_values(|s: String| s@).push(id@));
                }
            },
            None => {},
        }
        i = i + 1;
    }
    proof {
        assert(ev.take(es@.len() as int) =~= ev);
    }
    Ok(ids)
}

/// The event ids of the groups of a page's matches (see `page_event_ids`).
pub fn event_ids_of(groups: &Vec<Option<String>>) -> (r: Result<Vec<u32>, SiteError>)
    ensures
        match page_event_ids(optional_views(groups@)) {
            Ok(ids) => r matches Ok(v) && v@ == ids,
            Err(_) => r is Err,
        },
{
    let ghost gv = optional_views(groups@);
    let mut ids: Vec<u32> = Vec::new();
    let mut i: usize = 0;
    proof {
        assert(gv.take(0) =~= Seq::<Option<Seq<char>>>::empty());
    }
    while i < groups.len()
        invariant
            i <= groups@.len(),
            gv == optional_views(groups@),
            page_event_ids(gv.take(i as int)) == Ok::<Seq<u32>, ()>(ids@),
        decreases groups@.len() - i,
    {
        proof {
            let t = gv.take(i + 1);
            assert(t.drop_last() =~= gv.take(i as int));
            assert(t.last() == gv[i as int]);
        }
        match &groups[i] {
            Some(g) => match parse_unsigned(g.as_str(), u32::MAX as u64) {
                Some(v) => {
                    ids.push(v as u32);
                },
                None => {
                    proof {
                        lemma_page_ids_error_stays(gv, i + 1);
                    }
                    return Err(SiteError::Unexpected("invalid event id".to_string()));
                },
            },
            None => {},
        }
        i = i + 1;
    }
    proof {
        assert(gv.take(groups@.len() as int) =~= gv);
    }
    Ok(ids)
}

/// The event ids of a page (see `page_event_ids`).
pub fn extract_events_ids(page: &str) -> (r: Result<Vec<u32>, SiteError>)
    ensures
        match page_event_ids(regex_groups(EVENT_ID_PATTERN@, page@)) {
            Ok(ids) => r matches Ok(v) && v@ == ids,
            Err(_) => r is Err,
        },
{
    let groups = capture_groups(EVENT_ID_PATTERN, page);
    event_ids_of(&groups)
}


/// What a bet on an outcome needs: its event, market and outcome, and its fractional odds.
#[derive(Debug)]
pub struct Selection {
    pub event_id: u32,
    pub market_id: u32,
    pub outcome_id: u32,
    pub price_num: u32,
    pub price_den: u32,
}

/// The position of the first outcome with a title, or the number of outcomes.
pub open spec fn title_position(os: Seq<BetwayOutcome>, title: Seq<char>) -> int
    decreases os.len(),
{
    if os.len() == 0 || unbracketed(os[0].name@) == title {
        0
    } else {
        1 + title_position(os.drop_first(), title)
    }
}

/// The selection of a bet on the outcome titled `title` of the offer `oid`: the event
/// recorded for the market, the first market of it with that id, the first outcome of it
/// with that title, and its fractional odds; none when one of them is missing.
pub open spec fn selection_of(events: Map<u32, Event>, markets: Map<u32, u32>, oid: OID, title: Seq<char>) -> Option<Selection> {
    let mid = oid as u32;
    if !markets.contains_key(mid) || !events.contains_key(markets[mid]) {
        None
    } else {
        let e = events[markets[mid]];
        let k = market_position(e.markets@, mid);
        if k >= e.markets@.len() {
            None
        } else {
            let m = e.markets@[k];
            let j = title_position(m.outcomes@, title);
            if j >= m.outcomes@.len() || m.outcomes@[j].price_num is None || m.outcomes@[j].price_den is None {
                None
            } else {
                Some(Selection {
                    event_id: e.event_id,
                    market_id: m.market_id,
                    outcome_id: m.outcomes@[j].outcome_id,
                    price_num: m.outcomes@[j].price_num->0,
                    price_den: m.outcomes@[j].price_den->0,
                })
            }
        }
    }
}

/// The position of the first outcome with a title.
fn find_title(os: &Vec<BetwayOutcome>, title: &str) -> (r: usize)
    ensures
        r == title_position(os@, title@),
        r <= os@.len(),
{
    let mut i: usize = 0;
    proof {
        assert(os@.skip(0) =~= os@);
    }
    while i < os.len()
        invariant
            i <= os@.len(),
            title_position(os@, title@) == i + title_position(os@.skip(i as int), title@),
        decreases os@.len() - i,
    {
        proof {
            assert(os@.skip(i as int).drop_first() =~= os@.skip(i + 1));
            assert(os@.skip(i as int)[0] == os@[i as int]);
        }
        let t = get_title(&os[i]);
        if str_eq(t.as_str(), title) {
            return i;
        }
        i = i + 1;
    }
    i
}

impl BetWayState {
    /// The selection of a bet on an outcome of an offer (see `selection_of`).
    pub fn selection(&self, oid: OID, title: &str) -> (r: Option<Selection>)
        ensures
            r == selection_of(self.events(), self.market_events(), oid, title@),
    {
        let mid = oid as u32;
        let event_id = match self.markets_to_events.get(&mid) {
            Some(e) => *e,
            None => {
                return None;
            },
        };
        let event = match self.events.get(&event_id) {
            Some(e) => e,
            None => {
                return None;
            },
        };
        let k = find_market(&event.markets, mid);
        if k == event.markets.len() {
            return None;
        }
        let market = &event.markets[k];
        let j = find_title(&market.outcomes, title);
        if j == market.outcomes.len() {
            return None;
        }
        let outcome = &market.outcomes[j];
        match (outcome.price_num, outcome.price_den) {
            (Some(num), Some(den)) => Some(Selection {
                event_id: event.event_id,
                market_id: market.market_id,
                outcome_id: outcome.outcome_id,
                price_num: num,
                price_den: den,
            }),
            _ => None,
        }
    }
}

} // verus!
