//! VitalBet: its matches with their preview market and odds, and the updates it sends
//! about odds, markets and matches.

use vstd::prelude::*;
use std::collections::HashMap;
use crate::markets::{Game, Kind, Offer, OfferView, Outcome, OutcomeView, OID, DRAW, is_draw, title_is_draw};
use crate::gamblers::{Message, MessageView, message_views, strptime_seconds, parse_time};
use crate::parse::{trim, trimmed, has_substring, contains};
use crate::text::str_eq;
use crate::error::SiteError;

verus! {

broadcast use vstd::std_specs::hash::group_hash_axioms;

/// An odd of a match: its id, whether it is suspended or visible, its value (odds in
/// thousandths) and its title.
#[derive(Debug)]
pub struct Odd {
    pub id: u32,
    pub is_suspended: bool,
    pub is_visible: bool,
    pub value: u32,
    pub title: String,
}

/// The preview market of a match: its id, its name (when given), and whether it is
/// active or suspended.
#[derive(Debug)]
pub struct Market {
    pub id: u32,
    pub name: Option<String>,
    pub is_active: bool,
    pub is_suspended: bool,
}

/// A match: its id, whether it is suspended, its date as written, its preview odds and
/// market, whether it is active or finished (when given), its sport type and category
/// names (when given).
#[derive(Debug)]
pub struct Event {
    pub id: u32,
    pub is_suspended: bool,
    pub date_of_match: String,
    pub preview_odds: Option<Vec<Odd>>,
    pub is_active: Option<bool>,
    pub is_finished: Option<bool>,
    pub sport_type: Option<String>,
    pub category: Option<String>,
    pub preview_market: Option<Market>,
}

/// The game of an eSports category.
pub open spec fn esports_category_game(name: Seq<char>) -> Option<Game> {
    if name == "League of Legends"@ {
        Some(Game::LeagueOfLegends)
    } else if name == "Heroes of the Storm"@ {
        Some(Game::HeroesOfTheStorm)
    } else if name == "Hearthstone"@ {
        Some(Game::Hearthstone)
    } else if name == "SMITE"@ {
        Some(Game::Smite)
    } else if name == "Counter-Strike: Global Offensive"@ {
        Some(Game::CounterStrike)
    } else if name == "Dota 2"@ {
        Some(Game::Dota2)
    } else if name == "Gears of War"@ {
        Some(Game::GearsOfWar)
    } else if name == "Starcraft"@ {
        Some(Game::StarCraft2)
    } else if name == "Overwatch"@ {
        Some(Game::Overwatch)
    } else if name == "Halo"@ {
        Some(Game::Halo)
    } else if name == "World of Tanks"@ {
        Some(Game::WorldOfTanks)
    } else if name == "Vainglory"@ {
        Some(Game::Vainglory)
    } else {
        None
    }
}

/// The game of a sport type (other than eSports).
pub open spec fn sport_type_game(name: Seq<char>) -> Option<Game> {
    if name == "Alpine Skiing"@ {
        Some(Game::AlpineSkiing)
    } else if name == "American Football"@ {
        Some(Game::AmericanFootball)
    } else if name == "Bandy"@ {
        Some(Game::Bandy)
    } else if name == "Badminton"@ {
        Some(Game::Badminton)
    } else if name == "Baseball"@ {
        Some(Game::Baseball)
    } else if name == "Darts"@ {
        Some(Game::Darts)
    } else if name == "Basketball"@ {
        Some(Game::Basketball)
    } else if name == "Boxing"@ {
        Some(Game::Boxing)
    } else if name == "Chess"@ {
        Some(Game::Chess)
    } else if name == "Formula 1"@ {
        Some(Game::Formula)
    } else if name == "Golf"@ {
        Some(Game::Golf)
    } else if name == "Handball"@ {
        Some(Game::Handball)
    } else if name == "Ice Hockey"@ {
        Some(Game::IceHockey)
    } else if name == "MMA"@ {
        Some(Game::MartialArts)
    } else if name == "Rugby Union"@ {
        Some(Game::Rugby)
    } else if name == "Ski Jumping"@ {
        Some(Game::SkiJumping)
    } else if name == "Snooker"@ {
        Some(Game::Snooker)
    } else if name == "Soccer"@ {
        Some(Game::Football)
    } else if name == "Football"@ {
        Some(Game::Football)
    } else if name == "Table Tennis"@ {
        Some(Game::TableTennis)
    } else if name == "Tennis"@ {
        Some(Game::Tennis)
    } else if name == "Volleyball"@ {
        Some(Game::Volleyball)
    } else {
        None
    }
}

/// The game of an eSports category.
fn esports_category_game_of(name: &str) -> (r: Option<Game>)
    ensures
        r == esports_category_game(name@),
{
    if str_eq(name, "League of Legends") {
        Some(Game::LeagueOfLegends)
    } else if str_eq(name, "Heroes of the Storm") {
        Some(Game::HeroesOfTheStorm)
    } else if str_eq(name, "Hearthstone") {
        Some(Game::Hearthstone)
    } else if str_eq(name, "SMITE") {
        Some(Game::Smite)
    } else if str_eq(name, "Counter-Strike: Global Offensive") {
        Some(Game::CounterStrike)
    } else if str_eq(name, "Dota 2") {
        Some(Game::Dota2)
    } else if str_eq(name, "Gears of War") {
        Some(Game::GearsOfWar)
    } else if str_eq(name, "Starcraft") {
        Some(Game::StarCraft2)
    } else if str_eq(name, "Overwatch") {
        Some(Game::Overwatch)
    } else if str_eq(name, "Halo") {
        Some(Game::Halo)
    } else if str_eq(name, "World of Tanks") {
        Some(Game::WorldOfTanks)
    } else if str_eq(name, "Vainglory") {
        Some(Game::Vainglory)
    } else {
        None
    }
}

/// The game of a sport type.
fn sport_type_game_of(name: &str) -> (r: Option<Game>)
    ensures
        r == sport_type_game(name@),
{
    if str_eq(name, "Alpine Skiing") {
        Some(Game::AlpineSkiing)
    } else if str_eq(name, "American Football") {
        Some(Game::AmericanFootball)
    } else if str_eq(name, "Bandy") {
        Some(Game::Bandy)
    } else if str_eq(name, "Badminton") {
        Some(Game::Badminton)
    } else if str_eq(name, "Baseball") {
        Some(Game::Baseball)
    } else if str_eq(name, "Darts") {
        Some(Game::Darts)
    } else if str_eq(name, "Basketball") {
        Some(Game::Basketball)
    } else if str_eq(name, "Boxing") {
        Some(Game::Boxing)
    } else if str_eq(name, "Chess") {
        Some(Game::Chess)
    } else if str_eq(name, "Formula 1") {
        Some(Game::Formula)
    } else if str_eq(name, "Golf") {
        Some(Game::Golf)
    } else if str_eq(name, "Handball") {
        Some(Game::Handball)
    } else if str_eq(name, "Ice Hockey") {
        Some(Game::IceHockey)
    } else if str_eq(name, "MMA") {
        Some(Game::MartialArts)
    } else if str_eq(name, "Rugby Union") {
        Some(Game::Rugby)
    } else if str_eq(name, "Ski Jumping") {
        Some(Game::SkiJumping)
    } else if str_eq(name, "Snooker") {
        Some(Game::Snooker)
    } else if str_eq(name, "Soccer") {
        Some(Game::Football)
    } else if str_eq(name, "Football") {
        Some(Game::Football)
    } else if str_eq(name, "Table Tennis") {
        Some(Game::TableTennis)
    } else if str_eq(name, "Tennis") {
        Some(Game::Tennis)
    } else if str_eq(name, "Volleyball") {
        Some(Game::Volleyball)
    } else {
        None
    }
}

/// The game of a match: by its sport type, and for eSports by its category; none
/// without both.
pub open spec fn event_game(e: Event) -> Option<Game> {
    match (e.sport_type, e.category) {
        (Some(s), Some(c)) => if s@ == "eSports"@ {
            esports_category_game(c@)
        } else {
            sport_type_game(s@)
        },
        _ => None,
    }
}

/// The game of a match (see `event_game`).
pub fn get_game(event: &Event) -> (r: Option<Game>)
    ensures
        r == event_game(*event),
{
    match (&event.sport_type, &event.category) {
        (Some(s), Some(c)) => if str_eq(s.as_str(), "eSports") {
            esports_category_game_of(c.as_str())
        } else {
            sport_type_game_of(s.as_str())
        },
        _ => None,
    }
}

/// The kind of market of a match: always a series.
pub fn get_kind(event: &Event) -> (r: Option<Kind>)
    ensures
        r == Some(Kind::Series),
{
    Some(Kind::Series)
}


/// Whether a market name is one of a winner market, once trimmed.
pub open spec fn winner_market(name: Seq<char>) -> bool {
    let t = trimmed(name);
    t == "Match Odds"@ || t == "Match Winner"@ || t == "Match Odds (3 Way)"@ || t == "Series Winner"@
}

/// Whether a match is open for bets: not suspended or finished, active (when told), and
/// of a known game.
pub open spec fn event_open(e: Event) -> bool {
    &&& !e.is_suspended
    &&& !(e.is_finished matches Some(f) && f)
    &&& !(e.is_active matches Some(a) && !a)
    &&& event_game(e) is Some
}

/// Whether reading the offer of a match looks at the name of its market: an open match
/// with an active market that is not suspended.
pub open spec fn reads_market_name(e: Event) -> bool {
    &&& event_open(e)
    &&& e.preview_market matches Some(m) && !m.is_suspended && m.is_active
}

/// The matches whose offer can be read: the market has a name when it is looked at.
pub open spec fn readable(e: Event) -> bool {
    reads_market_name(e) ==> e.preview_market->0.name is Some
}

/// Whether the odds of a match can be offered: at least two, none suspended or hidden.
pub open spec fn odds_open(odds: Seq<Odd>) -> bool {
    odds.len() >= 2 && forall|i: int| 0 <= i < odds.len() ==> !(#[trigger] odds[i]).is_suspended && odds[i].is_visible
}

/// The outcome of an odd: `Draw` is the draw.
pub open spec fn odd_outcome(o: Odd) -> OutcomeView {
    (if o.title@ == "Draw"@ { DRAW@ } else { o.title@ }, o.value)
}

/// The offer of a match: none unless it is open, its market is an active winner market
/// and its odds can be offered; an error when its date does not read.
pub open spec fn event_offer(e: Event) -> Result<Option<OfferView>, ()> {
    if !event_open(e) {
        Ok(None)
    } else {
        match e.preview_market {
            None => Ok(None),
            Some(m) => if m.is_suspended || !m.is_active || !winner_market(m.name->0@) {
                Ok(None)
            } else {
                match e.preview_odds {
                    None => Ok(None),
                    Some(odds) => if !odds_open(odds@) {
                        Ok(None)
                    } else {
                        match strptime_seconds(e.date_of_match@, "%Y-%m-%dT%H:%M:%S"@) {
                            None => Err(()),
                            Some(sec) => Ok(Some(OfferView {
                                oid: e.id as OID,
                                date: sec as u32,
                                game: event_game(e)->0,
                                kind: Kind::Series,
                                outcomes: odds@.map_values(|o: Odd| odd_outcome(o)),
                            })),
                        }
                    },
                }
            },
        }
    }
}

/// Reads the offer of a match (see `event_offer`).
pub fn create_offer(event: &Event) -> (r: Result<Option<Offer>, SiteError>)
    requires
        readable(*event),
    ensures
        match event_offer(*event) {
            Ok(Some(v)) => r matches Ok(Some(o)) && o@ == v,
            Ok(None) => r matches Ok(None),
            Err(_) => r is Err,
        },
{
    let game = get_game(event);
    let kind = get_kind(event);
    let finished = match event.is_finished {
        Some(f) => f,
        None => false,
    };
    let active = match event.is_active {
        Some(a) => a,
        None => true,
    };
    if event.is_suspended || finished || !active || game.is_none() || kind.is_none() {
        return Ok(None);
    }
    match &event.preview_market {
        Some(market) => {
            if market.is_suspended || !market.is_active {
                return Ok(None);
            }
            let name = match &market.name {
                Some(n) => trim(n.as_str()),
                None => {
                    return Ok(None);
                },
            };
            let n = name.as_str();
            if !(str_eq(n, "Match Odds") || str_eq(n, "Match Winner") || str_eq(n, "Match Odds (3 Way)")
                || str_eq(n, "Series Winner")) {
                return Ok(None);
            }
        },
        None => {
            return Ok(None);
        },
    }
    let odds = match &event.preview_odds {
        Some(odds) => odds,
        None => {
            return Ok(None);
        },
    };
    if odds.len() < 2 {
        return Ok(None);
    }
    let mut i: usize = 0;
    while i < odds.len()
        invariant
            i <= odds@.len(),
            odds@.len() >= 2,
            event_open(*event),
            event.preview_market matches Some(m) && !m.is_suspended && m.is_active && winner_market(m.name->0@),
            event.preview_odds == Some(*odds),
            forall|k: int| 0 <= k < i ==> !(#[trigger] odds@[k]).is_suspended && odds@[k].is_visible,
        decreases odds@.len() - i,
    {
        if odds[i].is_suspended || !odds[i].is_visible {
            return Ok(None);
        }
        i = i + 1;
    }
    let mut outcomes: Vec<Outcome> = Vec::new();
    let mut i: usize = 0;
    while i < odds.len()
        invariant
            i <= odds@.len(),
            outcomes@.len() == i,
            forall|k: int| 0 <= k < i ==> (#[trigger] outcomes@[k])@ == odd_outcome(odds@[k]),
        decreases odds@.len() - i,
    {
        let title = if str_eq(odds[i].title.as_str(), "Draw") { DRAW.to_string() } else { odds[i].title.clone() };
        outcomes.push(Outcome(title, odds[i].value));
        i = i + 1;
    }
    let sec = match parse_time(event.date_of_match.as_str(), "%Y-%m-%dT%H:%M:%S") {
        Some(sec) => sec,
        None => {
            return Err(SiteError::Unexpected("invalid date of match".to_string()));
        },
    };
    let offer = Offer {
        oid: event.id as OID,
        date: sec as u32,
        game: game.unwrap(),
        kind: kind.unwrap(),
        outcomes,
    };
    proof {
        let v = event_offer(*event)->Ok_0->0;
        assert(offer@.outcomes =~= v.outcomes);
    }
    Ok(Some(offer))
}


/// A change of an odd: its value (thousandths) and whether it is suspended or visible.
#[derive(Debug)]
pub struct OddUpdate {
    pub id: u32,
    pub value: u32,
    pub is_suspended: bool,
    pub is_visible: bool,
}

/// A change of an odd before the match: its id, value (thousandths) and status (1 active,
/// 3 suspended).
#[derive(Debug)]
pub struct PrematchOddUpdate(pub u32, pub u32, pub i32);

/// A change of a market before the match: its id and status.
#[derive(Debug)]
pub struct PrematchMarketUpdate(pub u32, pub i32);

/// A change of a match before it starts: its id, status and start (Unix seconds).
#[derive(Debug)]
pub struct PrematchMatchUpdate(pub u32, pub i32, pub i64);

/// What a change of a match sets: whether it is suspended, active and finished.
#[derive(Debug)]
pub struct EventFlags {
    pub id: u32,
    pub is_suspended: bool,
    pub is_active: Option<bool>,
    pub is_finished: Option<bool>,
}

/// A change the site sends.
#[derive(Debug)]
pub enum Update {
    OddUpdate(OddUpdate),
    Market(Market),
    Event(Event),
    PrematchOddUpdate(PrematchOddUpdate),
    PrematchMarketUpdate(PrematchMarketUpdate),
    PrematchMatchUpdate(PrematchMatchUpdate),
}

/// A message of the site: batches of changes of one sort, or something not followed.
#[derive(Debug)]
pub enum PollingMessage {
    OddsUpdateMessage(Vec<Vec<OddUpdate>>),
    MatchesUpdateMessage(Vec<Vec<Event>>),
    MarketsUpdateMessage(Vec<Vec<Market>>),
    PrematchMatchesUpdateMessage(Vec<Vec<PrematchMatchUpdate>>),
    PrematchOddsUpdateMessage(Vec<Vec<PrematchOddUpdate>>),
    PrematchMarketsUpdateMessage(Vec<Vec<PrematchMarketUpdate>>),
    UnsupportedUpdateMessage(String),
}

/// The kind of a message the site pushes, by the name in its `M` field; an unsupported
/// kind keeps the text it is reported with.
#[derive(Debug)]
pub enum PollingKind {
    OddsUpdated,
    MarketsUpdated,
    MatchesUpdated,
    PrematchOddsUpdated,
    PrematchMarketsUpdated,
    PrematchMatchesUpdated,
    Unsupported(String),
}

/// Whether a kind is the one a message name stands for: one of the six kinds of change,
/// or unsupported with the name as its text.
pub open spec fn kind_named_as(k: PollingKind, name: Seq<char>) -> bool {
    if name == "oddsUpdated"@ {
        k is OddsUpdated
    } else if name == "marketsUpdated"@ {
        k is MarketsUpdated
    } else if name == "matchesUpdated"@ {
        k is MatchesUpdated
    } else if name == "prematchOddsUpdated"@ {
        k is PrematchOddsUpdated
    } else if name == "prematchMarketsUpdated"@ {
        k is PrematchMarketsUpdated
    } else if name == "prematchMatchesUpdated"@ {
        k is PrematchMatchesUpdated
    } else {
        k matches PollingKind::Unsupported(t) && t@ == name
    }
}

/// The kind a message name stands for (see `kind_named_as`).
pub fn kind_named(name: &str) -> (k: PollingKind)
    ensures
        kind_named_as(k, name@),
{
    if str_eq(name, "oddsUpdated") {
        PollingKind::OddsUpdated
    } else if str_eq(name, "marketsUpdated") {
        PollingKind::MarketsUpdated
    } else if str_eq(name, "matchesUpdated") {
        PollingKind::MatchesUpdated
    } else if str_eq(name, "prematchOddsUpdated") {
        PollingKind::PrematchOddsUpdated
    } else if str_eq(name, "prematchMarketsUpdated") {
        PollingKind::PrematchMarketsUpdated
    } else if str_eq(name, "prematchMatchesUpdated") {
        PollingKind::PrematchMatchesUpdated
    } else {
        PollingKind::Unsupported(name.to_owned())
    }
}

/// The kind of a message by its `M` field, which it must have: given as `Some` of its text
/// when it is a string, `None` otherwise. A string is answered as unsupported ("Even no
/// M"), and a field that is not a string as the name "No update type".
pub fn polling_kind(m: Option<&str>) -> (k: PollingKind)
    ensures
        match m {
            Some(_) => k matches PollingKind::Unsupported(t) && t@ == "Even no M"@,
            None => kind_named_as(k, "No update type"@),
        },
{
    match m {
        Some(_) => PollingKind::Unsupported("Even no M".to_owned()),
        None => kind_named("No update type"),
    }
}

/// A change of an odd before the match as an odd change: status 3 is suspended, and
/// 1 or 3 visible.
pub fn convert_prematch_odd_update(update: &PrematchOddUpdate) -> (r: OddUpdate)
    ensures
        r.id == update.0,
        r.value == update.1,
        r.is_suspended == (update.2 == 3),
        r.is_visible == (update.2 == 1 || update.2 == 3),
{
    OddUpdate { id: update.0, value: update.1, is_suspended: update.2 == 3, is_visible: update.2 == 1 || update.2 == 3 }
}

/// A change of a market before the match as a market change: status 3 is suspended, and
/// 1 or 3 active.
pub fn convert_prematch_market_update(update: &PrematchMarketUpdate) -> (r: Market)
    ensures
        r.id == update.0,
        r.is_suspended == (update.1 == 3),
        r.is_active == (update.1 == 1 || update.1 == 3),
        r.name is None,
{
    Market { id: update.0, name: None, is_active: update.1 == 1 || update.1 == 3, is_suspended: update.1 == 3 }
}

/// A change of a match before it starts as what it sets: status 3 is suspended; nothing
/// is told of activity or end (its start is not used).
pub fn convert_prematch_match_update(update: &PrematchMatchUpdate) -> (r: EventFlags)
    ensures
        r.id == update.0,
        r.is_suspended == (update.1 == 3),
        r.is_active is None,
        r.is_finished is None,
{
    EventFlags { id: update.0, is_suspended: update.1 == 3, is_active: None, is_finished: None }
}

/// What a full match sent as a change sets.
pub fn flags_of(event: &Event) -> (r: EventFlags)
    ensures
        r.id == event.id,
        r.is_suspended == event.is_suspended,
        r.is_active == event.is_active,
        r.is_finished == event.is_finished,
{
    EventFlags { id: event.id, is_suspended: event.is_suspended, is_active: event.is_active, is_finished: event.is_finished }
}

/// The position of the first odd with an id, or the number of odds.
pub open spec fn odd_position(odds: Seq<Odd>, id: u32) -> int
    decreases odds.len(),
{
    if odds.len() == 0 || odds[0].id == id {
        0
    } else {
        1 + odd_position(odds.drop_first(), id)
    }
}

/// Every field of two matches but the odds is the same.
pub open spec fn same_but_odds(a: Event, b: Event) -> bool {
    &&& a.id == b.id
    &&& a.is_suspended == b.is_suspended
    &&& a.date_of_match == b.date_of_match
    &&& a.is_active == b.is_active
    &&& a.is_finished == b.is_finished
    &&& a.sport_type == b.sport_type
    &&& a.category == b.category
    &&& a.preview_market == b.preview_market
}

/// Applies a change of an odd to a match: the first odd with its id takes its value and
/// status. Returns whether there was such an odd.
pub fn apply_odd_update(event: &mut Event, update: &OddUpdate) -> (r: bool)
    ensures
        same_but_odds(*final(event), *old(event)),
        match old(event).preview_odds {
            Some(odds) => {
                let k = odd_position(odds@, update.id);
                if k < odds@.len() {
                    &&& r
                    &&& final(event).preview_odds matches Some(n) && n@ == odds@.update(k, Odd {
                        value: update.value,
                        is_suspended: update.is_suspended,
                        is_visible: update.is_visible,
                        ..odds@[k]
                    })
                } else {
                    !r && final(event).preview_odds == old(event).preview_odds
                }
            },
            None => !r && final(event).preview_odds is None,
        },
{
    match &mut event.preview_odds {
        Some(odds) => {
            let mut i: usize = 0;
            proof {
                assert(odds@.skip(0) =~= odds@);
            }
            while i < odds.len() && odds[i].id != update.id
                invariant
                    i <= odds@.len(),
                    odd_position(odds@, update.id) == i + odd_position(odds@.skip(i as int), update.id),
                decreases odds@.len() - i,
            {
                proof {
                    assert(odds@.skip(i as int).drop_first() =~= odds@.skip(i + 1));
                    assert(odds@.skip(i as int)[0] == odds@[i as int]);
                }
                i = i + 1;
            }
            if i == odds.len() {
                return false;
            }
            proof {
                assert(odds@.skip(i as int)[0] == odds@[i as int]);
            }
            odds[i].value = update.value;
            odds[i].is_suspended = update.is_suspended;
            odds[i].is_visible = update.is_visible;
            true
        },
        None => false,
    }
}

/// Applies a change of a market to a match: its preview market takes the change's status.
/// Returns whether the match has a preview market.
pub fn apply_market_update(event: &mut Event, update: &Market) -> (r: bool)
    ensures
        r == old(event).preview_market is Some,
        final(event).preview_market == match old(event).preview_market {
            Some(m) => Some(Market { is_suspended: update.is_suspended, is_active: update.is_active, ..m }),
            None => None,
        },
        final(event).id == old(event).id,
        final(event).is_suspended == old(event).is_suspended,
        final(event).date_of_match == old(event).date_of_match,
        final(event).preview_odds == old(event).preview_odds,
        final(event).is_active == old(event).is_active,
        final(event).is_finished == old(event).is_finished,
        final(event).sport_type == old(event).sport_type,
        final(event).category == old(event).category,
{
    match &mut event.preview_market {
        Some(market) => {
            market.is_suspended = update.is_suspended;
            market.is_active = update.is_active;
            true
        },
        None => false,
    }
}

/// Applies a change of a match: it takes the change's suspension and activity, and its
/// end when told. Always a change.
pub fn apply_event_update(event: &mut Event, update: &EventFlags) -> (r: bool)
    ensures
        r,
        final(event).is_suspended == update.is_suspended,
        final(event).is_active == update.is_active,
        final(event).is_finished == match update.is_finished {
            Some(f) => Some(f),
            None => old(event).is_finished,
        },
        final(event).id == old(event).id,
        final(event).date_of_match == old(event).date_of_match,
        final(event).preview_odds == old(event).preview_odds,
        final(event).preview_market == old(event).preview_market,
        final(event).sport_type == old(event).sport_type,
        final(event).category == old(event).category,
{
    event.is_suspended = update.is_suspended;
    event.is_active = update.is_active;
    event.is_finished = match update.is_finished {
        Some(f) => Some(f),
        None => event.is_finished,
    };
    true
}

/// Whether a match after a change of an odd is the match before it with the odd changed.
pub open spec fn odd_changed(a: Event, b: Event, id: u32, value: u32, is_suspended: bool, is_visible: bool, r: bool) -> bool {
    &&& same_but_odds(b, a)
    &&& match a.preview_odds {
        Some(odds) => {
            let k = odd_position(odds@, id);
            if k < odds@.len() {
                &&& r
                &&& b.preview_odds matches Some(n) && n@ == odds@.update(k, Odd { value, is_suspended, is_visible, ..odds@[k] })
            } else {
                !r && b.preview_odds == a.preview_odds
            }
        },
        None => !r && b.preview_odds is None,
    }
}

/// Whether a match after a change of its market is the match before it with the market
/// changed.
pub open spec fn market_changed(a: Event, b: Event, is_suspended: bool, is_active: bool, r: bool) -> bool {
    &&& r == a.preview_market is Some
    &&& b.preview_market == match a.preview_market {
        Some(m) => Some(Market { is_suspended, is_active, ..m }),
        None => None,
    }
    &&& b.id == a.id && b.is_suspended == a.is_suspended && b.date_of_match == a.date_of_match
    &&& b.preview_odds == a.preview_odds && b.is_active == a.is_active && b.is_finished == a.is_finished
    &&& b.sport_type == a.sport_type && b.category == a.category
}

/// Whether a match after a change of it is the match before it with the flags set.
pub open spec fn flags_changed(a: Event, b: Event, is_suspended: bool, is_active: Option<bool>, is_finished: Option<bool>, r: bool) -> bool {
    &&& r
    &&& b.is_suspended == is_suspended && b.is_active == is_active
    &&& b.is_finished == match is_finished {
        Some(f) => Some(f),
        None => a.is_finished,
    }
    &&& b.id == a.id && b.date_of_match == a.date_of_match && b.preview_odds == a.preview_odds
    &&& b.preview_market == a.preview_market && b.sport_type == a.sport_type && b.category == a.category
}

/// Whether `b` is match `a` after a change, `r` telling whether it changed.
pub open spec fn updated(a: Event, b: Event, u: Update, r: bool) -> bool {
    match u {
        Update::OddUpdate(o) => odd_changed(a, b, o.id, o.value, o.is_suspended, o.is_visible, r),
        Update::Market(m) => market_changed(a, b, m.is_suspended, m.is_active, r),
        Update::Event(e) => flags_changed(a, b, e.is_suspended, e.is_active, e.is_finished, r),
        Update::PrematchOddUpdate(o) => odd_changed(a, b, o.0, o.1, o.2 == 3, o.2 == 1 || o.2 == 3, r),
        Update::PrematchMarketUpdate(m) => market_changed(a, b, m.1 == 3, m.1 == 1 || m.1 == 3, r),
        Update::PrematchMatchUpdate(e) => flags_changed(a, b, e.1 == 3, None, None, r),
    }
}

/// Applies a change to a match (see the kinds of change). Returns whether the match
/// changed.
pub fn apply_update(event: &mut Event, update: &Update) -> (r: bool)
    ensures
        updated(*old(event), *final(event), *update, r),
{
    match update {
        Update::OddUpdate(u) => apply_odd_update(event, u),
        Update::Market(u) => apply_market_update(event, u),
        Update::Event(u) => apply_event_update(event, &flags_of(u)),
        Update::PrematchOddUpdate(u) => apply_odd_update(event, &convert_prematch_odd_update(u)),
        Update::PrematchMarketUpdate(u) => apply_market_update(event, &convert_prematch_market_update(u)),
        Update::PrematchMatchUpdate(u) => apply_event_update(event, &convert_prematch_match_update(u)),
    }
}

/// The items of some batches, in order.
fn flatten_vecs<T>(batches: Vec<Vec<T>>) -> (r: Vec<T>)
    ensures
        r@ == batches@.map_values(|v: Vec<T>| v@).flatten(),
{
    let mut batches = batches;
    let mut r: Vec<T> = Vec::new();
    let ghost all = batches@.map_values(|v: Vec<T>| v@).flatten();
    proof {
        assert(r@ + batches@.map_values(|v: Vec<T>| v@).flatten() =~= all);
    }
    while batches.len() > 0
        invariant
            r@ + batches@.map_values(|v: Vec<T>| v@).flatten() == all,
        decreases batches@.len(),
    {
        let ghost before = batches@;
        let mut batch = batches.remove(0);
        proof {
            assert(before.map_values(|v: Vec<T>| v@).drop_first() =~= batches@.map_values(|v: Vec<T>| v@));
            assert(before.map_values(|v: Vec<T>| v@)[0] == batch@);
        }
        let ghost rest = batches@.map_values(|v: Vec<T>| v@).flatten();
        while batch.len() > 0
            invariant
                r@ + batch@ + rest == all,
            decreases batch@.len(),
        {
            let ghost b = batch@;
            let item = batch.remove(0);
            proof {
                assert(b == seq![item] + batch@);
            }
            r.push(item);
            proof {
                assert(r@ + batch@ + rest =~= all) by {
                    assert(r@ + batch@ =~= r@.drop_last() + b);
                }
            }
        }
        proof {
            assert(r@ + batch@ =~= r@);
        }
    }
    proof {
        assert(batches@.map_values(|v: Vec<T>| v@) =~= Seq::<Seq<T>>::empty());
        assert(r@ + Seq::<T>::empty() =~= r@);
    }
    r
}


/// The changes a message carries, in order.
pub open spec fn message_updates(m: PollingMessage) -> Seq<Update> {
    match m {
        PollingMessage::OddsUpdateMessage(a) => a@.map_values(|v: Vec<OddUpdate>| v@).flatten().map_values(|u: OddUpdate| Update::OddUpdate(u)),
        PollingMessage::MatchesUpdateMessage(a) => a@.map_values(|v: Vec<Event>| v@).flatten().map_values(|u: Event| Update::Event(u)),
        PollingMessage::MarketsUpdateMessage(a) => a@.map_values(|v: Vec<Market>| v@).flatten().map_values(|u: Market| Update::Market(u)),
        PollingMessage::PrematchMatchesUpdateMessage(a) => a@.map_values(|v: Vec<PrematchMatchUpdate>| v@).flatten().map_values(|u: PrematchMatchUpdate| Update::PrematchMatchUpdate(u)),
        PollingMessage::PrematchOddsUpdateMessage(a) => a@.map_values(|v: Vec<PrematchOddUpdate>| v@).flatten().map_values(|u: PrematchOddUpdate| Update::PrematchOddUpdate(u)),
        PollingMessage::PrematchMarketsUpdateMessage(a) => a@.map_values(|v: Vec<PrematchMarketUpdate>| v@).flatten().map_values(|u: PrematchMarketUpdate| Update::PrematchMarketUpdate(u)),
        PollingMessage::UnsupportedUpdateMessage(_) => Seq::empty(),
    }
}

/// The changes some messages carry, in order.
pub open spec fn all_updates(ms: Seq<PollingMessage>) -> Seq<Update> {
    ms.map_values(|m: PollingMessage| message_updates(m)).flatten()
}

/// The changes some messages carry, in order, as one list.
pub fn flatten_updates(messages: Vec<PollingMessage>) -> (r: Vec<Update>)
    ensures
        r@ == all_updates(messages@),
{
    let ghost goal = all_updates(messages@);
    let mut messages = messages;
    let mut updates: Vec<Update> = Vec::new();
    proof {
        assert(updates@ + all_updates(messages@) =~= goal);
    }
    while messages.len() > 0
        invariant
            updates@ + all_updates(messages@) == goal,
        decreases messages@.len(),
    {
        let ghost before = messages@;
        let msg = messages.remove(0);
        let ghost start = updates@;
        proof {
            assert(before.map_values(|m: PollingMessage| message_updates(m)).drop_first()
                =~= messages@.map_values(|m: PollingMessage| message_updates(m)));
            assert(before.map_values(|m: PollingMessage| message_updates(m))[0] == message_updates(msg));
            assert(all_updates(before) == message_updates(msg) + all_updates(messages@));
        }
        let ghost wanted = message_updates(msg);
        match msg {
            PollingMessage::OddsUpdateMessage(a) => {
                let items = flatten_vecs(a);
                let ghost flat = items@;
                let mut items = items;
                while items.len() > 0
                    invariant
                        updates@ + items@.map_values(|u: OddUpdate| Update::OddUpdate(u)) == start + flat.map_values(|u: OddUpdate| Update::OddUpdate(u)),
                    decreases items@.len(),
                {
                    let ghost before = items@;
                    let item = items.remove(0);
                    updates.push(Update::OddUpdate(item));
                    proof {
                        assert(before.map_values(|u: OddUpdate| Update::OddUpdate(u)) =~= seq![Update::OddUpdate(item)] + items@.map_values(|u: OddUpdate| Update::OddUpdate(u)));
                        assert(updates@ + items@.map_values(|u: OddUpdate| Update::OddUpdate(u)) =~= start + flat.map_values(|u: OddUpdate| Update::OddUpdate(u)));
                    }
                }
                proof {
                    assert(updates@ =~= start + flat.map_values(|u: OddUpdate| Update::OddUpdate(u)));
                }
            },
            PollingMessage::MatchesUpdateMessage(a) => {
                let items = flatten_vecs(a);
                let ghost flat = items@;
                let mut items = items;
                while items.len() > 0
                    invariant
                        updates@ + items@.map_values(|u: Event| Update::Event(u)) == start + flat.map_values(|u: Event| Update::Event(u)),
                    decreases items@.len(),
                {
                    let ghost before = items@;
                    let item = items.remove(0);
                    updates.push(Update::Event(item));
                    proof {
                        assert(before.map_values(|u: Event| Update::Event(u)) =~= seq![Update::Event(item)] + items@.map_values(|u: Event| Update::Event(u)));
                        assert(updates@ + items@.map_values(|u: Event| Update::Event(u)) =~= start + flat.map_values(|u: Event| Update::Event(u)));
                    }
                }
                proof {
                    assert(updates@ =~= start + flat.map_values(|u: Event| Update::Event(u)));
                }
            },
            PollingMessage::MarketsUpdateMessage(a) => {
                let items = flatten_vecs(a);
                let ghost flat = items@;
                let mut items = items;
                while items.len() > 0
                    invariant
                        updates@ + items@.map_values(|u: Market| Update::Market(u)) == start + flat.map_values(|u: Market| Update::Market(u)),
                    decreases items@.len(),
                {
                    let ghost before = items@;
                    let item = items.remove(0);
                    updates.push(Update::Market(item));
                    proof {
                        assert(before.map_values(|u: Market| Update::Market(u)) =~= seq![Update::Market(item)] + items@.map_values(|u: Market| Update::Market(u)));
                        assert(updates@ + items@.map_values(|u: Market| Update::Market(u)) =~= start + flat.map_values(|u: Market| Update::Market(u)));
                    }
                }
                proof {
                    assert(updates@ =~= start + flat.map_values(|u: Market| Update::Market(u)));
                }
            },
            PollingMessage::PrematchMatchesUpdateMessage(a) => {
                let items = flatten_vecs(a);
                let ghost flat = items@;
                let mut items = items;
                while items.len() > 0
                    invariant
                        updates@ + items@.map_values(|u: PrematchMatchUpdate| Update::PrematchMatchUpdate(u)) == start + flat.map_values(|u: PrematchMatchUpdate| Update::PrematchMatchUpdate(u)),
                    decreases items@.len(),
                {
                    let ghost before = items@;
                    let item = items.remove(0);
                    updates.push(Update::PrematchMatchUpdate(item));
                    proof {
                        assert(before.map_values(|u: PrematchMatchUpdate| Update::PrematchMatchUpdate(u)) =~= seq![Update::PrematchMatchUpdate(item)] + items@.map_values(|u: PrematchMatchUpdate| Update::PrematchMatchUpdate(u)));
                        assert(updates@ + items@.map_values(|u: PrematchMatchUpdate| Update::PrematchMatchUpdate(u)) =~= start + flat.map_values(|u: PrematchMatchUpdate| Update::PrematchMatchUpdate(u)));
                    }
                }
                proof {
                    assert(updates@ =~= start + flat.map_values(|u: PrematchMatchUpdate| Update::PrematchMatchUpdate(u)));
                }
            },
            PollingMessage::PrematchOddsUpdateMessage(a) => {
                let items = flatten_vecs(a);
                let ghost flat = items@;
                let mut items = items;
                while items.len() > 0
                    invariant
                        updates@ + items@.map_values(|u: PrematchOddUpdate| Update::PrematchOddUpdate(u)) == start + flat.map_values(|u: PrematchOddUpdate| Update::PrematchOddUpdate(u)),
                    decreases items@.len(),
                {
                    let ghost before = items@;
                    let item = items.remove(0);
                    updates.push(Update::PrematchOddUpdate(item));
                    proof {
                        assert(before.map_values(|u: PrematchOddUpdate| Update::PrematchOddUpdate(u)) =~= seq![Update::PrematchOddUpdate(item)] + items@.map_values(|u: PrematchOddUpdate| Update::PrematchOddUpdate(u)));
                        assert(updates@ + items@.map_values(|u: PrematchOddUpdate| Update::PrematchOddUpdate(u)) =~= start + flat.map_values(|u: PrematchOddUpdate| Update::PrematchOddUpdate(u)));
                    }
                }
                proof {
                    assert(updates@ =~= start + flat.map_values(|u: PrematchOddUpdate| Update::PrematchOddUpdate(u)));
                }
            },
            PollingMessage::PrematchMarketsUpdateMessage(a) => {
                let items = flatten_vecs(a);
                let ghost flat = items@;
                let mut items = items;
                while items.len() > 0
                    invariant
                        updates@ + items@.map_values(|u: PrematchMarketUpdate| Update::PrematchMarketUpdate(u)) == start + flat.map_values(|u: PrematchMarketUpdate| Update::PrematchMarketUpdate(u)),
                    decreases items@.len(),
                {
                    let ghost before = items@;
                    let item = items.remove(0);
                    updates.push(Update::PrematchMarketUpdate(item));
                    proof {
                        assert(before.map_values(|u: PrematchMarketUpdate| Update::PrematchMarketUpdate(u)) =~= seq![Update::PrematchMarketUpdate(item)] + items@.map_values(|u: PrematchMarketUpdate| Update::PrematchMarketUpdate(u)));
                        assert(updates@ + items@.map_values(|u: PrematchMarketUpdate| Update::PrematchMarketUpdate(u)) =~= start + flat.map_values(|u: PrematchMarketUpdate| Update::PrematchMarketUpdate(u)));
                    }
                }
                proof {
                    assert(updates@ =~= start + flat.map_values(|u: PrematchMarketUpdate| Update::PrematchMarketUpdate(u)));
                }
            },
            PollingMessage::UnsupportedUpdateMessage(_) => {
                proof {
                    assert(updates@ =~= start + Seq::<Update>::empty());
                }
            },
        }
        proof {
            assert(updates@ == start + wanted);
            assert(updates@ + all_updates(messages@) =~= start + (wanted + all_updates(messages@)));
        }
    }
    proof {
        assert(messages@.map_values(|m: PollingMessage| message_updates(m)) =~= Seq::<Seq<Update>>::empty());
        assert(updates@ + Seq::<Update>::empty() =~= updates@);
    }
    updates
}


/// Whether the offer of a match can be read (see `readable`).
pub fn is_readable(event: &Event) -> (r: bool)
    ensures
        r == readable(*event),
{
    let finished = match event.is_finished {
        Some(f) => f,
        None => false,
    };
    let active = match event.is_active {
        Some(a) => a,
        None => true,
    };
    if event.is_suspended || finished || !active || get_game(event).is_none() {
        return true;
    }
    match &event.preview_market {
        Some(m) => m.is_suspended || !m.is_active || m.name.is_some(),
        None => true,
    }
}

/// Whether the offers of the first `i` matches of a look read.
pub open spec fn offers_read(es: Seq<Event>, i: int) -> bool {
    forall|k: int| 0 <= k < i ==> (#[trigger] event_offer(es[k])) is Ok
}

/// Whether every match of a look whose offer is read, each before it having read, can be
/// read.
pub open spec fn look_readable(es: Seq<Event>) -> bool {
    forall|i: int| 0 <= i < es.len() && offers_read(es, i) ==> readable(#[trigger] es[i])
}

/// The maps from odds to matches after recording the odds of a match.
pub open spec fn odds_recorded(m: Map<u32, u32>, odds: Seq<Odd>, id: u32) -> Map<u32, u32>
    decreases odds.len(),
{
    if odds.len() == 0 {
        m
    } else {
        odds_recorded(m, odds.drop_last(), id).insert(odds.last().id, id)
    }
}

/// What the watcher of the site keeps in plain values: the match of each odd and market,
/// and the matches by id.
pub struct VitalView {
    pub odds: Map<u32, u32>,
    pub markets: Map<u32, u32>,
    pub events: Map<u32, Event>,
}

/// What taking in a match of a fresh look does: its offer is reported, and it is recorded
/// with the match of its odds and market; a match whose offer does not read stops the look.
pub open spec fn take_event(s: VitalView, e: Event) -> (VitalView, Option<MessageView>, bool) {
    match event_offer(e) {
        Err(_) => (s, None, false),
        Ok(o) => (
            VitalView {
                odds: match e.preview_odds {
                    Some(odds) => odds_recorded(s.odds, odds@, e.id),
                    None => s.odds,
                },
                markets: match e.preview_market {
                    Some(m) => s.markets.insert(m.id, e.id),
                    None => s.markets,
                },
                events: s.events.insert(e.id, e),
            },
            match o {
                Some(v) => Some(MessageView::Upsert(v)),
                None => None,
            },
            true,
        ),
    }
}

/// What taking in the matches of a fresh look does: each in turn, until one fails.
pub open spec fn take_events(s: VitalView, es: Seq<Event>) -> (VitalView, Seq<MessageView>, bool)
    decreases es.len(),
{
    if es.len() == 0 {
        (s, Seq::empty(), true)
    } else {
        let (s1, ms, ok) = take_events(s, es.drop_last());
        if !ok {
            (s1, ms, false)
        } else {
            let (s2, m, ok2) = take_event(s1, es.last());
            (s2, match m {
                Some(x) => ms.push(x),
                None => ms,
            }, ok2)
        }
    }
}

proof fn lemma_take_events_stop(s: VitalView, es: Seq<Event>, n: int)
    requires
        0 <= n <= es.len(),
        !take_events(s, es.take(n)).2,
    ensures
        take_events(s, es) == take_events(s, es.take(n)),
    decreases es.len() - n,
{
    if n < es.len() {
        assert(es.take(n + 1).drop_last() =~= es.take(n));
        lemma_take_events_stop(s, es, n + 1);
    } else {
        assert(es.take(n) =~= es);
    }
}

/// The match a change is about: by the match of its odd or market, or by its own id
/// (a change of an odd before the match gives the match's id).
pub open spec fn update_target(s: VitalView, u: Update) -> Option<u32> {
    match u {
        Update::OddUpdate(o) => if s.odds.contains_key(o.id) { Some(s.odds[o.id]) } else { None },
        Update::Market(m) => if s.markets.contains_key(m.id) { Some(s.markets[m.id]) } else { None },
        Update::Event(e) => Some(e.id),
        Update::PrematchOddUpdate(o) => Some(o.0),
        Update::PrematchMarketUpdate(m) => if s.markets.contains_key(m.0) { Some(s.markets[m.0]) } else { None },
        Update::PrematchMatchUpdate(e) => Some(e.0),
    }
}

/// What the watcher of the site keeps: the match of each odd and market, and the matches.
pub struct VitalState {
    odds_to_events: HashMap<u32, u32>,
    markets_to_events: HashMap<u32, u32>,
    events: HashMap<u32, Event>,
}

impl View for VitalState {
    type V = VitalView;

    closed spec fn view(&self) -> VitalView {
        VitalView { odds: self.odds_to_events@, markets: self.markets_to_events@, events: self.events@ }
    }
}

/// Whether a change, when it changes the kept match it is about, leaves that match
/// readable.
pub open spec fn change_readable(s: VitalView, u: Update) -> bool {
    match update_target(s, u) {
        Some(t) => s.events.contains_key(t) ==> forall|b: Event|
            #[trigger] updated(s.events[t], b, u, true) ==> readable(b),
        None => true,
    }
}

/// The view of a report, when there is one.
pub open spec fn report_view(m: Option<Message>) -> Option<MessageView> {
    match m {
        Some(x) => Some(x@),
        None => None,
    }
}

impl VitalState {
    /// Nothing seen yet.
    pub fn new() -> (s: VitalState)
        ensures
            s@.odds == Map::<u32, u32>::empty(),
            s@.markets == Map::<u32, u32>::empty(),
            s@.events == Map::<u32, Event>::empty(),
    {
        VitalState { odds_to_events: HashMap::new(), markets_to_events: HashMap::new(), events: HashMap::new() }
    }

    /// Forgets the match of each odd and market, as a fresh look starts.
    pub fn forget_links(&mut self)
        ensures
            final(self)@ == (VitalView { odds: Map::empty(), markets: Map::empty(), events: old(self)@.events }),
    {
        self.odds_to_events = HashMap::new();
        self.markets_to_events = HashMap::new();
    }

    /// Takes in a match of a fresh look (see `take_event`). Returns the report, and the
    /// error of a match whose offer does not read.
    pub fn take_in(&mut self, event: Event) -> (r: (Option<Message>, Option<SiteError>))
        requires
            readable(event),
        ensures
            take_event(old(self)@, event) == (final(self)@, report_view(r.0), r.1 is None),
    {
        let ghost before = self@;
        let message = match create_offer(&event) {
            Err(e) => {
                return (None, Some(e));
            },
            Ok(Some(o)) => Some(Message::Upsert(o)),
            Ok(None) => None,
        };
        match &event.preview_odds {
            Some(odds) => {
                let ghost start = self.odds_to_events@;
                let mut j: usize = 0;
                proof {
                    assert(odds@.take(0) =~= Seq::<Odd>::empty());
                }
                while j < odds.len()
                    invariant
                        j <= odds@.len(),
                        self.odds_to_events@ == odds_recorded(start, odds@.take(j as int), event.id),
                        self.markets_to_events@ == before.markets,
                        self.events@ == before.events,
                    decreases odds@.len() - j,
                {
                    self.odds_to_events.insert(odds[j].id, event.id);
                    proof {
                        let t = odds@.take(j + 1);
                        assert(t.drop_last() =~= odds@.take(j as int));
                        assert(t.last() == odds@[j as int]);
                    }
                    j = j + 1;
                }
                proof {
                    assert(odds@.take(odds@.len() as int) =~= odds@);
                }
            },
            None => {},
        }
        match &event.preview_market {
            Some(m) => {
                self.markets_to_events.insert(m.id, event.id);
            },
            None => {},
        }
        let id = event.id;
        self.events.insert(id, event);
        (message, None)
    }

    /// Takes in a fresh look at the matches: forgets the match of each odd and market,
    /// then takes in each match (see `take_events`). Returns the reports and the error
    /// that stopped it.
    pub fn reset(&mut self, events: Vec<Event>) -> (r: (Vec<Message>, Option<SiteError>))
        requires
            look_readable(events@),
        ensures
            take_events(
                (VitalView { odds: Map::empty(), markets: Map::empty(), events: old(self)@.events }),
                events@,
            ) == (final(self)@, message_views(r.0@), r.1 is None),
    {
        self.forget_links();
        let ghost s0 = self@;
        let ghost es = events@;
        let mut pending = events;
        let mut messages: Vec<Message> = Vec::new();
        let mut i: usize = 0;
        proof {
            assert(es.len() == pending.len());
            assert(es.take(0) =~= Seq::<Event>::empty());
        }
        while pending.len() > 0
            invariant
                es == events@,
                i + pending@.len() == es.len(),
                es.len() <= usize::MAX,
                pending@ == es.skip(i as int),
                look_readable(es),
                offers_read(es, i as int),
                s0 == (VitalView { odds: Map::empty(), markets: Map::empty(), events: old(self)@.events }),
                take_events(s0, es.take(i as int)) == (self@, message_views(messages@), true),
            decreases pending@.len(),
        {
            let ghost before = self@;
            let ghost msgs = message_views(messages@);
            let event = pending.remove(0);
            proof {
                assert(event == es[i as int]);
                assert(readable(es[i as int]));
                let t = es.take(i + 1);
                assert(t.drop_last() =~= es.take(i as int));
                assert(t.last() == event);
                assert(pending@ =~= es.skip(i + 1));
            }
            let (message, error) = self.take_in(event);
            match error {
                Some(e) => {
                    proof {
                        assert(take_events(s0, es.take(i + 1)) == (before, msgs, false));
                        lemma_take_events_stop(s0, es, i + 1);
                    }
                    return (messages, Some(e));
                },
                None => {},
            }
            match message {
                Some(m) => {
                    messages.push(m);
                    proof {
                        assert(message_views(messages@) =~= msgs.push(messages@.last()@));
                    }
                },
                None => {},
            }
            proof {
                assert(event_offer(es[i as int]) is Ok);
                assert forall|k: int| 0 <= k < i + 1 implies (#[trigger] event_offer(es[k])) is Ok by {
                    if k < i {
                        assert(offers_read(es, i as int));
                    }
                }
            }
            i = i + 1;
        }
        proof {
            assert(es.take(i as int) =~= es);
        }
        (messages, None)
    }

    /// Applies a change to the kept match it is about. Returns that match when the
    /// change changed it.
    pub fn apply_change(&mut self, update: &Update) -> (r: Option<u32>)
        ensures
            final(self)@.odds == old(self)@.odds,
            final(self)@.markets == old(self)@.markets,
            match update_target(old(self)@, *update) {
                Some(t) => if old(self)@.events.contains_key(t) {
                    &&& final(self)@.events == old(self)@.events.insert(t, final(self)@.events[t])
                    &&& updated(old(self)@.events[t], final(self)@.events[t], *update, r is Some)
                    &&& (r is Some ==> r == Some(t))
                } else {
                    final(self)@ == old(self)@ && r is None
                },
                None => final(self)@ == old(self)@ && r is None,
            },
    {
        let target = match update {
            Update::OddUpdate(u) => match self.odds_to_events.get(&u.id) {
                Some(e) => Some(*e),
                None => None,
            },
            Update::Market(u) => match self.markets_to_events.get(&u.id) {
                Some(e) => Some(*e),
                None => None,
            },
            Update::Event(u) => Some(u.id),
            Update::PrematchOddUpdate(u) => Some(u.0),
            Update::PrematchMarketUpdate(u) => match self.markets_to_events.get(&u.0) {
                Some(e) => Some(*e),
                None => None,
            },
            Update::PrematchMatchUpdate(u) => Some(u.0),
        };
        let t = match target {
            Some(t) => t,
            None => {
                return None;
            },
        };
        let ghost before = self@;
        let mut event = match self.events.remove(&t) {
            Some(e) => e,
            None => {
                proof {
                    assert(self@.events =~= before.events);
                }
                return None;
            },
        };
        let changed = apply_update(&mut event, update);
        self.events.insert(t, event);
        proof {
            assert(self@.events =~= before.events.insert(t, self@.events[t]));
        }
        if changed {
            Some(t)
        } else {
            None
        }
    }

    /// Whether the kept match `t` can be read.
    pub fn readable_at(&self, t: u32) -> (r: bool)
        ensures
            r == (self@.events.contains_key(t) && readable(self@.events[t])),
    {
        match self.events.get(&t) {
            Some(e) => is_readable(e),
            None => false,
        }
    }

    /// The report on the kept match `t` after it changed: its offer, or the match gone
    /// when it has none. Returns the error of a match whose offer does not read.
    pub fn report(&self, t: u32) -> (r: (Option<Message>, Option<SiteError>))
        requires
            self@.events.contains_key(t),
            readable(self@.events[t]),
        ensures
            match event_offer(self@.events[t]) {
                Err(_) => r.0 is None && r.1 is Some,
                Ok(Some(v)) => {
                    &&& r.1 is None
                    &&& r.0 matches Some(m) && m@ == MessageView::Upsert(v)
                },
                Ok(None) => {
                    &&& r.1 is None
                    &&& r.0 matches Some(m) && m@ == MessageView::Remove(t as OID)
                },
            },
    {
        let event = self.events.get(&t).unwrap();
        match create_offer(event) {
            Err(e) => (None, Some(e)),
            Ok(Some(o)) => (Some(Message::Upsert(o)), None),
            Ok(None) => (Some(Message::Remove(t as OID)), None),
        }
    }

    /// Takes in a change: when the kept match it is about changes, reports its offer, or
    /// the match gone when it has none (see `apply_change` and `report`).
    pub fn handle(&mut self, update: &Update) -> (r: (Option<Message>, Option<SiteError>))
        requires
            change_readable(old(self)@, *update),
        ensures
            final(self)@.odds == old(self)@.odds,
            final(self)@.markets == old(self)@.markets,
            match update_target(old(self)@, *update) {
                Some(t) => if old(self)@.events.contains_key(t) {
                    exists|changed: bool| {
                        &&& updated(old(self)@.events[t], final(self)@.events[t], *update, changed)
                        &&& final(self)@.events == old(self)@.events.insert(t, final(self)@.events[t])
                        &&& if !changed {
                            r.0 is None && r.1 is None
                        } else {
                            match event_offer(final(self)@.events[t]) {
                                Err(_) => r.0 is None && r.1 is Some,
                                Ok(Some(v)) => {
                                    &&& r.1 is None
                                    &&& r.0 matches Some(m) && m@ == MessageView::Upsert(v)
                                },
                                Ok(None) => {
                                    &&& r.1 is None
                                    &&& r.0 matches Some(m) && m@ == MessageView::Remove(t as OID)
                                },
                            }
                        }
                    }
                } else {
                    final(self)@ == old(self)@ && r.0 is None && r.1 is None
                },
                None => final(self)@ == old(self)@ && r.0 is None && r.1 is None,
            },
    {
        let ghost before = self@;
        match self.apply_change(update) {
            Some(t) => {
                proof {
                    assert(updated(before.events[t], self@.events[t], *update, true));
                    assert(readable(self@.events[t]));
                }
                self.report(t)
            },
            None => (None, None),
        }
    }

    /// The id of the odd of the match offered as `oid` for the outcome titled `title`
    /// (see `odd_for`).
    pub fn odd_id(&self, oid: OID, title: &str) -> (r: Option<u32>)
        ensures
            r == odd_for(self@.events, oid, title@),
    {
        let event = match self.events.get(&(oid as u32)) {
            Some(e) => e,
            None => {
                return None;
            },
        };
        let odds = match &event.preview_odds {
            Some(odds) => odds,
            None => {
                return None;
            },
        };
        let draw = title_is_draw(title);
        let mut i: usize = 0;
        proof {
            assert(odds@.skip(0) =~= odds@);
        }
        while i < odds.len()
            invariant
                i <= odds@.len(),
                draw == is_draw(title@),
                self@.events.contains_key(oid as u32),
                self@.events[oid as u32].preview_odds == Some(*odds),
                titled_position(odds@, title@) == i + titled_position(odds@.skip(i as int), title@),
            decreases odds@.len() - i,
        {
            proof {
                assert(odds@.skip(i as int).drop_first() =~= odds@.skip(i + 1));
                assert(odds@.skip(i as int)[0] == odds@[i as int]);
            }
            if str_eq(odds[i].title.as_str(), title) || (draw && str_eq(odds[i].title.as_str(), "Draw")) {
                proof {
                    assert(odds@.skip(i as int)[0] == odds@[i as int]);
                    assert(odd_is_for(odds@[i as int], title@));
                }
                return Some(odds[i].id);
            }
            i = i + 1;
        }
        None
    }
}

/// Whether an odd is for the outcome titled `title`: the same title, or the draw for an
/// odd titled `Draw`.
pub open spec fn odd_is_for(o: Odd, title: Seq<char>) -> bool {
    o.title@ == title || (is_draw(title) && o.title@ == "Draw"@)
}

/// The position of the first odd for a title, or the number of odds.
pub open spec fn titled_position(odds: Seq<Odd>, title: Seq<char>) -> int
    decreases odds.len(),
{
    if odds.len() == 0 || odd_is_for(odds[0], title) {
        0
    } else {
        1 + titled_position(odds.drop_first(), title)
    }
}

/// The id of the first odd of the match offered as `oid` for the outcome titled `title`;
/// none when the match, its odds or such an odd are missing.
pub open spec fn odd_for(events: Map<u32, Event>, oid: OID, title: Seq<char>) -> Option<u32> {
    let id = oid as u32;
    if !events.contains_key(id) {
        None
    } else {
        match events[id].preview_odds {
            None => None,
            Some(odds) => {
                let k = titled_position(odds@, title);
                if k < odds@.len() {
                    Some(odds@[k].id)
                } else {
                    None
                }
            },
        }
    }
}

/// Whether the reply to a login tells it failed.
pub fn login_failed(response: &str) -> (r: bool)
    ensures
        r == has_substring(response@, "\"HasErrors\":true"@),
{
    contains(response, "\"HasErrors\":true")
}

} // verus!
