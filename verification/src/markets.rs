//! Offers of bookmakers: a dated market of some game with its outcomes and their odds.

use vstd::prelude::*;
use crate::text::str_eq;

verus! {

/// The identifier a bookmaker gives to an offer.
pub type OID = u64;

/// The title that stands for a draw among the outcomes of an offer.
pub const DRAW: &'static str = "(draw)";

/// Whether a title is the draw title.
pub open spec fn is_draw(title: Seq<char>) -> bool {
    title == DRAW@
}

/// Whether the title is the draw title.
pub fn title_is_draw(title: &str) -> (r: bool)
    ensures
        r == is_draw(title@),
{
    str_eq(title, DRAW)
}

/// Games and sports that offers are about.
#[derive(Debug, Clone, Copy, PartialEq, Eq, Structural, Hash)]
pub enum Game {
    CounterStrike,
    CrossFire,
    Dota2,
    GearsOfWar,
    Halo,
    Hearthstone,
    HeroesOfTheStorm,
    LeagueOfLegends,
    Overwatch,
    Smite,
    StarCraftBW,
    StarCraft2,
    Vainglory,
    WorldOfTanks,
    Fifa,
    Football,
    Tennis,
    Basketball,
    IceHockey,
    Volleyball,
    TableTennis,
    Handball,
    Badminton,
    Baseball,
    Snooker,
    Pool,
    Futsal,
    WaterPolo,
    Rugby,
    Chess,
    Boxing,
    AmericanFootball,
    Bandy,
    Motorsport,
    Biathlon,
    Darts,
    AlpineSkiing,
    SkiJumping,
    Skiing,
    Formula,
    FieldHockey,
    Motorbikes,
    Bowls,
    BicycleRacing,
    Poker,
    Golf,
    Curling,
    Netball,
    MartialArts,
    Cricket,
    Floorball,
    GaelicFootball,
    HorseRacing,
    Hurling,
}

/// Kinds of markets.
#[derive(Debug, Clone, Copy, PartialEq, Eq, Structural, Hash)]
pub enum Kind {
    Series,
}

/// The name of a game, as written in the record of bets.
pub open spec fn game_name(g: Game) -> Seq<char> {
    match g {
        Game::CounterStrike => "CounterStrike"@,
        Game::CrossFire => "CrossFire"@,
        Game::Dota2 => "Dota2"@,
        Game::GearsOfWar => "GearsOfWar"@,
        Game::Halo => "Halo"@,
        Game::Hearthstone => "Hearthstone"@,
        Game::HeroesOfTheStorm => "HeroesOfTheStorm"@,
        Game::LeagueOfLegends => "LeagueOfLegends"@,
        Game::Overwatch => "Overwatch"@,
        Game::Smite => "Smite"@,
        Game::StarCraftBW => "StarCraftBW"@,
        Game::StarCraft2 => "StarCraft2"@,
        Game::Vainglory => "Vainglory"@,
        Game::WorldOfTanks => "WorldOfTanks"@,
        Game::Fifa => "Fifa"@,
        Game::Football => "Football"@,
        Game::Tennis => "Tennis"@,
        Game::Basketball => "Basketball"@,
        Game::IceHockey => "IceHockey"@,
        Game::Volleyball => "Volleyball"@,
        Game::TableTennis => "TableTennis"@,
        Game::Handball => "Handball"@,
        Game::Badminton => "Badminton"@,
        Game::Baseball => "Baseball"@,
        Game::Snooker => "Snooker"@,
        Game::Pool => "Pool"@,
        Game::Futsal => "Futsal"@,
        Game::WaterPolo => "WaterPolo"@,
        Game::Rugby => "Rugby"@,
        Game::Chess => "Chess"@,
        Game::Boxing => "Boxing"@,
        Game::AmericanFootball => "AmericanFootball"@,
        Game::Bandy => "Bandy"@,
        Game::Motorsport => "Motorsport"@,
        Game::Biathlon => "Biathlon"@,
        Game::Darts => "Darts"@,
        Game::AlpineSkiing => "AlpineSkiing"@,
        Game::SkiJumping => "SkiJumping"@,
        Game::Skiing => "Skiing"@,
        Game::Formula => "Formula"@,
        Game::FieldHockey => "FieldHockey"@,
        Game::Motorbikes => "Motorbikes"@,
        Game::Bowls => "Bowls"@,
        Game::BicycleRacing => "BicycleRacing"@,
        Game::Poker => "Poker"@,
        Game::Golf => "Golf"@,
        Game::Curling => "Curling"@,
        Game::Netball => "Netball"@,
        Game::MartialArts => "MartialArts"@,
        Game::Cricket => "Cricket"@,
        Game::Floorball => "Floorball"@,
        Game::GaelicFootball => "GaelicFootball"@,
        Game::HorseRacing => "HorseRacing"@,
        Game::Hurling => "Hurling"@,
    }
}

/// The name of a kind of market, as written in the record of bets.
pub open spec fn kind_name(k: Kind) -> Seq<char> {
    match k {
        Kind::Series => "Series"@,
    }
}

impl Game {
    /// The name of the game.
    pub fn name(&self) -> (r: &'static str)
        ensures
            r@ == game_name(*self),
    {
        match self {
            Game::CounterStrike => "CounterStrike",
            Game::CrossFire => "CrossFire",
            Game::Dota2 => "Dota2",
            Game::GearsOfWar => "GearsOfWar",
            Game::Halo => "Halo",
            Game::Hearthstone => "Hearthstone",
            Game::HeroesOfTheStorm => "HeroesOfTheStorm",
            Game::LeagueOfLegends => "LeagueOfLegends",
            Game::Overwatch => "Overwatch",
            Game::Smite => "Smite",
            Game::StarCraftBW => "StarCraftBW",
            Game::StarCraft2 => "StarCraft2",
            Game::Vainglory => "Vainglory",
            Game::WorldOfTanks => "WorldOfTanks",
            Game::Fifa => "Fifa",
            Game::Football => "Football",
            Game::Tennis => "Tennis",
            Game::Basketball => "Basketball",
            Game::IceHockey => "IceHockey",
            Game::Volleyball => "Volleyball",
            Game::TableTennis => "TableTennis",
            Game::Handball => "Handball",
            Game::Badminton => "Badminton",
            Game::Baseball => "Baseball",
            Game::Snooker => "Snooker",
            Game::Pool => "Pool",
            Game::Futsal => "Futsal",
            Game::WaterPolo => "WaterPolo",
            Game::Rugby => "Rugby",
            Game::Chess => "Chess",
            Game::Boxing => "Boxing",
            Game::AmericanFootball => "AmericanFootball",
            Game::Bandy => "Bandy",
            Game::Motorsport => "Motorsport",
            Game::Biathlon => "Biathlon",
            Game::Darts => "Darts",
            Game::AlpineSkiing => "AlpineSkiing",
            Game::SkiJumping => "SkiJumping",
            Game::Skiing => "Skiing",
            Game::Formula => "Formula",
            Game::FieldHockey => "FieldHockey",
            Game::Motorbikes => "Motorbikes",
            Game::Bowls => "Bowls",
            Game::BicycleRacing => "BicycleRacing",
            Game::Poker => "Poker",
            Game::Golf => "Golf",
            Game::Curling => "Curling",
            Game::Netball => "Netball",
            Game::MartialArts => "MartialArts",
            Game::Cricket => "Cricket",
            Game::Floorball => "Floorball",
            Game::GaelicFootball => "GaelicFootball",
            Game::HorseRacing => "HorseRacing",
            Game::Hurling => "Hurling",
        }
    }
}

impl Kind {
    /// The name of the kind of market.
    pub fn name(&self) -> (r: &'static str)
        ensures
            r@ == kind_name(*self),
    {
        match self {
            Kind::Series => "Series",
        }
    }
}

/// An outcome of an offer: its title and its decimal odds, in thousandths
/// (odds of 1.85 are 1850).
#[derive(Debug)]
pub struct Outcome(pub String, pub u32);

/// An offer of a bookmaker: its id, the start of the event (Unix seconds), the game,
/// the kind of market and the outcomes with their odds.
#[derive(Debug)]
pub struct Offer {
    pub oid: OID,
    pub date: u32,
    pub game: Game,
    pub kind: Kind,
    pub outcomes: Vec<Outcome>,
}

/// What an outcome is: its title and its odds.
pub type OutcomeView = (Seq<char>, u32);

/// What an offer is, in plain values.
pub struct OfferView {
    pub oid: OID,
    pub date: u32,
    pub game: Game,
    pub kind: Kind,
    pub outcomes: Seq<OutcomeView>,
}

impl View for Outcome {
    type V = OutcomeView;

    open spec fn view(&self) -> OutcomeView {
        (self.0@, self.1)
    }
}

impl View for Offer {
    type V = OfferView;

    open spec fn view(&self) -> OfferView {
        OfferView {
            oid: self.oid,
            date: self.date,
            game: self.game,
            kind: self.kind,
            outcomes: self.outcomes@.map_values(|o: Outcome| o@),
        }
    }
}

/// The latest start date whose rounding to half hours stays within `u32`.
pub const MAX_DATE: u32 = 4294966395;

impl Outcome {
    /// A copy of the outcome.
    pub fn duplicate(&self) -> (r: Outcome)
        ensures
            r@ == self@,
    {
        Outcome(self.0.clone(), self.1)
    }

    /// Whether two outcomes have the same title and the same odds.
    pub fn same_as(&self, other: &Outcome) -> (r: bool)
        ensures
            r == (self@ == other@),
    {
        self.1 == other.1 && self.0 == other.0
    }
}

/// Copies a list of outcomes.
pub fn duplicate_outcomes(outcomes: &Vec<Outcome>) -> (r: Vec<Outcome>)
    ensures
        r@.map_values(|o: Outcome| o@) == outcomes@.map_values(|o: Outcome| o@),
{
    let mut r: Vec<Outcome> = Vec::new();
    let mut i: usize = 0;
    while i < outcomes.len()
        invariant
            i <= outcomes.len(),
            r@.len() == i,
            forall|j: int| 0 <= j < i ==> r@[j]@ == outcomes@[j]@,
        decreases outcomes.len() - i,
    {
        r.push(outcomes[i].duplicate());
        i = i + 1;
    }
    proof {
        assert(r@.map_values(|o: Outcome| o@) =~= outcomes@.map_values(|o: Outcome| o@));
    }
    r
}

/// Whether two lists of outcomes are equal, title by title and odds by odds.
pub fn same_outcomes(a: &Vec<Outcome>, b: &Vec<Outcome>) -> (r: bool)
    ensures
        r == (a@.map_values(|o: Outcome| o@) == b@.map_values(|o: Outcome| o@)),
{
    let ghost va = a@.map_values(|o: Outcome| o@);
    let ghost vb = b@.map_values(|o: Outcome| o@);
    if a.len() != b.len() {
        proof {
            assert(va.len() != vb.len());
        }
        return false;
    }
    let mut i: usize = 0;
    while i < a.len()
        invariant
            i <= a.len(),
            a.len() == b.len(),
            va == a@.map_values(|o: Outcome| o@),
            vb == b@.map_values(|o: Outcome| o@),
            forall|j: int| 0 <= j < i ==> va[j] == vb[j],
        decreases a.len() - i,
    {
        if !a[i].same_as(&b[i]) {
            proof {
                assert(va[i as int] != vb[i as int]);
            }
            return false;
        }
        i = i + 1;
    }
    proof {
        assert(va =~= vb);
    }
    true
}

/// The position of the first outcome of an offer equal to `o`.
pub open spec fn outcome_position(outcomes: Seq<OutcomeView>, o: OutcomeView) -> int
    decreases outcomes.len(),
{
    if outcomes.len() == 0 || outcomes[0] == o {
        0
    } else {
        1 + outcome_position(outcomes.drop_first(), o)
    }
}

/// The first position of an outcome is where it is, and it is nowhere before.
pub proof fn lemma_outcome_position(outcomes: Seq<OutcomeView>, o: OutcomeView)
    ensures
        0 <= outcome_position(outcomes, o) <= outcomes.len(),
        outcome_position(outcomes, o) < outcomes.len() ==> outcomes[outcome_position(outcomes, o)] == o,
        forall|k: int| 0 <= k < outcome_position(outcomes, o) ==> #[trigger] outcomes[k] != o,
    decreases outcomes.len(),
{
    if outcomes.len() > 0 && outcomes[0] != o {
        lemma_outcome_position(outcomes.drop_first(), o);
        assert forall|k: int| 0 <= k < outcome_position(outcomes, o) implies #[trigger] outcomes[k] != o by {
            if k > 0 {
                assert(outcomes[k] == outcomes.drop_first()[k - 1]);
            }
        }
    }
}

impl Offer {
    /// The offers that the matching logic handles: at most three outcomes (two sides and
    /// a draw) and a start date that can be rounded to half hours.
    pub open spec fn well_formed(&self) -> bool {
        &&& self.outcomes.len() <= 3
        &&& self.date <= MAX_DATE
    }

    /// A copy of the offer.
    pub fn duplicate(&self) -> (r: Offer)
        ensures
            r@ == self@,
    {
        Offer {
            oid: self.oid,
            date: self.date,
            game: self.game,
            kind: self.kind,
            outcomes: duplicate_outcomes(&self.outcomes),
        }
    }

    /// Whether two offers are equal in every field.
    pub fn same_as(&self, other: &Offer) -> (r: bool)
        ensures
            r == (self@ == other@),
    {
        let r = self.oid == other.oid && self.date == other.date && self.game == other.game
            && self.kind == other.kind && same_outcomes(&self.outcomes, &other.outcomes);
        proof {
            if r {
                assert(self@ == other@);
            }
        }
        r
    }
}

} // verus!
