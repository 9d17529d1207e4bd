//! 1xsporta: its line feed of games with their odds, and its bets.

use vstd::prelude::*;
use crate::markets::{Game, Kind, Offer, OfferView, Outcome, OutcomeView, OID, DRAW, outcome_position, lemma_outcome_position, game_name};
use crate::gamblers::{Message, MessageView, message_views};
use crate::parse::{has_substring, contains, unsigned_value, parse_unsigned, split, split_on, string_views};
use crate::text::{str_eq, chars_of, string_from_chars};
use crate::error::SiteError;
use crate::html::{first_attribute, first_attribute_of};

verus! {

/// A bet line of a game: whether it is blocked, its odds (thousandths) and its type
/// (1 for the first side, 2 for a draw, 3 for the second side).
#[derive(Debug)]
pub struct Event {
    pub blocked: bool,
    pub coef: u32,
    pub kind: u32,
}

/// A game of the line feed: its id, the championship and the sport (in English), the
/// two sides, the start (Unix seconds) and its bet lines.
#[derive(Debug)]
pub struct Info {
    pub id: u32,
    pub champ_eng: String,
    pub sport_name_eng: String,
    pub opp1: String,
    pub opp2: String,
    pub start: u32,
    pub events: Vec<Event>,
}

/// The game of a sport name.
pub open spec fn sport_game(sport: Seq<char>) -> Option<Game> {
    if sport == "Alpine Skiing"@ {
        Some(Game::AlpineSkiing)
    } else if sport == "American Football"@ {
        Some(Game::AmericanFootball)
    } else if sport == "Badminton"@ {
        Some(Game::Badminton)
    } else if sport == "Bandy"@ {
        Some(Game::Bandy)
    } else if sport == "Baseball"@ {
        Some(Game::Baseball)
    } else if sport == "Basketball"@ {
        Some(Game::Basketball)
    } else if sport == "Biathlon"@ {
        Some(Game::Biathlon)
    } else if sport == "Bicycle Racing"@ {
        Some(Game::BicycleRacing)
    } else if sport == "Bowls"@ {
        Some(Game::Bowls)
    } else if sport == "Boxing"@ {
        Some(Game::Boxing)
    } else if sport == "Chess"@ {
        Some(Game::Chess)
    } else if sport == "Cricket"@ {
        Some(Game::Cricket)
    } else if sport == "Darts"@ {
        Some(Game::Darts)
    } else if sport == "Field Hockey"@ {
        Some(Game::FieldHockey)
    } else if sport == "Floorball"@ {
        Some(Game::Floorball)
    } else if sport == "Football"@ {
        Some(Game::Football)
    } else if sport == "Formula 1"@ {
        Some(Game::Formula)
    } else if sport == "Futsal"@ {
        Some(Game::Futsal)
    } else if sport == "Gaelic Football"@ {
        Some(Game::GaelicFootball)
    } else if sport == "Golf"@ {
        Some(Game::Golf)
    } else if sport == "Handball"@ {
        Some(Game::Handball)
    } else if sport == "Ice Hockey"@ {
        Some(Game::IceHockey)
    } else if sport == "Martial Arts"@ {
        Some(Game::MartialArts)
    } else if sport == "Motorbikes"@ {
        Some(Game::Motorbikes)
    } else if sport == "Motorsport"@ {
        Some(Game::Motorsport)
    } else if sport == "Netball"@ {
        Some(Game::Netball)
    } else if sport == "Poker"@ {
        Some(Game::Poker)
    } else if sport == "Rugby"@ {
        Some(Game::Rugby)
    } else if sport == "Ski Jumping"@ {
        Some(Game::SkiJumping)
    } else if sport == "Skiing"@ {
        Some(Game::Skiing)
    } else if sport == "Snooker"@ {
        Some(Game::Snooker)
    } else if sport == "Table Tennis"@ {
        Some(Game::TableTennis)
    } else if sport == "Tennis"@ {
        Some(Game::Tennis)
    } else if sport == "Volleyball"@ {
        Some(Game::Volleyball)
    } else {
        None
    }
}

/// The game of an eSports championship, by the first four characters of its name (or
/// by its naming StarCraft).
pub open spec fn esport_game(champ: Seq<char>) -> Option<Game> {
    let p = if champ.len() >= 4 { champ.take(4) } else { champ };
    if p == "CS:G"@ || p == "Coun"@ {
        Some(Game::CounterStrike)
    } else if p == "Dota"@ {
        Some(Game::Dota2)
    } else if p == "Hero"@ {
        Some(Game::HeroesOfTheStorm)
    } else if p == "Hear"@ {
        Some(Game::Hearthstone)
    } else if p == "Leag"@ || p == "LoL "@ {
        Some(Game::LeagueOfLegends)
    } else if p == "Over"@ {
        Some(Game::Overwatch)
    } else if p == "Smit"@ {
        Some(Game::Smite)
    } else if p == "Star"@ {
        Some(Game::StarCraft2)
    } else if p == "Worl"@ {
        Some(Game::WorldOfTanks)
    } else if has_substring(champ, "StarCraft"@) {
        Some(Game::StarCraft2)
    } else {
        None
    }
}

/// Whether a character is an ASCII letter.
pub open spec fn is_ascii_letter(c: char) -> bool {
    ('a' <= c && c <= 'z') || ('A' <= c && c <= 'Z')
}

/// The ASCII letters of a text, in order.
pub open spec fn letters_of(s: Seq<char>) -> Seq<char>
    decreases s.len(),
{
    if s.len() == 0 {
        Seq::empty()
    } else if is_ascii_letter(s.last()) {
        letters_of(s.drop_last()).push(s.last())
    } else {
        letters_of(s.drop_last())
    }
}

/// The letters of some sport names.
#[verifier::spinoff_prover]
proof fn lemma_sport_letters_0()
    ensures
        letters_of("Alpine Skiing"@) == "AlpineSkiing"@,
        letters_of("American Football"@) == "AmericanFootball"@,
        letters_of("Badminton"@) == "Badminton"@,
{
    assert(letters_of("Alpine Skiing"@) =~= "AlpineSkiing"@) by {
        reveal_strlit("Alpine Skiing");
        reveal_strlit("AlpineSkiing");
        reveal_with_fuel(letters_of, 14);
    }
    assert(letters_of("American Football"@) =~= "AmericanFootball"@) by {
        reveal_strlit("American Football");
        reveal_strlit("AmericanFootball");
        reveal_with_fuel(letters_of, 18);
    }
    assert(letters_of("Badminton"@) =~= "Badminton"@) by {
        reveal_strlit("Badminton");
        reveal_with_fuel(letters_of, 10);
    }
}

/// The letters of some sport names.
#[verifier::spinoff_prover]
proof fn lemma_sport_letters_1()
    ensures
        letters_of("Bandy"@) == "Bandy"@,
        letters_of("Baseball"@) == "Baseball"@,
        letters_of("Basketball"@) == "Basketball"@,
{
    assert(letters_of("Bandy"@) =~= "Bandy"@) by {
        reveal_strlit("Bandy");
        reveal_with_fuel(letters_of, 6);
    }
    assert(letters_of("Baseball"@) =~= "Baseball"@) by {
        reveal_strlit("Baseball");
        reveal_with_fuel(letters_of, 9);
    }
    assert(letters_of("Basketball"@) =~= "Basketball"@) by {
        reveal_strlit("Basketball");
        reveal_with_fuel(letters_of, 11);
    }
}

/// The letters of some sport names.
#[verifier::spinoff_prover]
proof fn lemma_sport_letters_2()
    ensures
        letters_of("Biathlon"@) == "Biathlon"@,
        letters_of("Bicycle Racing"@) == "BicycleRacing"@,
        letters_of("Bowls"@) == "Bowls"@,
{
    assert(letters_of("Biathlon"@) =~= "Biathlon"@) by {
        reveal_strlit("Biathlon");
        reveal_with_fuel(letters_of, 9);
    }
    assert(letters_of("Bicycle Racing"@) =~= "BicycleRacing"@) by {
        reveal_strlit("Bicycle Racing");
        reveal_strlit("BicycleRacing");
        reveal_with_fuel(letters_of, 15);
    }
    assert(letters_of("Bowls"@) =~= "Bowls"@) by {
        reveal_strlit("Bowls");
        reveal_with_fuel(letters_of, 6);
    }
}

/// The letters of some sport names.
#[verifier::spinoff_prover]
proof fn lemma_sport_letters_3()
    ensures
        letters_of("Boxing"@) == "Boxing"@,
        letters_of("Chess"@) == "Chess"@,
        letters_of("Cricket"@) == "Cricket"@,
{
    assert(letters_of("Boxing"@) =~= "Boxing"@) by {
        reveal_strlit("Boxing");
        reveal_with_fuel(letters_of, 7);
    }
    assert(letters_of("Chess"@) =~= "Chess"@) by {
        reveal_strlit("Chess");
        reveal_with_fuel(letters_of, 6);
    }
    assert(letters_of("Cricket"@) =~= "Cricket"@) by {
        reveal_strlit("Cricket");
        reveal_with_fuel(letters_of, 8);
    }
}

/// The letters of some sport names.
#[verifier::spinoff_prover]
proof fn lemma_sport_letters_4()
    ensures
        letters_of("Darts"@) == "Darts"@,
        letters_of("Field Hockey"@) == "FieldHockey"@,
        letters_of("Floorball"@) == "Floorball"@,
{
    assert(letters_of("Darts"@) =~= "Darts"@) by {
        reveal_strlit("Darts");
        reveal_with_fuel(letters_of, 6);
    }
    assert(letters_of("Field Hockey"@) =~= "FieldHockey"@) by {
        reveal_strlit("Field Hockey");
        reveal_strlit("FieldHockey");
        reveal_with_fuel(letters_of, 13);
    }
    assert(letters_of("Floorball"@) =~= "Floorball"@) by {
        reveal_strlit("Floorball");
        reveal_with_fuel(letters_of, 10);
    }
}

/// The letters of some sport names.
#[verifier::spinoff_prover]
proof fn lemma_sport_letters_5()
    ensures
        letters_of("Football"@) == "Football"@,
        letters_of("Formula 1"@) == "Formula"@,
        letters_of("Futsal"@) == "Futsal"@,
{
    assert(letters_of("Football"@) =~= "Football"@) by {
        reveal_strlit("Football");
        reveal_with_fuel(letters_of, 9);
    }
    assert(letters_of("Formula 1"@) =~= "Formula"@) by {
        reveal_strlit("Formula 1");
        reveal_strlit("Formula");
        reveal_with_fuel(letters_of, 10);
    }
    assert(letters_of("Futsal"@) =~= "Futsal"@) by {
        reveal_strlit("Futsal");
        reveal_with_fuel(letters_of, 7);
    }
}

/// The letters of some sport names.
#[verifier::spinoff_prover]
proof fn lemma_sport_letters_6()
    ensures
        letters_of("Gaelic Football"@) == "GaelicFootball"@,
        letters_of("Golf"@) == "Golf"@,
        letters_of("Handball"@) == "Handball"@,
{
    assert(letters_of("Gaelic Football"@) =~= "GaelicFootball"@) by {
        reveal_strlit("Gaelic Football");
        reveal_strlit("GaelicFootball");
        reveal_with_fuel(letters_of, 16);
    }
    assert(letters_of("Golf"@) =~= "Golf"@) by {
        reveal_strlit("Golf");
        reveal_with_fuel(letters_of, 5);
    }
    assert(letters_of("Handball"@) =~= "Handball"@) by {
        reveal_strlit("Handball");
        reveal_with_fuel(letters_of, 9);
    }
}

/// The letters of some sport names.
#[verifier::spinoff_prover]
proof fn lemma_sport_letters_7()
    ensures
        letters_of("Ice Hockey"@) == "IceHockey"@,
        letters_of("Martial Arts"@) == "MartialArts"@,
        letters_of("Motorbikes"@) == "Motorbikes"@,
{
    assert(letters_of("Ice Hockey"@) =~= "IceHockey"@) by {
        reveal_strlit("Ice Hockey");
        reveal_strlit("IceHockey");
        reveal_with_fuel(letters_of, 11);
    }
    assert(letters_of("Martial Arts"@) =~= "MartialArts"@) by {
        reveal_strlit("Martial Arts");
        reveal_strlit("MartialArts");
        reveal_with_fuel(letters_of, 13);
    }
    assert(letters_of("Motorbikes"@) =~= "Motorbikes"@) by {
        reveal_strlit("Motorbikes");
        reveal_with_fuel(letters_of, 11);
    }
}

/// The letters of some sport names.
#[verifier::spinoff_prover]
proof fn lemma_sport_letters_8()
    ensures
        letters_of("Motorsport"@) == "Motorsport"@,
        letters_of("Netball"@) == "Netball"@,
        letters_of("Poker"@) == "Poker"@,
{
    assert(letters_of("Motorsport"@) =~= "Motorsport"@) by {
        reveal_strlit("Motorsport");
        reveal_with_fuel(letters_of, 11);
    }
    assert(letters_of("Netball"@) =~= "Netball"@) by {
        reveal_strlit("Netball");
        reveal_with_fuel(letters_of, 8);
    }
    assert(letters_of("Poker"@) =~= "Poker"@) by {
        reveal_strlit("Poker");
        reveal_with_fuel(letters_of, 6);
    }
}

/// The letters of some sport names.
#[verifier::spinoff_prover]
proof fn lemma_sport_letters_9()
    ensures
        letters_of("Rugby"@) == "Rugby"@,
        letters_of("Ski Jumping"@) == "SkiJumping"@,
        letters_of("Skiing"@) == "Skiing"@,
{
    assert(letters_of("Rugby"@) =~= "Rugby"@) by {
        reveal_strlit("Rugby");
        reveal_with_fuel(letters_of, 6);
    }
    assert(letters_of("Ski Jumping"@) =~= "SkiJumping"@) by {
        reveal_strlit("Ski Jumping");
        reveal_strlit("SkiJumping");
        reveal_with_fuel(letters_of, 12);
    }
    assert(letters_of("Skiing"@) =~= "Skiing"@) by {
        reveal_strlit("Skiing");
        reveal_with_fuel(letters_of, 7);
    }
}

/// The letters of some sport names.
#[verifier::spinoff_prover]
proof fn lemma_sport_letters_10()
    ensures
        letters_of("Snooker"@) == "Snooker"@,
        letters_of("Table Tennis"@) == "TableTennis"@,
        letters_of("Tennis"@) == "Tennis"@,
{
    assert(letters_of("Snooker"@) =~= "Snooker"@) by {
        reveal_strlit("Snooker");
        reveal_with_fuel(letters_of, 8);
    }
    assert(letters_of("Table Tennis"@) =~= "TableTennis"@) by {
        reveal_strlit("Table Tennis");
        reveal_strlit("TableTennis");
        reveal_with_fuel(letters_of, 13);
    }
    assert(letters_of("Tennis"@) =~= "Tennis"@) by {
        reveal_strlit("Tennis");
        reveal_with_fuel(letters_of, 7);
    }
}

/// The letters of some sport names.
#[verifier::spinoff_prover]
proof fn lemma_sport_letters_11()
    ensures
        letters_of("Volleyball"@) == "Volleyball"@,
{
    assert(letters_of("Volleyball"@) =~= "Volleyball"@) by {
        reveal_strlit("Volleyball");
        reveal_with_fuel(letters_of, 11);
    }
}
/// The game of a listed sport is the game whose name is the sport's name without its
/// spaces and digits (so "Ice Hockey" is `IceHockey` and "Formula 1" is `Formula`); so is
/// the game of a feed entry of a sport other than eSports.
pub proof fn sport_game_is_named_after_the_sport(sport: Seq<char>, champ: Seq<char>)
    ensures
        sport_game(sport) matches Some(g) ==> game_name(g) == letters_of(sport),
        sport != "eSports"@ ==> (info_game(sport, champ) matches Some(g) ==> game_name(g) == letters_of(sport)),
{
    lemma_sport_letters_0();
    lemma_sport_letters_1();
    lemma_sport_letters_2();
    lemma_sport_letters_3();
    lemma_sport_letters_4();
    lemma_sport_letters_5();
    lemma_sport_letters_6();
    lemma_sport_letters_7();
    lemma_sport_letters_8();
    lemma_sport_letters_9();
    lemma_sport_letters_10();
    lemma_sport_letters_11();
}

/// The game of a feed entry.
pub open spec fn info_game(sport: Seq<char>, champ: Seq<char>) -> Option<Game> {
    if sport == "eSports"@ {
        esport_game(champ)
    } else {
        sport_game(sport)
    }
}

/// The number of bytes of a character in UTF-8.
pub open spec fn utf8_width(c: char) -> nat {
    if (c as u32) < 0x80 {
        1
    } else if (c as u32) < 0x800 {
        2
    } else if (c as u32) < 0x10000 {
        3
    } else {
        4
    }
}

/// The number of bytes of some characters in UTF-8.
pub open spec fn utf8_bytes(s: Seq<char>) -> nat
    decreases s.len(),
{
    if s.len() == 0 {
        0
    } else {
        utf8_bytes(s.drop_last()) + utf8_width(s.last())
    }
}

/// Whether the first four bytes of a string end at a character boundary, so that they
/// can be sliced off.
pub open spec fn has_four_byte_prefix(s: Seq<char>) -> bool {
    exists|k: int| 0 <= k <= s.len() && utf8_bytes(s.take(k)) == 4
}

/// The entries whose game can be told: those of eSports need a championship name whose
/// first four bytes can be sliced off.
pub open spec fn readable(sport: Seq<char>, champ: Seq<char>) -> bool {
    sport == "eSports"@ ==> has_four_byte_prefix(champ)
}

/// The game of a sport name.
fn game_of_sport(sport: &str) -> (r: Option<Game>)
    ensures
        r == sport_game(sport@),
{
    if str_eq(sport, "Alpine Skiing") {
        Some(Game::AlpineSkiing)
    } else if str_eq(sport, "American Football") {
        Some(Game::AmericanFootball)
    } else if str_eq(sport, "Badminton") {
        Some(Game::Badminton)
    } else if str_eq(sport, "Bandy") {
        Some(Game::Bandy)
    } else if str_eq(sport, "Baseball") {
        Some(Game::Baseball)
    } else if str_eq(sport, "Basketball") {
        Some(Game::Basketball)
    } else if str_eq(sport, "Biathlon") {
        Some(Game::Biathlon)
    } else if str_eq(sport, "Bicycle Racing") {
        Some(Game::BicycleRacing)
    } else if str_eq(sport, "Bowls") {
        Some(Game::Bowls)
    } else if str_eq(sport, "Boxing") {
        Some(Game::Boxing)
    } else if str_eq(sport, "Chess") {
        Some(Game::Chess)
    } else if str_eq(sport, "Cricket") {
        Some(Game::Cricket)
    } else if str_eq(sport, "Darts") {
        Some(Game::Darts)
    } else if str_eq(sport, "Field Hockey") {
        Some(Game::FieldHockey)
    } else if str_eq(sport, "Floorball") {
        Some(Game::Floorball)
    } else if str_eq(sport, "Football") {
        Some(Game::Football)
    } else if str_eq(sport, "Formula 1") {
        Some(Game::Formula)
    } else if str_eq(sport, "Futsal") {
        Some(Game::Futsal)
    } else if str_eq(sport, "Gaelic Football") {
        Some(Game::GaelicFootball)
    } else if str_eq(sport, "Golf") {
        Some(Game::Golf)
    } else if str_eq(sport, "Handball") {
        Some(Game::Handball)
    } else if str_eq(sport, "Ice Hockey") {
        Some(Game::IceHockey)
    } else if str_eq(sport, "Martial Arts") {
        Some(Game::MartialArts)
    } else if str_eq(sport, "Motorbikes") {
        Some(Game::Motorbikes)
    } else if str_eq(sport, "Motorsport") {
        Some(Game::Motorsport)
    } else if str_eq(sport, "Netball") {
        Some(Game::Netball)
    } else if str_eq(sport, "Poker") {
        Some(Game::Poker)
    } else if str_eq(sport, "Rugby") {
        Some(Game::Rugby)
    } else if str_eq(sport, "Ski Jumping") {
        Some(Game::SkiJumping)
    } else if str_eq(sport, "Skiing") {
        Some(Game::Skiing)
    } else if str_eq(sport, "Snooker") {
        Some(Game::Snooker)
    } else if str_eq(sport, "Table Tennis") {
        Some(Game::TableTennis)
    } else if str_eq(sport, "Tennis") {
        Some(Game::Tennis)
    } else if str_eq(sport, "Volleyball") {
        Some(Game::Volleyball)
    } else {
        None
    }
}

/// The first characters of `s`, at most `n` of them.
fn prefix_of(s: &str, n: usize) -> (r: String)
    ensures
        r@ == s@.take(if n <= s@.len() { n as int } else { s@.len() as int }),
{
    let v = chars_of(s);
    let mut w: Vec<char> = Vec::new();
    let mut i: usize = 0;
    while i < n && i < v.len()
        invariant
            v@ == s@,
            i <= v@.len(),
            i <= n,
            w@ == s@.take(i as int),
        decreases v@.len() - i,
    {
        w.push(v[i]);
        proof {
            assert(w@ =~= s@.take(i + 1));
        }
        i = i + 1;
    }
    string_from_chars(w)
}

/// The game of an eSports championship.
fn game_of_esport(champ: &str) -> (r: Option<Game>)
    ensures
        r == esport_game(champ@),
{
    let head = prefix_of(champ, 4);
    let p = head.as_str();
    proof {
        if champ@.len() < 4 {
            assert(champ@.take(champ@.len() as int) =~= champ@);
        }
    }
    if str_eq(p, "CS:G") || str_eq(p, "Coun") {
        Some(Game::CounterStrike)
    } else if str_eq(p, "Dota") {
        Some(Game::Dota2)
    } else if str_eq(p, "Hero") {
        Some(Game::HeroesOfTheStorm)
    } else if str_eq(p, "Hear") {
        Some(Game::Hearthstone)
    } else if str_eq(p, "Leag") || str_eq(p, "LoL ") {
        Some(Game::LeagueOfLegends)
    } else if str_eq(p, "Over") {
        Some(Game::Overwatch)
    } else if str_eq(p, "Smit") {
        Some(Game::Smite)
    } else if str_eq(p, "Star") {
        Some(Game::StarCraft2)
    } else if str_eq(p, "Worl") {
        Some(Game::WorldOfTanks)
    } else if contains(champ, "StarCraft") {
        Some(Game::StarCraft2)
    } else {
        None
    }
}

/// The game of a feed entry: by its sport, and for eSports by its championship.
pub fn game_from_info(info: &Info) -> (r: Option<Game>)
    requires
        readable(info.sport_name_eng@, info.champ_eng@),
    ensures
        r == info_game(info.sport_name_eng@, info.champ_eng@),
{
    if str_eq(info.sport_name_eng.as_str(), "eSports") {
        game_of_esport(info.champ_eng.as_str())
    } else {
        game_of_sport(info.sport_name_eng.as_str())
    }
}


/// Whether a line of type 1 to 3 is blocked.
pub open spec fn is_blocked(es: Seq<Event>) -> bool {
    exists|i: int| 0 <= i < es.len() && #[trigger] es[i].blocked && 0 < es[i].kind <= 3
}

/// The odds of the first line of type `t`.
pub open spec fn first_coef(es: Seq<Event>, t: u32) -> Option<u32>
    decreases es.len(),
{
    if es.len() == 0 {
        None
    } else if es[0].kind == t {
        Some(es[0].coef)
    } else {
        first_coef(es.drop_first(), t)
    }
}

/// Whether the game of an entry is needed: no line is blocked and both sides have odds.
pub open spec fn needs_game(info: Info) -> bool {
    &&& !is_blocked(info.events@)
    &&& first_coef(info.events@, 1) is Some
    &&& first_coef(info.events@, 3) is Some
}

/// The entries whose offer can be read (see `readable`).
pub open spec fn well_read(info: Info) -> bool {
    needs_game(info) ==> readable(info.sport_name_eng@, info.champ_eng@)
}

/// The offer of a feed entry: none when a line is blocked, a side has no odds or the
/// game is unknown; the draw is an outcome when it has odds.
pub open spec fn offer_of_info(info: Info) -> Option<OfferView> {
    let es = info.events@;
    if !needs_game(info) {
        None
    } else {
        match info_game(info.sport_name_eng@, info.champ_eng@) {
            Some(g) => Some(OfferView {
                oid: info.id as OID,
                date: info.start,
                game: g,
                kind: Kind::Series,
                outcomes: seq![(info.opp1@, first_coef(es, 1)->0), (info.opp2@, first_coef(es, 3)->0)]
                    + match first_coef(es, 2) {
                    Some(c) => seq![(DRAW@, c)],
                    None => Seq::<OutcomeView>::empty(),
                },
            }),
            None => None,
        }
    }
}

/// The odds of the first line of type `t`.
fn find_coef(es: &Vec<Event>, t: u32) -> (r: Option<u32>)
    ensures
        r == first_coef(es@, t),
{
    let mut i: usize = 0;
    proof {
        assert(es@.skip(0) =~= es@);
    }
    while i < es.len()
        invariant
            i <= es@.len(),
            first_coef(es@, t) == first_coef(es@.skip(i as int), t),
        decreases es@.len() - i,
    {
        proof {
            assert(es@.skip(i as int).drop_first() =~= es@.skip(i + 1));
            assert(es@.skip(i as int)[0] == es@[i as int]);
        }
        if es[i].kind == t {
            return Some(es[i].coef);
        }
        i = i + 1;
    }
    None
}

/// Whether a line of type 1 to 3 is blocked.
fn any_blocked(es: &Vec<Event>) -> (r: bool)
    ensures
        r == is_blocked(es@),
{
    let mut i: usize = 0;
    while i < es.len()
        invariant
            i <= es@.len(),
            forall|k: int| 0 <= k < i ==> !(#[trigger] es@[k].blocked && 0 < es@[k].kind <= 3),
        decreases es@.len() - i,
    {
        if es[i].blocked && 0 < es[i].kind && es[i].kind <= 3 {
            return true;
        }
        i = i + 1;
    }
    false
}

/// Reads the offer of a feed entry (see `offer_of_info`).
pub fn grab_offer(info: &Info) -> (r: Option<Offer>)
    requires
        well_read(*info),
    ensures
        match offer_of_info(*info) {
            Some(v) => r matches Some(o) && o@ == v,
            None => r is None,
        },
{
    proof {
        assert(first_coef(info.events@, 1) == first_coef(info.events@.skip(0), 1)) by {
            assert(info.events@.skip(0) =~= info.events@);
        }
    }
    if any_blocked(&info.events) {
        return None;
    }
    let coef_1 = find_coef(&info.events, 1);
    let coef_2 = find_coef(&info.events, 3);
    if coef_1.is_none() || coef_2.is_none() {
        return None;
    }
    let game = match game_from_info(info) {
        Some(game) => game,
        None => {
            return None;
        },
    };
    let coef_draw = find_coef(&info.events, 2);
    let mut outcomes: Vec<Outcome> = Vec::new();
    outcomes.push(Outcome(info.opp1.clone(), coef_1.unwrap()));
    outcomes.push(Outcome(info.opp2.clone(), coef_2.unwrap()));
    match coef_draw {
        Some(c) => {
            outcomes.push(Outcome(DRAW.to_string(), c));
        },
        None => {},
    }
    let offer = Offer { oid: info.id as OID, date: info.start, game, kind: Kind::Series, outcomes };
    proof {
        let v = offer_of_info(*info)->0;
        assert(offer@.outcomes =~= v.outcomes);
    }
    Some(offer)
}

/// Whether a piece of the masked token is a byte value.
pub open spec fn is_byte_code(piece: Seq<char>) -> bool {
    unsigned_value(piece) matches Some(v) && v <= 255
}

/// Whether every piece of the masked token is a byte value.
pub open spec fn byte_codes(pieces: Seq<Seq<char>>) -> bool {
    forall|i: int| 0 <= i < pieces.len() ==> #[trigger] is_byte_code(pieces[i])
}

/// The characters that the byte values of the pieces stand for.
pub open spec fn decoded(pieces: Seq<Seq<char>>) -> Seq<char> {
    Seq::new(pieces.len(), |i: int| (unsigned_value(pieces[i])->0 as u8) as char)
}

/// Unmasks the login token of the site: it is sent as byte values separated by points,
/// each the code of a character.
pub fn decode_auth_dv(raw: &str) -> (r: Result<String, SiteError>)
    ensures
        r is Ok <==> byte_codes(split_on(raw@, '.')),
        r matches Ok(t) ==> t@ == decoded(split_on(raw@, '.')),
{
    let pieces = split(raw, '.');
    let ghost ps = split_on(raw@, '.');
    let mut out: Vec<char> = Vec::new();
    let mut i: usize = 0;
    while i < pieces.len()
        invariant
            ps == split_on(raw@, '.'),
            string_views(pieces@) == ps,
            i <= pieces@.len(),
            out@.len() == i,
            forall|k: int| 0 <= k < i ==> #[trigger] is_byte_code(ps[k]),
            forall|k: int| 0 <= k < i ==> out@[k] == (unsigned_value(ps[k])->0 as u8) as char,
        decreases pieces@.len() - i,
    {
        proof {
            assert(ps[i as int] == pieces@[i as int]@);
        }
        match parse_unsigned(pieces[i].as_str(), 255) {
            Some(code) => {
                out.push((code as u8) as char);
            },
            None => {
                proof {
                    assert(!is_byte_code(ps[i as int]));
                }
                return Err(SiteError::Unexpected("invalid authDV code".to_string()));
            },
        }
        i = i + 1;
    }
    proof {
        assert(out@ =~= decoded(ps));
    }
    Ok(string_from_chars(out))
}

/// The type of a bet on an outcome, by its position in the offer: 1 for the first side,
/// 3 for the second, 2 for the draw.
pub open spec fn bet_type_at(position: int) -> Option<u32> {
    if position == 0 {
        Some(1)
    } else if position == 1 {
        Some(3)
    } else if position == 2 {
        Some(2)
    } else {
        None
    }
}

/// The type of a bet on an outcome of an offer (see `bet_type_at`).
pub fn bet_type(offer: &Offer, outcome: &Outcome) -> (r: Result<u32, SiteError>)
    requires
        offer@.outcomes.contains(outcome@),
    ensures
        match bet_type_at(outcome_position(offer@.outcomes, outcome@)) {
            Some(t) => r == Ok::<u32, SiteError>(t),
            None => r is Err,
        },
{
    let ghost os = offer@.outcomes;
    proof {
        lemma_outcome_position(os, outcome@);
        assert(os.skip(0) =~= os);
    }
    let mut i: usize = 0;
    while i < offer.outcomes.len() && !offer.outcomes[i].same_as(outcome)
        invariant
            os == offer@.outcomes,
            i <= offer.outcomes@.len(),
            forall|k: int| 0 <= k < i ==> #[trigger] os[k] != outcome@,
        decreases offer.outcomes@.len() - i,
    {
        proof {
            assert(os[i as int] == offer.outcomes@[i as int]@);
        }
        i = i + 1;
    }
    proof {
        let p = outcome_position(os, outcome@);
        let w = choose|k: int| 0 <= k < os.len() && os[k] == outcome@;
        if i < offer.outcomes@.len() {
            assert(os[i as int] == offer.outcomes@[i as int]@);
        }
        if p < i {
            assert(os[p] == outcome@);
        }
        if i < p {
            assert(os[i as int] != outcome@);
        }
    }
    if i == 0 {
        Ok(1)
    } else if i == 1 {
        Ok(3)
    } else if i == 2 {
        Ok(2)
    } else {
        Err(SiteError::Unexpected("Outcome not found in offer".to_string()))
    }
}


/// The offers read from some feed entries, in order.
pub open spec fn offers_of_infos(infos: Seq<Info>) -> Seq<OfferView>
    decreases infos.len(),
{
    if infos.len() == 0 {
        Seq::empty()
    } else {
        let prev = offers_of_infos(infos.drop_last());
        match offer_of_info(infos.last()) {
            Some(o) => prev.push(o),
            None => prev,
        }
    }
}

/// The ids of some offers.
pub open spec fn offer_ids(os: Seq<OfferView>) -> Seq<OID> {
    os.map_values(|o: OfferView| o.oid)
}

/// Some ids without repetitions, each where it first occurs.
pub open spec fn first_occurrences(ids: Seq<OID>) -> Seq<OID>
    decreases ids.len(),
{
    if ids.len() == 0 {
        Seq::empty()
    } else {
        let prev = first_occurrences(ids.drop_last());
        if prev.contains(ids.last()) {
            prev
        } else {
            prev.push(ids.last())
        }
    }
}

/// The ids of `active` that are not in `kept`, in order.
pub open spec fn dropped_ids(active: Seq<OID>, kept: Seq<OID>) -> Seq<OID>
    decreases active.len(),
{
    if active.len() == 0 {
        Seq::empty()
    } else {
        let prev = dropped_ids(active.drop_last(), kept);
        if kept.contains(active.last()) {
            prev
        } else {
            prev.push(active.last())
        }
    }
}

/// What a refresh of a feed reports: the offers that were active and are gone, then
/// every offer of the feed.
pub open spec fn refresh_messages(active: Seq<OID>, offers: Seq<OfferView>) -> Seq<MessageView> {
    dropped_ids(active, offer_ids(offers)).map_values(|id: OID| MessageView::Remove(id))
        + offers.map_values(|o: OfferView| MessageView::Upsert(o))
}

/// Whether `id` is among `ids`.
pub fn has_id(ids: &Vec<OID>, id: OID) -> (r: bool)
    ensures
        r == ids@.contains(id),
{
    let mut i: usize = 0;
    while i < ids.len()
        invariant
            i <= ids@.len(),
            forall|k: int| 0 <= k < i ==> ids@[k] != id,
        decreases ids@.len() - i,
    {
        if ids[i] == id {
            proof {
                assert(ids@[i as int] == id);
            }
            return true;
        }
        i = i + 1;
    }
    false
}

/// Takes in a refresh of a feed: reports the offers that were active and are gone, then
/// every offer read from the entries; the active offers become those of the feed.
pub fn refresh_feed(active: &mut Vec<OID>, infos: &Vec<Info>) -> (messages: Vec<Message>)
    requires
        forall|i: int| 0 <= i < infos@.len() ==> well_read(#[trigger] infos@[i]),
    ensures
        message_views(messages@) == refresh_messages(old(active)@, offers_of_infos(infos@)),
        final(active)@ == first_occurrences(offer_ids(offers_of_infos(infos@))),
{
    let ghost os = offers_of_infos(infos@);
    let mut offers: Vec<Offer> = Vec::new();
    let mut i: usize = 0;
    proof {
        assert(infos@.take(0) =~= Seq::<Info>::empty());
    }
    while i < infos.len()
        invariant
            i <= infos@.len(),
            forall|k: int| 0 <= k < infos@.len() ==> well_read(#[trigger] infos@[k]),
            offers@.map_values(|o: Offer| o@) == offers_of_infos(infos@.take(i as int)),
        decreases infos@.len() - i,
    {
        proof {
            let t = infos@.take(i + 1);
            assert(t.drop_last() =~= infos@.take(i as int));
            assert(t.last() == infos@[i as int]);
        }
        let ghost before = offers@.map_values(|o: Offer| o@);
        match grab_offer(&infos[i]) {
            Some(o) => {
                offers.push(o);
                proof {
                    assert(offers@.map_values(|o: Offer| o@) =~= before.push(offers@.last()@));
                }
            },
            None => {},
        }
        i = i + 1;
    }
    proof {
        assert(infos@.take(infos@.len() as int) =~= infos@);
    }
    let mut ids: Vec<OID> = Vec::new();
    let mut i: usize = 0;
    while i < offers.len()
        invariant
            i <= offers@.len(),
            offers@.map_values(|o: Offer| o@) == os,
            ids@ == offer_ids(os).take(i as int),
        decreases offers@.len() - i,
    {
        ids.push(offers[i].oid);
        proof {
            assert(ids@ =~= offer_ids(os).take(i + 1));
        }
        i = i + 1;
    }
    proof {
        assert(offer_ids(os).take(offers@.len() as int) =~= offer_ids(os));
    }
    let mut messages: Vec<Message> = Vec::new();
    let mut i: usize = 0;
    proof {
        assert(old(active)@.take(0) =~= Seq::<OID>::empty());
    }
    while i < active.len()
        invariant
            i <= active@.len(),
            active@ == old(active)@,
            ids@ == offer_ids(os),
            message_views(messages@) == dropped_ids(active@.take(i as int), ids@).map_values(|id: OID| MessageView::Remove(id)),
        decreases active@.len() - i,
    {
        let id = active[i];
        let ghost before = message_views(messages@);
        proof {
            let t = active@.take(i + 1);
            assert(t.drop_last() =~= active@.take(i as int));
            assert(t.last() == id);
        }
        if !has_id(&ids, id) {
            messages.push(Message::Remove(id));
            proof {
                assert(message_views(messages@) =~= before.push(MessageView::Remove(id)));
            }
        }
        i = i + 1;
    }
    proof {
        assert(active@.take(active@.len() as int) =~= active@);
    }
    let ghost removes = message_views(messages@);
    let mut fresh: Vec<OID> = Vec::new();
    let mut i: usize = 0;
    proof {
        assert(offer_ids(os).take(0) =~= Seq::<OID>::empty());
    }
    while offers.len() > 0
        invariant
            i + offers@.len() == os.len(),
            offers@.map_values(|o: Offer| o@) == os.skip(i as int),
            ids@ == offer_ids(os),
            os.len() == ids.len(),
            i <= ids@.len(),
            message_views(messages@) == removes + os.take(i as int).map_values(|o: OfferView| MessageView::Upsert(o)),
            fresh@ == first_occurrences(ids@.take(i as int)),
        decreases offers@.len(),
    {
        let ghost prev = offers@;
        let o = offers.remove(0);
        let id = o.oid;
        let ghost before = message_views(messages@);
        proof {
            assert(o == prev[0]);
            assert(prev.map_values(|o: Offer| o@)[0] == os.skip(i as int)[0]);
            assert(o@ == os[i as int]);
            let t = ids@.take(i + 1);
            assert(t.drop_last() =~= ids@.take(i as int));
            assert(t.last() == id);
            assert(os.skip(i as int).drop_first() =~= os.skip(i + 1));
        }
        if !has_id(&fresh, id) {
            fresh.push(id);
        }
        messages.push(Message::Upsert(o));
        proof {
            assert(message_views(messages@) =~= before.push(MessageView::Upsert(os[i as int])));
            assert(os.take(i + 1).map_values(|o: OfferView| MessageView::Upsert(o))
                =~= os.take(i as int).map_values(|o: OfferView| MessageView::Upsert(o)).push(MessageView::Upsert(os[i as int])));
        }
        i = i + 1;
    }
    proof {
        assert(os.take(i as int) =~= os);
        assert(ids@.take(i as int) =~= ids@);
    }
    *active = fresh;
    messages
}

/// What a look at one game tells of an offer about to be bet on: the offer is still
/// there exactly as it was. A failed look is an error, but for a game that is not found,
/// which tells that the offer is gone.
pub fn check_offer(success: bool, error: &str, value: Option<&Info>, offer: &Offer) -> (r: Result<bool, SiteError>)
    requires
        value matches Some(info) ==> well_read(*info),
    ensures
        if !success || value is None {
            if has_substring(error@, "not found"@) {
                r == Ok::<bool, SiteError>(false)
            } else {
                r matches Err(SiteError::Unexpected(e)) && e@ == error@
            }
        } else {
            match offer_of_info(*value->0) {
                Some(v) => r == Ok::<bool, SiteError>(v == offer@),
                None => r == Ok::<bool, SiteError>(false),
            }
        },
{
    match value {
        Some(info) if success => {
            match grab_offer(info) {
                Some(recent) => Ok(recent.same_as(offer)),
                None => Ok(false),
            }
        },
        _ => {
            if contains(error, "not found") {
                Ok(false)
            } else {
                Err(SiteError::Unexpected(error.to_string()))
            }
        },
    }
}

/// The element holding the login token.
pub const AUTH_DV_SELECTOR: &'static str = "#authDV";

/// The login token of a page as written: the `value` of its first token element; an
/// error when there is none (see `decode_auth_dv` for reading it).
pub fn raw_auth_dv(page: &str) -> (r: Result<String, SiteError>)
    ensures
        match first_attribute_of(page@, AUTH_DV_SELECTOR@, "value"@) {
            Some(t) => r matches Ok(v) && v@ == t,
            None => r is Err,
        },
{
    proof {
        reveal_strlit("value");
    }
    match first_attribute(page, AUTH_DV_SELECTOR, "value") {
        Some(t) => Ok(t),
        None => Err(SiteError::Unexpected("No login token".to_string())),
    }
}

} // verus!
