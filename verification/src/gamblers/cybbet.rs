//! CybBet: the games listed on its pages, the odds it reports for the games it is told
//! of, the games that started, and the start times of new games.

use vstd::prelude::*;
use std::collections::HashMap;
use crate::markets::{Game, Kind, Offer, OfferView, Outcome, OutcomeView, OID, DRAW, is_draw,
    title_is_draw, outcome_position, lemma_outcome_position};
use crate::gamblers::{Message, MessageView, message_views, live_after, removals_follow_upserts, reports_of};
use crate::parse::{has_substring, contains, odds_value, parse_odds, parse_unsigned, unsigned_value,
    trailing_spaces, trimmed, trim};
use crate::text::{str_eq, is_whitespace, chars_of, char_is_whitespace, string_from_chars};
use crate::error::SiteError;
use crate::html::{select_within, select, attribute, first_text_of, ElementView, css_select_within, attribute_value,
    first_text, element_views, selector_views, found_views, matches_of, optional_view};
use crate::parse::{split_once, split_once_at};
use vstd::std_specs::iter::IteratorSpec;

verus! {

broadcast use vstd::std_specs::hash::group_hash_axioms;

/// How often the site is asked for odds (seconds).
pub const PERIOD: u32 = 30;

/// A row of a games table, as read from the page: the class of its game icon, whether
/// it is disabled, the two teams, the game id and start as written, and the odds of the
/// first team, the second team and the draw (if there is a draw) as written. A field the
/// page lacks is none; it is looked at only for a row whose offer is read.
#[derive(Debug)]
pub struct Row {
    pub icon_class: String,
    pub disabled: bool,
    pub team_1: Option<String>,
    pub team_2: Option<String>,
    pub id: Option<String>,
    pub date: Option<String>,
    pub coef_1: Option<String>,
    pub coef_2: Option<String>,
    pub coef_draw: Option<String>,
}

/// `s` without whitespace at its end.
pub open spec fn without_trailing_spaces(s: Seq<char>) -> Seq<char> {
    s.take(s.len() - trailing_spaces(s))
}

/// The characters at the end of `s` after its last whitespace.
pub open spec fn final_run(s: Seq<char>) -> Seq<char>
    decreases s.len(),
{
    if s.len() == 0 || is_whitespace(s.last()) {
        Seq::empty()
    } else {
        final_run(s.drop_last()).push(s.last())
    }
}

/// The last whitespace-separated word of `s` (`split_whitespace().last()`); empty when
/// there is none.
pub open spec fn last_word(s: Seq<char>) -> Seq<char> {
    final_run(without_trailing_spaces(s))
}

/// The game of the class of a game icon.
pub open spec fn icon_game(class: Seq<char>) -> Option<Game> {
    if class == "csgo"@ {
        Some(Game::CounterStrike)
    } else if class == "dota2"@ {
        Some(Game::Dota2)
    } else if class == "hearthstone"@ {
        Some(Game::Hearthstone)
    } else if class == "heroesofthestorm"@ {
        Some(Game::HeroesOfTheStorm)
    } else if class == "lol"@ {
        Some(Game::LeagueOfLegends)
    } else if class == "ovw"@ {
        Some(Game::Overwatch)
    } else if class == "smite"@ {
        Some(Game::Smite)
    } else if class == "starcraft2"@ {
        Some(Game::StarCraft2)
    } else if class == "VG"@ {
        Some(Game::Vainglory)
    } else if class == "wot"@ {
        Some(Game::WorldOfTanks)
    } else {
        None
    }
}

/// The game of the class of a game icon.
fn game_of_icon(class: &str) -> (r: Option<Game>)
    ensures
        r == icon_game(class@),
{
    if str_eq(class, "csgo") {
        Some(Game::CounterStrike)
    } else if str_eq(class, "dota2") {
        Some(Game::Dota2)
    } else if str_eq(class, "hearthstone") {
        Some(Game::Hearthstone)
    } else if str_eq(class, "heroesofthestorm") {
        Some(Game::HeroesOfTheStorm)
    } else if str_eq(class, "lol") {
        Some(Game::LeagueOfLegends)
    } else if str_eq(class, "ovw") {
        Some(Game::Overwatch)
    } else if str_eq(class, "smite") {
        Some(Game::Smite)
    } else if str_eq(class, "starcraft2") {
        Some(Game::StarCraft2)
    } else if str_eq(class, "VG") {
        Some(Game::Vainglory)
    } else if str_eq(class, "wot") {
        Some(Game::WorldOfTanks)
    } else {
        None
    }
}

/// The last whitespace-separated word of `s`.
pub fn last_word_of(s: &str) -> (r: String)
    ensures
        r@ == last_word(s@),
{
    let v = chars_of(s);
    let mut end: usize = v.len();
    proof {
        assert(s@.take(s@.len() as int) =~= s@);
    }
    while end > 0 && char_is_whitespace(v[end - 1])
        invariant
            v@ == s@,
            end <= v@.len(),
            trailing_spaces(s@) == (v@.len() - end) + trailing_spaces(s@.take(end as int)),
        decreases end,
    {
        proof {
            assert(s@.take(end as int).drop_last() =~= s@.take(end - 1));
            assert(s@.take(end as int).last() == v@[end - 1]);
        }
        end = end - 1;
    }
    proof {
        if end > 0 {
            assert(s@.take(end as int).last() == v@[end - 1]);
        }
        assert(without_trailing_spaces(s@) =~= s@.take(end as int));
    }
    let ghost t = s@.take(end as int);
    let mut start: usize = end;
    proof {
        assert(t.take(end as int) =~= t);
        assert(t.skip(end as int) =~= Seq::<char>::empty());
    }
    while start > 0 && !char_is_whitespace(v[start - 1])
        invariant
            v@ == s@,
            start <= end <= v@.len(),
            t == s@.take(end as int),
            final_run(t) == final_run(t.take(start as int)) + t.skip(start as int),
        decreases start,
    {
        proof {
            assert(t.take(start as int).drop_last() =~= t.take(start - 1));
            assert(t.take(start as int).last() == v@[start - 1]);
            assert(final_run(t.take(start - 1)).push(v@[start - 1]) + t.skip(start as int)
                =~= final_run(t.take(start - 1)) + t.skip(start - 1));
        }
        start = start - 1;
    }
    proof {
        if start > 0 {
            assert(t.take(start as int).last() == v@[start - 1]);
        }
        assert(final_run(t.take(start as int)) =~= Seq::<char>::empty());
        assert(t.skip(start as int) =~= v@.subrange(start as int, end as int));
    }
    let mut w: Vec<char> = Vec::new();
    let mut i: usize = start;
    while i < end
        invariant
            start <= i <= end,
            end <= v@.len(),
            w@ == v@.subrange(start as int, i as int),
        decreases end - i,
    {
        w.push(v[i]);
        proof {
            assert(w@ =~= v@.subrange(start as int, i + 1));
        }
        i = i + 1;
    }
    string_from_chars(w)
}

/// Odds written in a cell, in thousandths, once trimmed.
pub open spec fn cell_odds(text: Seq<char>) -> Option<u32> {
    match odds_value(trimmed(text)) {
        Some(v) => if v <= u32::MAX { Some(v as u32) } else { None },
        None => None,
    }
}

/// An unsigned number of at most `max` as `str::parse` reads it.
pub open spec fn number_of(text: Seq<char>, max: nat) -> Option<nat> {
    match unsigned_value(text) {
        Some(v) => if v <= max { Some(v) } else { None },
        None => None,
    }
}

/// The offer of a row: an error when its icon has no class, a field it needs is missing
/// or a number cannot be read; none for a disabled row, a game not followed, or a live
/// team. The teams are looked at once the game is known, the other fields once no team
/// is live.
pub open spec fn row_offer(row: Row) -> Result<Option<OfferView>, ()> {
    let class = last_word(row.icon_class@);
    if class.len() == 0 {
        Err(())
    } else if row.disabled {
        Ok(None)
    } else {
        match icon_game(class) {
            None => Ok(None),
            Some(game) => match (row.team_1, row.team_2) {
                (Some(t1), Some(t2)) => if has_substring(t1@, "(Live)"@) || has_substring(t2@, "(Live)"@) {
                    Ok(None)
                } else {
                    match (row.id, row.date, row.coef_1, row.coef_2) {
                        (Some(id_text), Some(date_text), Some(c1_text), Some(c2_text)) => {
                            let draw_ok = match row.coef_draw {
                                Some(d) => cell_odds(d@) is Some,
                                None => true,
                            };
                            match (cell_odds(c1_text@), cell_odds(c2_text@), number_of(id_text@, u64::MAX as nat), number_of(date_text@, u32::MAX as nat)) {
                                (Some(c1), Some(c2), Some(id), Some(date)) => if draw_ok {
                                    Ok(Some(OfferView {
                                        oid: id as u64,
                                        date: date as u32,
                                        game,
                                        kind: Kind::Series,
                                        outcomes: seq![(t1@, c1), (t2@, c2)] + match row.coef_draw {
                                            Some(d) => seq![(DRAW@, cell_odds(d@)->0)],
                                            None => Seq::<OutcomeView>::empty(),
                                        },
                                    }))
                                } else {
                                    Err(())
                                },
                                _ => Err(()),
                            }
                        },
                        _ => Err(()),
                    }
                },
                _ => Err(()),
            },
        }
    }
}

/// The rows of games of a page.
pub const ROW_SELECTOR: &'static str = "tr.noResult[data-game-id]";

/// Inside a row: the game icon, the disabled mark, both team names, both teams' odds, and
/// the draw's odds.
pub const ICON_SELECTOR: &'static str = ".img_game_sprite";
pub const DISABLED_SELECTOR: &'static str = ".disabled";
pub const TEAM_1_SELECTOR: &'static str = ".team-name-first .team-name-text";
pub const TEAM_2_SELECTOR: &'static str = ".team-name-second .team-name-text";
pub const COEF_1_SELECTOR: &'static str = ".team-name-first + .price span";
pub const COEF_2_SELECTOR: &'static str = ".team-name-second + .price span";
pub const DRAW_SELECTOR: &'static str = ".draw .price";

/// The selectors looked up inside each row, in order.
pub open spec fn row_selectors() -> Seq<Seq<char>> {
    seq![ICON_SELECTOR@, DISABLED_SELECTOR@, TEAM_1_SELECTOR@, TEAM_2_SELECTOR@, COEF_1_SELECTOR@,
        COEF_2_SELECTOR@, DRAW_SELECTOR@]
}

/// Whether a row found in a page can be read: it has a game icon with a class, and its
/// disabled mark and draw odds could be looked for.
pub open spec fn row_readable(f: (ElementView, Seq<Option<Seq<ElementView>>>)) -> bool {
    let w = f.1;
    &&& w.len() == 7
    &&& w[0] matches Some(icons) && icons.len() > 0 && attribute_value(icons[0].1, "class"@) is Some
    &&& w[1] is Some
    &&& w[6] is Some
}

/// Whether a row holds what was found in the page: the class of its first game icon,
/// whether a disabled mark is in it, the texts of the first of the team names and odds,
/// and the game id and start from the row's attributes.
pub open spec fn row_fits(row: Row, f: (ElementView, Seq<Option<Seq<ElementView>>>)) -> bool {
    let w = f.1;
    &&& Some(row.icon_class@) == attribute_value(w[0]->0[0].1, "class"@)
    &&& row.disabled == (w[1]->0.len() > 0)
    &&& optional_view(row.team_1) == first_text(w[2])
    &&& optional_view(row.team_2) == first_text(w[3])
    &&& optional_view(row.id) == attribute_value(f.0.1, "data-game-id"@)
    &&& optional_view(row.date) == attribute_value(f.0.1, "data-game-start"@)
    &&& optional_view(row.coef_1) == first_text(w[4])
    &&& optional_view(row.coef_2) == first_text(w[5])
    &&& optional_view(row.coef_draw) == first_text(w[6])
}

/// Reads the rows of games of a page (see `row_fits`); an error when the rows cannot be
/// looked for or one cannot be read (see `row_readable`).
pub fn rows_of(page: &str) -> (r: Result<Vec<Row>, SiteError>)
    ensures
        match css_select_within(page@, ROW_SELECTOR@, row_selectors()) {
            None => r is Err,
            Some(fs) => if forall|i: int| 0 <= i < fs.len() ==> #[trigger] row_readable(fs[i]) {
                &&& r matches Ok(rows)
                &&& rows@.len() == fs.len()
                &&& forall|i: int| 0 <= i < fs.len() ==> row_fits(#[trigger] rows@[i], fs[i])
            } else {
                r is Err
            },
        },
{
    let inners = vec![ICON_SELECTOR, DISABLED_SELECTOR, TEAM_1_SELECTOR, TEAM_2_SELECTOR, COEF_1_SELECTOR,
        COEF_2_SELECTOR, DRAW_SELECTOR];
    proof {
        assert(selector_views(inners@) =~= row_selectors());
    }
    let found = match select_within(page, ROW_SELECTOR, &inners) {
        Some(found) => found,
        None => {
            return Err(SiteError::Unexpected("Strange error while searching for rows".to_string()));
        },
    };
    let ghost fs = found_views(Some(found))->0;
    let mut rows: Vec<Row> = Vec::new();
    let mut i: usize = 0;
    while i < found.len()
        invariant
            i <= found@.len(),
            fs == found_views(Some(found))->0,
            fs == css_select_within(page@, ROW_SELECTOR@, row_selectors())->0,
            forall|k: int| 0 <= k < found@.len() ==> (#[trigger] found@[k]).1@.len() == 7,
            rows@.len() == i,
            forall|k: int| 0 <= k < i ==> #[trigger] row_readable(fs[k]),
            forall|k: int| 0 <= k < i ==> row_fits(#[trigger] rows@[k], fs[k]),
        decreases found@.len() - i,
    {
        let f = &found[i];
        let w = &f.1;
        let ghost fv = fs[i as int];
        proof {
            assert(fv.1 == crate::html::within_views(w@));
            assert(fv.0 == crate::html::element_view(f.0));
        }
        let bad = SiteError::Unexpected("No result for a game's icon".to_string());
        let icons = match &w[0] {
            Some(icons) => icons,
            None => {
                proof {
                    assert(!row_readable(fv));
                }
                return Err(bad);
            },
        };
        if icons.len() == 0 {
            proof {
                assert(element_views(icons@).len() == 0);
                assert(!row_readable(fv));
            }
            return Err(bad);
        }
        let icon_class = match attribute(&icons[0], "class") {
            Some(c) => c,
            None => {
                proof {
                    assert(element_views(icons@)[0] == crate::html::element_view(icons@[0]));
                    assert(!row_readable(fv));
                }
                return Err(SiteError::Unexpected("There is no \"class\" attribute".to_string()));
            },
        };
        let disabled = match &w[1] {
            Some(marks) => marks.len() > 0,
            None => {
                proof {
                    assert(!row_readable(fv));
                }
                return Err(SiteError::Unexpected("Strange error while searching for .disabled".to_string()));
            },
        };
        let coef_draw = match &w[6] {
            Some(_) => first_text_of(&w[6]),
            None => {
                proof {
                    assert(!row_readable(fv));
                }
                return Err(SiteError::Unexpected("Strange error while searching for .draw .price".to_string()));
            },
        };
        let row = Row {
            icon_class,
            disabled,
            team_1: first_text_of(&w[2]),
            team_2: first_text_of(&w[3]),
            id: attribute(&f.0, "data-game-id"),
            date: attribute(&f.0, "data-game-start"),
            coef_1: first_text_of(&w[4]),
            coef_2: first_text_of(&w[5]),
            coef_draw,
        };
        proof {
            assert(element_views(icons@)[0] == crate::html::element_view(icons@[0]));
            assert(row_readable(fv));
            assert(row_fits(row, fv));
        }
        rows.push(row);
        i = i + 1;
    }
    Ok(rows)
}

/// The link showing the account's cash.
pub const CASH_SELECTOR: &'static str = "a[href=\"/account/usercash/cash\"]";

/// The text before the first space, or all of it when there is none.
pub open spec fn first_word(t: Seq<char>) -> Seq<char> {
    match split_once(t, ' ') {
        Some((a, _)) => a,
        None => t,
    }
}

/// The cash shown on an account page: the first word of the text of the first cash link;
/// an error when there is none.
pub fn cash_text(page: &str) -> (r: Result<String, SiteError>)
    ensures
        match matches_of(page@, CASH_SELECTOR@) {
            Some(es) => if es.len() > 0 {
                r matches Ok(t) && t@ == first_word(es[0].0)
            } else {
                r is Err
            },
            None => r is Err,
        },
{
    let es = match select(page, CASH_SELECTOR) {
        Some(es) => es,
        None => {
            return Err(SiteError::Unexpected("Strange error while searching for the cash".to_string()));
        },
    };
    if es.len() == 0 {
        return Err(SiteError::Unexpected("No result for the cash".to_string()));
    }
    proof {
        assert(element_views(es@)[0] == crate::html::element_view(es@[0]));
    }
    let text = &es[0].text;
    match split_once_at(text.as_str(), ' ') {
        Some((a, _)) => Ok(a),
        None => Ok(text.clone()),
    }
}

/// Odds written in a cell, trimmed.
fn odds_in(text: &str) -> (r: Option<u32>)
    ensures
        r == cell_odds(text@),
{
    let t = trim(text);
    parse_odds(t.as_str())
}

/// Reads the offer of a row (see `row_offer`).
pub fn offer_of_row(row: &Row) -> (r: Result<Option<Offer>, SiteError>)
    ensures
        match row_offer(*row) {
            Ok(Some(v)) => r matches Ok(Some(o)) && o@ == v,
            Ok(None) => r matches Ok(None),
            Err(_) => r is Err,
        },
{
    let class = last_word_of(row.icon_class.as_str());
    proof {
        reveal_strlit("");
    }
    if str_eq(class.as_str(), "") {
        assert(class@ =~= Seq::<char>::empty());
        return Err(SiteError::Unexpected("Empty \"class\" attribute".to_string()));
    }
    assert(class@.len() != 0) by {
        if class@.len() == 0 {
            assert(class@ =~= ""@);
        }
    }
    if row.disabled {
        return Ok(None);
    }
    let game = match game_of_icon(class.as_str()) {
        Some(game) => game,
        None => {
            return Ok(None);
        },
    };
    let (team_1, team_2) = match (&row.team_1, &row.team_2) {
        (Some(t1), Some(t2)) => (t1, t2),
        _ => {
            return Err(SiteError::Unexpected("No result for the team names".to_string()));
        },
    };
    if contains(team_1.as_str(), "(Live)") || contains(team_2.as_str(), "(Live)") {
        return Ok(None);
    }
    let (id_text, date_text, c1_text, c2_text) = match (&row.id, &row.date, &row.coef_1, &row.coef_2) {
        (Some(i), Some(d), Some(c1), Some(c2)) => (i, d, c1, c2),
        _ => {
            return Err(SiteError::Unexpected("No result for the game's fields".to_string()));
        },
    };
    let bad = SiteError::Unexpected("invalid number".to_string());
    let coef_1 = match odds_in(c1_text.as_str()) {
        Some(c) => c,
        None => {
            return Err(bad);
        },
    };
    let coef_2 = match odds_in(c2_text.as_str()) {
        Some(c) => c,
        None => {
            return Err(bad);
        },
    };
    let coef_draw = match &row.coef_draw {
        Some(d) => match odds_in(d.as_str()) {
            Some(c) => Some(c),
            None => {
                return Err(bad);
            },
        },
        None => None,
    };
    let oid = match parse_unsigned(id_text.as_str(), u64::MAX) {
        Some(id) => id,
        None => {
            return Err(bad);
        },
    };
    let date = match parse_unsigned(date_text.as_str(), u32::MAX as u64) {
        Some(d) => d as u32,
        None => {
            return Err(bad);
        },
    };
    let mut outcomes: Vec<Outcome> = Vec::new();
    outcomes.push(Outcome(team_1.clone(), coef_1));
    outcomes.push(Outcome(team_2.clone(), coef_2));
    match coef_draw {
        Some(c) => {
            outcomes.push(Outcome(DRAW.to_string(), c));
        },
        None => {},
    }
    let offer = Offer { oid, date, game, kind: Kind::Series, outcomes };
    proof {
        let v = row_offer(*row)->Ok_0->0;
        assert(offer@.outcomes =~= v.outcomes);
    }
    Ok(Some(offer))
}


/// The offers of some rows, in order: the first row that cannot be read makes it an error.
pub open spec fn rows_offers(rows: Seq<Row>) -> Result<Seq<OfferView>, ()>
    decreases rows.len(),
{
    if rows.len() == 0 {
        Ok(Seq::empty())
    } else {
        match rows_offers(rows.drop_last()) {
            Err(_) => Err(()),
            Ok(prev) => match row_offer(rows.last()) {
                Err(_) => Err(()),
                Ok(None) => Ok(prev),
                Ok(Some(o)) => Ok(prev.push(o)),
            },
        }
    }
}

/// The views of some offers.
pub open spec fn offer_views(os: Seq<Offer>) -> Seq<OfferView> {
    os.map_values(|o: Offer| o@)
}

proof fn lemma_rows_error_stays(rows: Seq<Row>, n: int)
    requires
        0 <= n <= rows.len(),
        rows_offers(rows.take(n)) is Err,
    ensures
        rows_offers(rows) is Err,
    decreases rows.len() - n,
{
    if n < rows.len() {
        assert(rows.take(n + 1).drop_last() =~= rows.take(n));
        lemma_rows_error_stays(rows, n + 1);
    } else {
        assert(rows.take(n) =~= rows);
    }
}

/// Reads the offers of the rows of a games table (see `rows_offers`).
pub fn extract_offers(rows: &Vec<Row>) -> (r: Result<Vec<Offer>, SiteError>)
    ensures
        match rows_offers(rows@) {
            Ok(os) => r matches Ok(v) && offer_views(v@) == os,
            Err(_) => r is Err,
        },
{
    let mut offers: Vec<Offer> = Vec::new();
    let mut i: usize = 0;
    proof {
        assert(rows@.take(0) =~= Seq::<Row>::empty());
        assert(offer_views(offers@) =~= Seq::<OfferView>::empty());
    }
    while i < rows.len()
        invariant
            i <= rows@.len(),
            rows_offers(rows@.take(i as int)) == Ok::<Seq<OfferView>, ()>(offer_views(offers@)),
        decreases rows@.len() - i,
    {
        proof {
            let t = rows@.take(i + 1);
            assert(t.drop_last() =~= rows@.take(i as int));
            assert(t.last() == rows@[i as int]);
        }
        let ghost before = offer_views(offers@);
        match offer_of_row(&rows[i]) {
            Err(e) => {
                proof {
                    lemma_rows_error_stays(rows@, i + 1);
                }
                return Err(e);
            },
            Ok(None) => {},
            Ok(Some(o)) => {
                offers.push(o);
                proof {
                    assert(offer_views(offers@) =~= before.push(offers@.last()@));
                }
            },
        }
        i = i + 1;
    }
    proof {
        assert(rows@.take(rows@.len() as int) =~= rows@);
    }
    Ok(offers)
}

/// The games that start after `threshold`, as (id, start) pairs, from the (id, start)
/// texts the site reports: an error when a number cannot be read.
pub open spec fn relevant_games(games: Seq<(Seq<char>, Seq<char>)>, threshold: nat) -> Result<Seq<(u32, u32)>, ()>
    decreases games.len(),
{
    if games.len() == 0 {
        Ok(Seq::empty())
    } else {
        match relevant_games(games.drop_last(), threshold) {
            Err(_) => Err(()),
            Ok(prev) => {
                let (id, date) = games.last();
                match number_of(date, u32::MAX as nat) {
                    None => Err(()),
                    Some(d) => if d < threshold {
                        Ok(prev)
                    } else {
                        match number_of(id, u32::MAX as nat) {
                            None => Err(()),
                            Some(i) => Ok(prev.push((i as u32, d as u32))),
                        }
                    },
                }
            },
        }
    }
}

/// The views of (id, start) texts.
pub open spec fn pair_views(games: Seq<(String, String)>) -> Seq<(Seq<char>, Seq<char>)> {
    games.map_values(|g: (String, String)| (g.0@, g.1@))
}

proof fn lemma_relevant_error_stays(games: Seq<(Seq<char>, Seq<char>)>, threshold: nat, n: int)
    requires
        0 <= n <= games.len(),
        relevant_games(games.take(n), threshold) is Err,
    ensures
        relevant_games(games, threshold) is Err,
    decreases games.len() - n,
{
    if n < games.len() {
        assert(games.take(n + 1).drop_last() =~= games.take(n));
        lemma_relevant_error_stays(games, threshold, n + 1);
    } else {
        assert(games.take(n) =~= games);
    }
}

/// The new games worth asking about at `now`: those that start no sooner than one period
/// later (see `relevant_games`).
pub fn filter_relevant(games: &Vec<(String, String)>, now: u32) -> (r: Result<Vec<(u32, u32)>, SiteError>)
    requires
        now + PERIOD <= u32::MAX,
    ensures
        match relevant_games(pair_views(games@), (now + PERIOD) as nat) {
            Ok(rs) => r matches Ok(v) && v@ == rs,
            Err(_) => r is Err,
        },
{
    let threshold = now + PERIOD;
    let ghost gv = pair_views(games@);
    let mut relevant: Vec<(u32, u32)> = Vec::new();
    let mut i: usize = 0;
    proof {
        assert(gv.take(0) =~= Seq::<(Seq<char>, Seq<char>)>::empty());
    }
    while i < games.len()
        invariant
            i <= games@.len(),
            gv == pair_views(games@),
            threshold == now + PERIOD,
            relevant_games(gv.take(i as int), threshold as nat) == Ok::<Seq<(u32, u32)>, ()>(relevant@),
        decreases games@.len() - i,
    {
        proof {
            let t = gv.take(i + 1);
            assert(t.drop_last() =~= gv.take(i as int));
            assert(t.last() == (games@[i as int].0@, games@[i as int].1@));
        }
        let date = match parse_unsigned(games[i].1.as_str(), u32::MAX as u64) {
            Some(d) => d as u32,
            None => {
                proof {
                    lemma_relevant_error_stays(gv, threshold as nat, i + 1);
                }
                return Err(SiteError::Unexpected("invalid start".to_string()));
            },
        };
        if date >= threshold {
            let id = match parse_unsigned(games[i].0.as_str(), u32::MAX as u64) {
                Some(id) => id as u32,
                None => {
                    proof {
                        lemma_relevant_error_stays(gv, threshold as nat, i + 1);
                    }
                    return Err(SiteError::Unexpected("invalid id".to_string()));
                },
            };
            relevant.push((id, date));
        }
        i = i + 1;
    }
    proof {
        assert(gv.take(games@.len() as int) =~= gv);
    }
    Ok(relevant)
}

/// The outcome of a bet for the site: 0 for the draw, otherwise the position of the
/// outcome in the offer, counting from 1.
pub fn bet_result(offer: &Offer, outcome: &Outcome) -> (r: usize)
    requires
        !is_draw(outcome@.0) ==> offer@.outcomes.contains(outcome@),
    ensures
        r == if is_draw(outcome@.0) { 0 } else { 1 + outcome_position(offer@.outcomes, outcome@) },
{
    if title_is_draw(outcome.0.as_str()) {
        return 0;
    }
    crate::gamblers::egamingbets::bet_side(offer, outcome)
}

/// Whether the reply to placing a bet tells it was placed.
pub fn bet_placed(response: &str) -> (r: bool)
    ensures
        r == has_substring(response@, "messageSuccess"@),
{
    contains(response, "messageSuccess")
}

/// Whether the reply to checking a bet tells it can be placed: it carries no warning.
pub fn bet_checked(response: &str) -> (r: bool)
    ensures
        r == has_substring(response@, "warning\":\"\""@),
{
    contains(response, "warning\":\"\"")
}


/// Odds reported for a game: its id, and the odds of the first team, the second team and
/// the draw (zero when there is no draw).
pub type OddsUpdate = (u32, u32, u32, u32);

/// An offer with new odds: those of both teams, and of the draw when positive.
pub open spec fn with_odds(o: OfferView, u: OddsUpdate) -> OfferView {
    let os = o.outcomes.update(0, (o.outcomes[0].0, u.1)).update(1, (o.outcomes[1].0, u.2));
    OfferView { outcomes: if u.3 > 0 { os.update(2, (os[2].0, u.3)) } else { os }, ..o }
}

/// What odds updates do to the offers by game id: each update of a known game changes
/// its odds and reports the offer.
pub open spec fn apply_odds(table: Map<u32, OfferView>, us: Seq<OddsUpdate>) -> (Map<u32, OfferView>, Seq<MessageView>)
    decreases us.len(),
{
    if us.len() == 0 {
        (table, Seq::empty())
    } else {
        let (t, ms) = apply_odds(table, us.drop_last());
        let u = us.last();
        if t.contains_key(u.0) {
            let o = with_odds(t[u.0], u);
            (t.insert(u.0, o), ms.push(MessageView::Upsert(o)))
        } else {
            (t, ms)
        }
    }
}

/// Whether odds updates fit the offers: an update with a draw is for a game with a draw.
pub open spec fn odds_fit(table: Map<u32, OfferView>, us: Seq<OddsUpdate>) -> bool {
    forall|i: int| 0 <= i < us.len() ==> (#[trigger] us[i]).3 > 0 && table.contains_key(us[i].0)
        ==> table[us[i].0].outcomes.len() >= 3
}

/// The offers by game id after following offers in turn, each under its id.
pub open spec fn loaded(table: Map<u32, OfferView>, os: Seq<OfferView>) -> Map<u32, OfferView>
    decreases os.len(),
{
    if os.len() == 0 {
        table
    } else {
        loaded(table, os.drop_last()).insert(os.last().oid as u32, os.last())
    }
}

/// What the ids of started games (as written) do to the offers by game id: each id is
/// read in turn, and a followed game is dropped with its offer reported gone. An id that
/// does not read stops it; the flag tells whether all were read.
pub open spec fn stop_games(table: Map<u32, OfferView>, ids: Seq<Seq<char>>) -> (Map<u32, OfferView>, Seq<MessageView>, bool)
    decreases ids.len(),
{
    if ids.len() == 0 {
        (table, Seq::empty(), true)
    } else {
        let (t, ms, ok) = stop_games(table, ids.drop_last());
        if !ok {
            (t, ms, false)
        } else {
            match number_of(ids.last(), u32::MAX as nat) {
                None => (t, ms, false),
                Some(n) => {
                    let k = n as u32;
                    if t.contains_key(k) {
                        (t.remove(k), ms.push(MessageView::Remove(t[k].oid)), true)
                    } else {
                        (t, ms, true)
                    }
                },
            }
        }
    }
}

/// Once the ids stop being read, the later ids change nothing.
proof fn lemma_stop_games_stays(table: Map<u32, OfferView>, ids: Seq<Seq<char>>, n: int)
    requires
        0 <= n <= ids.len(),
        !stop_games(table, ids.take(n)).2,
    ensures
        stop_games(table, ids) == stop_games(table, ids.take(n)),
    decreases ids.len() - n,
{
    if n < ids.len() {
        assert(ids.take(n + 1).drop_last() =~= ids.take(n));
        lemma_stop_games_stays(table, ids, n + 1);
    } else {
        assert(ids.take(n) =~= ids);
    }
}

/// The ids as written.
pub open spec fn id_views(ids: Seq<String>) -> Seq<Seq<char>> {
    ids.map_values(|s: String| s@)
}

/// Whether the followed offers fit the reports so far: every report of an offer gone
/// followed a report of it, and each followed offer is kept under its id and reported.
pub open spec fn tracks(table: Map<u32, OfferView>, ms: Seq<MessageView>) -> bool {
    &&& removals_follow_upserts(ms)
    &&& forall|k: u32| #[trigger] table.contains_key(k) ==> table[k].oid as u32 == k && live_after(ms).contains(table[k].oid)
}

/// Reporting an offer and keeping it under its id keeps the offers fitting the reports.
proof fn lemma_tracks_upsert(table: Map<u32, OfferView>, ms: Seq<MessageView>, o: OfferView)
    requires
        tracks(table, ms),
    ensures
        tracks(table.insert(o.oid as u32, o), ms.push(MessageView::Upsert(o))),
{
    let ms2 = ms.push(MessageView::Upsert(o));
    assert(ms2.drop_last() =~= ms);
}

/// The reports of some offers, in order.
pub open spec fn upserts(os: Seq<OfferView>) -> Seq<MessageView> {
    os.map_values(|o: OfferView| MessageView::Upsert(o))
}

/// The watcher starts with no offer followed and nothing reported.
pub proof fn cyb_tracking_starts()
    ensures
        tracks(Map::empty(), Seq::empty()),
{
}

/// Following the offers of the first page and reporting them (see `CybState::load`)
/// keeps the offers fitting the reports.
pub proof fn cyb_load_keeps_tracking(table: Map<u32, OfferView>, ms: Seq<MessageView>, os: Seq<OfferView>)
    requires
        tracks(table, ms),
    ensures
        tracks(loaded(table, os), ms + upserts(os)),
    decreases os.len(),
{
    if os.len() == 0 {
        assert(ms + upserts(os) =~= ms);
    } else {
        let p = os.drop_last();
        cyb_load_keeps_tracking(table, ms, p);
        lemma_tracks_upsert(loaded(table, p), ms + upserts(p), os.last());
        assert(ms + upserts(os) =~= (ms + upserts(p)).push(MessageView::Upsert(os.last())));
    }
}

/// Taking in odds updates (see `CybState::apply_odds`) keeps the offers fitting the
/// reports.
pub proof fn cyb_odds_keep_tracking(table: Map<u32, OfferView>, ms: Seq<MessageView>, us: Seq<OddsUpdate>)
    requires
        tracks(table, ms),
    ensures
        tracks(apply_odds(table, us).0, ms + apply_odds(table, us).1),
    decreases us.len(),
{
    if us.len() == 0 {
        assert(ms + apply_odds(table, us).1 =~= ms);
    } else {
        let p = us.drop_last();
        cyb_odds_keep_tracking(table, ms, p);
        let (t, ns) = apply_odds(table, p);
        let u = us.last();
        if t.contains_key(u.0) {
            let o = with_odds(t[u.0], u);
            assert(o.oid == t[u.0].oid);
            lemma_tracks_upsert(t, ms + ns, o);
            assert(ms + ns.push(MessageView::Upsert(o)) =~= (ms + ns).push(MessageView::Upsert(o)));
        }
    }
}

/// Dropping the started games (see `CybState::started`) reports only offers that were
/// reported and not yet gone, and keeps the offers fitting the reports.
pub proof fn cyb_started_keeps_tracking(table: Map<u32, OfferView>, ms: Seq<MessageView>, ids: Seq<Seq<char>>)
    requires
        tracks(table, ms),
    ensures
        tracks(stop_games(table, ids).0, ms + stop_games(table, ids).1),
    decreases ids.len(),
{
    if ids.len() == 0 {
        assert(ms + stop_games(table, ids).1 =~= ms);
    } else {
        let p = ids.drop_last();
        cyb_started_keeps_tracking(table, ms, p);
        let (t, ns, ok) = stop_games(table, p);
        if ok {
            match number_of(ids.last(), u32::MAX as nat) {
                None => {},
                Some(n) => {
                    let k = n as u32;
                    if t.contains_key(k) {
                        let before = ms + ns;
                        let after = before.push(MessageView::Remove(t[k].oid));
                        assert(ms + ns.push(MessageView::Remove(t[k].oid)) =~= after);
                        assert(after.drop_last() =~= before);
                        let t2 = t.remove(k);
                        assert forall|j: u32| #[trigger] t2.contains_key(j) implies t2[j].oid as u32 == j
                            && live_after(after).contains(t2[j].oid) by {
                            assert(t[j].oid as u32 == j);
                            assert(t[j].oid != t[k].oid);
                        }
                    }
                },
            }
        }
    }
}

/// Storing a changed start of a followed game and reporting it (see
/// `CybState::start_time`) keeps the offers fitting the reports.
pub proof fn cyb_start_time_keeps_tracking(table: Map<u32, OfferView>, ms: Seq<MessageView>, id: u32, date: u32)
    requires
        tracks(table, ms),
        table.contains_key(id),
    ensures
        tracks(table.insert(id, OfferView { date, ..table[id] }), ms.push(MessageView::Upsert(OfferView { date, ..table[id] }))),
{
    lemma_tracks_upsert(table, ms, OfferView { date, ..table[id] });
}

/// Following a new game by the first offer read for it and reporting it (see
/// `CybState::add_game`) keeps the offers fitting the reports, when that offer is the
/// game's: its id is the game id.
pub proof fn cyb_add_game_keeps_tracking(table: Map<u32, OfferView>, ms: Seq<MessageView>, id: u32, o: OfferView)
    requires
        tracks(table, ms),
        o.oid as u32 == id,
    ensures
        tracks(table.insert(id, o), ms.push(MessageView::Upsert(o))),
{
    lemma_tracks_upsert(table, ms, o);
}

/// What storing the start of a followed game does: a changed start is stored and the
/// offer reported; the same start changes nothing.
pub open spec fn start_stored(t: Map<u32, OfferView>, id: u32, date: u32) -> (Map<u32, OfferView>, Seq<MessageView>) {
    if t[id].date != date {
        (t.insert(id, OfferView { date, ..t[id] }), seq![MessageView::Upsert(OfferView { date, ..t[id] })])
    } else {
        (t, Seq::empty())
    }
}

/// Whether one step of the watcher takes the followed offers from `t` to `t2` with the
/// reports `batch`: following the offers of the first page (`CybState::load`), taking in
/// odds (`apply_odds`), dropping started games (`started`), storing a game's start
/// (`start_time`), or following a new game by its first offer, whose id is the game's
/// (`add_game`).
pub open spec fn cyb_step(t: Map<u32, OfferView>, t2: Map<u32, OfferView>, batch: Seq<MessageView>) -> bool {
    ||| exists|os: Seq<OfferView>| #[trigger] loaded(t, os) == t2 && batch == upserts(os)
    ||| exists|us: Seq<OddsUpdate>| #[trigger] apply_odds(t, us) == (t2, batch)
    ||| exists|ids: Seq<Seq<char>>| #[trigger] stop_games(t, ids).0 == t2 && stop_games(t, ids).1 == batch
    ||| exists|id: u32, date: u32| t.contains_key(id) && #[trigger] start_stored(t, id, date) == (t2, batch)
    ||| exists|id: u32, o: OfferView| #[trigger] t.insert(id, o) == t2 && o.oid as u32 == id && batch == seq![MessageView::Upsert(o)]
    ||| t2 == t && batch == Seq::<MessageView>::empty()
}

/// Whether `ts` are the followed offers through a run of the watcher from the start, and
/// `batches` the reports of each step.
pub open spec fn cyb_run(ts: Seq<Map<u32, OfferView>>, batches: Seq<Seq<MessageView>>) -> bool {
    &&& ts.len() == batches.len() + 1
    &&& ts[0] == Map::<u32, OfferView>::empty()
    &&& forall|i: int| 0 <= i < batches.len() ==> #[trigger] cyb_step(ts[i], ts[i + 1], batches[i])
}

/// Over any run of the watcher, every report of an offer gone follows a report of that
/// offer, with no report of it gone in between.
pub proof fn cyb_run_removals_follow_upserts(ts: Seq<Map<u32, OfferView>>, batches: Seq<Seq<MessageView>>)
    requires
        cyb_run(ts, batches),
    ensures
        removals_follow_upserts(reports_of(batches)),
{
    lemma_cyb_run_tracks(ts, batches, batches.len() as int);
    assert(batches.take(batches.len() as int) =~= batches);
}

proof fn lemma_cyb_run_tracks(ts: Seq<Map<u32, OfferView>>, batches: Seq<Seq<MessageView>>, k: int)
    requires
        cyb_run(ts, batches),
        0 <= k <= batches.len(),
    ensures
        tracks(ts[k], reports_of(batches.take(k))),
    decreases k,
{
    if k == 0 {
        assert(batches.take(0) =~= Seq::<Seq<MessageView>>::empty());
        cyb_tracking_starts();
    } else {
        lemma_cyb_run_tracks(ts, batches, k - 1);
        let t = ts[k - 1];
        let t2 = ts[k];
        let ms = reports_of(batches.take(k - 1));
        let batch = batches[k - 1];
        assert(batches.take(k).drop_last() =~= batches.take(k - 1));
        assert(reports_of(batches.take(k)) == ms + batch);
        let i = k - 1;
        assert(cyb_step(ts[i], ts[i + 1], batches[i]));
        assert(ts[i + 1] == t2);
        if exists|os: Seq<OfferView>| #[trigger] loaded(t, os) == t2 && batch == upserts(os) {
            let os = choose|os: Seq<OfferView>| #[trigger] loaded(t, os) == t2 && batch == upserts(os);
            cyb_load_keeps_tracking(t, ms, os);
        } else if exists|us: Seq<OddsUpdate>| #[trigger] apply_odds(t, us) == (t2, batch) {
            let us = choose|us: Seq<OddsUpdate>| #[trigger] apply_odds(t, us) == (t2, batch);
            cyb_odds_keep_tracking(t, ms, us);
        } else if exists|ids: Seq<Seq<char>>| #[trigger] stop_games(t, ids).0 == t2 && stop_games(t, ids).1 == batch {
            let ids = choose|ids: Seq<Seq<char>>| #[trigger] stop_games(t, ids).0 == t2 && stop_games(t, ids).1 == batch;
            cyb_started_keeps_tracking(t, ms, ids);
        } else if exists|id: u32, date: u32| t.contains_key(id) && #[trigger] start_stored(t, id, date) == (t2, batch) {
            let (id, date) = choose|id: u32, date: u32| t.contains_key(id) && #[trigger] start_stored(t, id, date) == (t2, batch);
            if t[id].date != date {
                cyb_start_time_keeps_tracking(t, ms, id, date);
                assert(ms + batch =~= ms.push(MessageView::Upsert(OfferView { date, ..t[id] })));
            } else {
                assert(ms + batch =~= ms);
            }
        } else if exists|id: u32, o: OfferView| #[trigger] t.insert(id, o) == t2 && o.oid as u32 == id && batch == seq![MessageView::Upsert(o)] {
            let (id, o) = choose|id: u32, o: OfferView| #[trigger] t.insert(id, o) == t2 && o.oid as u32 == id && batch == seq![MessageView::Upsert(o)];
            cyb_add_game_keeps_tracking(t, ms, id, o);
            assert(ms + batch =~= ms.push(MessageView::Upsert(o)));
        } else {
            assert(ms + batch =~= ms);
        }
    }
}

/// The offers the watcher follows, by game id.
pub struct CybState {
    offers: HashMap<u32, Offer>,
}

impl View for CybState {
    type V = Map<u32, OfferView>;

    closed spec fn view(&self) -> Map<u32, OfferView> {
        Map::new(|k: u32| self.offers@.contains_key(k), |k: u32| self.offers@[k]@)
    }
}

/// Offers with two teams and maybe a draw.
pub open spec fn two_or_three(table: Map<u32, OfferView>) -> bool {
    forall|k: u32| #[trigger] table.contains_key(k) ==> 2 <= table[k].outcomes.len() <= 3
}

impl CybState {
    /// No game followed yet.
    pub fn new() -> (s: CybState)
        ensures
            s@ == Map::<u32, OfferView>::empty(),
    {
        let s = CybState { offers: HashMap::new() };
        proof {
            assert(s@ =~= Map::<u32, OfferView>::empty());
        }
        s
    }

    /// Whether the game is followed.
    pub fn knows(&self, id: u32) -> (r: bool)
        ensures
            r == self@.contains_key(id),
    {
        self.offers.contains_key(&id)
    }

    /// Follows the offers read from the first page, by their ids, and reports them.
    pub fn load(&mut self, offers: Vec<Offer>) -> (messages: Vec<Message>)
        requires
            two_or_three(old(self)@),
            forall|i: int| 0 <= i < offers@.len() ==> 2 <= (#[trigger] offers@[i]).outcomes@.len() <= 3,
        ensures
            two_or_three(final(self)@),
            message_views(messages@) == offer_views(offers@).map_values(|o: OfferView| MessageView::Upsert(o)),
            final(self)@ == loaded(old(self)@, offer_views(offers@)),
            forall|k: u32| #[trigger] final(self)@.contains_key(k) <==> old(self)@.contains_key(k)
                || exists|i: int| 0 <= i < offers@.len() && offers@[i].oid as u32 == k,
    {
        let mut messages: Vec<Message> = Vec::new();
        let mut i: usize = 0;
        let ghost start = self@;
        proof {
            assert(offer_views(offers@).take(0) =~= Seq::<OfferView>::empty());
        }
        while i < offers.len()
            invariant
                i <= offers@.len(),
                two_or_three(self@),
                forall|q: int| 0 <= q < offers@.len() ==> 2 <= (#[trigger] offers@[q]).outcomes@.len() <= 3,
                message_views(messages@) == offer_views(offers@).take(i as int).map_values(|o: OfferView| MessageView::Upsert(o)),
                start == old(self)@,
                self@ == loaded(start, offer_views(offers@).take(i as int)),
                forall|k: u32| #[trigger] self@.contains_key(k) <==> start.contains_key(k)
                    || exists|q: int| 0 <= q < i && offers@[q].oid as u32 == k,
            decreases offers@.len() - i,
        {
            let o = &offers[i];
            let ghost before = self@;
            let ghost msgs = message_views(messages@);
            self.offers.insert(o.oid as u32, o.duplicate());
            messages.push(Message::Upsert(o.duplicate()));
            proof {
                assert(self@ =~= before.insert(o.oid as u32, o@));
                assert(o@.outcomes.len() == o.outcomes@.len());
                assert(message_views(messages@) =~= msgs.push(MessageView::Upsert(o@)));
                assert(offer_views(offers@).take(i + 1) =~= offer_views(offers@).take(i as int).push(o@));
                assert(offer_views(offers@).take(i + 1).drop_last() =~= offer_views(offers@).take(i as int));
                assert(offer_views(offers@).take(i + 1).last() == o@);
                assert forall|k: u32| #[trigger] self@.contains_key(k) <==> start.contains_key(k)
                    || exists|q: int| 0 <= q < i + 1 && offers@[q].oid as u32 == k by {
                    if k == o.oid as u32 {
                        assert(offers@[i as int].oid as u32 == k);
                    }
                }
            }
            i = i + 1;
        }
        proof {
            assert(offer_views(offers@).take(offers@.len() as int) =~= offer_views(offers@));
        }
        messages
    }

    /// Takes in odds updates (see `apply_odds`).
    pub fn apply_odds(&mut self, updates: &Vec<OddsUpdate>) -> (messages: Vec<Message>)
        requires
            two_or_three(old(self)@),
            odds_fit(old(self)@, updates@),
        ensures
            two_or_three(final(self)@),
            (final(self)@, message_views(messages@)) == apply_odds(old(self)@, updates@),
    {
        let ghost start = self@;
        let mut messages: Vec<Message> = Vec::new();
        let mut i: usize = 0;
        proof {
            assert(updates@.take(0) =~= Seq::<OddsUpdate>::empty());
        }
        while i < updates.len()
            invariant
                i <= updates@.len(),
                two_or_three(self@),
                start == old(self)@,
                odds_fit(start, updates@),
                forall|k: u32| #[trigger] self@.contains_key(k) <==> start.contains_key(k),
                forall|k: u32| self@.contains_key(k) ==> #[trigger] self@[k].outcomes.len() == start[k].outcomes.len(),
                (self@, message_views(messages@)) == apply_odds(start, updates@.take(i as int)),
            decreases updates@.len() - i,
        {
            let u = updates[i];
            proof {
                let t = updates@.take(i + 1);
                assert(t.drop_last() =~= updates@.take(i as int));
                assert(t.last() == u);
            }
            let ghost before = self@;
            let ghost msgs = message_views(messages@);
            if self.offers.contains_key(&u.0) {
                let mut o = self.offers.get(&u.0).unwrap().duplicate();
                proof {
                    assert(o@.outcomes.len() == o.outcomes@.len());
                    assert(updates@[i as int] == u);
                    assert(o@ == before[u.0]);
                    assert(before.contains_key(u.0));
                    assert(start.contains_key(u.0));
                    assert(before[u.0].outcomes.len() == start[u.0].outcomes.len());
                    assert(u.3 > 0 ==> o.outcomes@.len() >= 3);
                }
                let t1 = o.outcomes[0].0.clone();
                o.outcomes.set(0, Outcome(t1, u.1));
                let t2 = o.outcomes[1].0.clone();
                o.outcomes.set(1, Outcome(t2, u.2));
                if u.3 > 0 {
                    let t3 = o.outcomes[2].0.clone();
                    o.outcomes.set(2, Outcome(t3, u.3));
                }
                proof {
                    assert(o@ =~= with_odds(before[u.0], u)) by {
                        assert(o@.outcomes =~= with_odds(before[u.0], u).outcomes);
                    }
                }
                let copy = o.duplicate();
                self.offers.insert(u.0, copy);
                messages.push(Message::Upsert(o));
                proof {
                    assert(with_odds(before[u.0], u).outcomes.len() == before[u.0].outcomes.len());
                    assert(self@ =~= before.insert(u.0, with_odds(before[u.0], u)));
                    assert(two_or_three(self@)) by {
                        assert forall|k: u32| #[trigger] self@.contains_key(k) implies 2 <= self@[k].outcomes.len() <= 3 by {
                            if k != u.0 {
                                assert(before.contains_key(k));
                            }
                        }
                    }
                    assert(message_views(messages@) =~= msgs.push(MessageView::Upsert(with_odds(before[u.0], u))));
                }
            }
            i = i + 1;
        }
        proof {
            assert(updates@.take(updates@.len() as int) =~= updates@);
        }
        messages
    }

    /// Stops following the games that started (by their ids as written), and reports their
    /// offers gone. Returns the reports and the error that stopped it (an unreadable id).
    pub fn started(&mut self, ids: &Vec<String>) -> (r: (Vec<Message>, Option<SiteError>))
        requires
            two_or_three(old(self)@),
        ensures
            two_or_three(final(self)@),
            forall|k: u32| #[trigger] final(self)@.contains_key(k) ==> old(self)@.contains_key(k) && final(self)@[k] == old(self)@[k],
            r.1 is None <==> forall|i: int| 0 <= i < ids@.len() ==> #[trigger] number_of(ids@[i]@, u32::MAX as nat) is Some,
            r.1 is None ==> forall|k: u32| #[trigger] old(self)@.contains_key(k) ==> (final(self)@.contains_key(k)
                <==> !exists|i: int| 0 <= i < ids@.len() && number_of(ids@[i]@, u32::MAX as nat) == Some(k as nat)),
            stop_games(old(self)@, id_views(ids@)) == (final(self)@, message_views(r.0@), r.1 is None),
    {
        let ghost start = self@;
        let ghost vs = id_views(ids@);
        let mut messages: Vec<Message> = Vec::new();
        let mut i: usize = 0;
        proof {
            assert(vs.take(0) =~= Seq::<Seq<char>>::empty());
        }
        while i < ids.len()
            invariant
                i <= ids@.len(),
                two_or_three(self@),
                start == old(self)@,
                forall|k: u32| #[trigger] self@.contains_key(k) ==> start.contains_key(k) && self@[k] == start[k],
                forall|q: int| 0 <= q < i ==> #[trigger] number_of(ids@[q]@, u32::MAX as nat) is Some,
                forall|k: u32| #[trigger] start.contains_key(k) ==> (self@.contains_key(k)
                    <==> !exists|q: int| 0 <= q < i && number_of(ids@[q]@, u32::MAX as nat) == Some(k as nat)),
                vs == id_views(ids@),
                stop_games(start, vs.take(i as int)) == (self@, message_views(messages@), true),
            decreases ids@.len() - i,
        {
            proof {
                let t = vs.take(i + 1);
                assert(t.drop_last() =~= vs.take(i as int));
                assert(t.last() == ids@[i as int]@);
            }
            let id = match parse_unsigned(ids[i].as_str(), u32::MAX as u64) {
                Some(id) => id as u32,
                None => {
                    proof {
                        lemma_stop_games_stays(start, vs, i + 1);
                    }
                    return (messages, Some(SiteError::Unexpected("invalid id".to_string())));
                },
            };
            let ghost before = self@;
            let ghost msgs = message_views(messages@);
            match self.offers.remove(&id) {
                Some(o) => {
                    messages.push(Message::Remove(o.oid));
                    proof {
                        assert(message_views(messages@) =~= msgs.push(MessageView::Remove(before[id].oid)));
                    }
                },
                None => {},
            }
            proof {
                assert(self@ =~= before.remove(id));
                assert(number_of(ids@[i as int]@, u32::MAX as nat) == Some(id as nat));
                assert forall|k: u32| #[trigger] start.contains_key(k) implies (self@.contains_key(k)
                    <==> !exists|q: int| 0 <= q < i + 1 && number_of(ids@[q]@, u32::MAX as nat) == Some(k as nat)) by {
                    if k == id {
                        assert(number_of(ids@[i as int]@, u32::MAX as nat) == Some(k as nat));
                    }
                    if exists|q: int| 0 <= q < i + 1 && number_of(ids@[q]@, u32::MAX as nat) == Some(k as nat) {
                        let q = choose|q: int| 0 <= q < i + 1 && number_of(ids@[q]@, u32::MAX as nat) == Some(k as nat);
                        if q == i {
                            assert(k == id);
                        }
                    }
                }
            }
            i = i + 1;
        }
        proof {
            assert(vs.take(i as int) =~= vs);
        }
        (messages, None)
    }

    /// Takes in the start of a followed game: a changed start is stored and reported.
    pub fn start_time(&mut self, id: u32, date: u32) -> (r: Option<Message>)
        requires
            two_or_three(old(self)@),
            old(self)@.contains_key(id),
        ensures
            two_or_three(final(self)@),
            if old(self)@[id].date != date {
                &&& final(self)@ == old(self)@.insert(id, OfferView { date, ..old(self)@[id] })
                &&& r matches Some(m) && m@ == MessageView::Upsert(OfferView { date, ..old(self)@[id] })
            } else {
                &&& final(self)@ == old(self)@
                &&& r is None
            },
    {
        let ghost before = self@;
        let mut o = self.offers.get(&id).unwrap().duplicate();
        if o.date == date {
            return None;
        }
        o.date = date;
        let copy = o.duplicate();
        self.offers.insert(id, copy);
        proof {
            assert(self@ =~= before.insert(id, OfferView { date, ..before[id] }));
        }
        Some(Message::Upsert(o))
    }

    /// Follows a new game with the first offer read from its row, and reports it.
    pub fn add_game(&mut self, id: u32, offers: Vec<Offer>) -> (r: Option<Message>)
        requires
            two_or_three(old(self)@),
            forall|i: int| 0 <= i < offers@.len() ==> 2 <= (#[trigger] offers@[i]).outcomes@.len() <= 3,
        ensures
            two_or_three(final(self)@),
            if offers@.len() == 0 {
                final(self)@ == old(self)@ && r is None
            } else {
                &&& final(self)@ == old(self)@.insert(id, offers@[0]@)
                &&& r matches Some(m) && m@ == MessageView::Upsert(offers@[0]@)
            },
    {
        if offers.len() == 0 {
            return None;
        }
        let ghost before = self@;
        let first = &offers[0];
        proof {
            assert(first@.outcomes.len() == first.outcomes@.len());
        }
        self.offers.insert(id, first.duplicate());
        proof {
            assert(self@ =~= before.insert(id, offers@[0]@));
        }
        Some(Message::Upsert(first.duplicate()))
    }
}

/// A game the site is asked for odds of: its id, the odds of both teams and of the draw
/// (if any), and its start.
#[derive(Debug)]
pub struct CGame {
    pub id_game: u32,
    pub team1: u32,
    pub team2: u32,
    pub draw: Option<u32>,
    pub game_start: u32,
}

impl CGame {
    /// The request entry for an offer with two teams and maybe a draw.
    pub fn from(offer: &Offer) -> (g: CGame)
        requires
            offer.outcomes@.len() >= 2,
        ensures
            g.id_game == offer.oid as u32,
            g.team1 == offer.outcomes@[0].1,
            g.team2 == offer.outcomes@[1].1,
            g.draw == if offer.outcomes@.len() > 2 { Some(offer.outcomes@[2].1) } else { None::<u32> },
            g.game_start == offer.date,
    {
        CGame {
            id_game: offer.oid as u32,
            team1: offer.outcomes[0].1,
            team2: offer.outcomes[1].1,
            draw: if offer.outcomes.len() > 2 { Some(offer.outcomes[2].1) } else { None },
            game_start: offer.date,
        }
    }
}


/// Whether a request entry is that of an offer with two teams and maybe a draw.
pub open spec fn is_request_of(g: CGame, o: OfferView) -> bool {
    &&& g.id_game == o.oid as u32
    &&& g.team1 == o.outcomes[0].1
    &&& g.team2 == o.outcomes[1].1
    &&& g.draw == if o.outcomes.len() > 2 { Some(o.outcomes[2].1) } else { None::<u32> }
    &&& g.game_start == o.date
}

/// Whether a request entry is that of some followed game.
pub open spec fn requests_a_game(g: CGame, table: Map<u32, OfferView>) -> bool {
    exists|k: u32| table.contains_key(k) && #[trigger] is_request_of(g, table[k])
}

impl CybState {
    /// The request entries of all followed games, one per game (in no particular order).
    pub fn games(&self) -> (r: Vec<CGame>)
        requires
            two_or_three(self@),
        ensures
            r@.len() == self@.dom().len(),
            forall|i: int| 0 <= i < r@.len() ==> #[trigger] requests_a_game(r@[i], self@),
            forall|k: u32| #[trigger] self@.contains_key(k) ==> exists|i: int| 0 <= i < r@.len() && #[trigger] is_request_of(r@[i], self@[k]),
    {
        let ghost m = self.offers@;
        let ghost keys = vstd::std_specs::hash::spec_keys_iter(&self.offers).remaining();
        let ghost ks = keys.unref();
        let mut r: Vec<CGame> = Vec::new();
        for k in it: self.offers.keys()
            invariant
                m == self.offers@,
                it.seq() == keys,
                keys.unref().to_set() == m.dom(),
                keys.len() == m.dom().len(),
                two_or_three(self@),
                ks == keys.unref(),
                r@.len() == it.index(),
                forall|i: int| 0 <= i < r@.len() ==> m.contains_key(ks[i]) && #[trigger] is_request_of(r@[i], self@[ks[i]]),
        {
            let ghost idx = it.index();
            proof {
                assert(k == keys[idx]);
                assert(keys.unref()[idx] == *keys[idx]);
                assert(keys.unref().contains(*k));
                assert(keys.unref().to_set().contains(*k));
                assert(m.contains_key(*k));
                assert(self@.contains_key(*k));
            }
            let o = self.offers.get(k).unwrap();
            proof {
                assert(o@ == self@[*k]);
                assert(o@.outcomes.len() == o.outcomes@.len());
            }
            let ghost before = r@;
            r.push(CGame::from(o));
            proof {
                assert(ks[idx] == *keys[idx]);
                assert forall|i: int| 0 <= i < r@.len() implies m.contains_key(ks[i]) && #[trigger] is_request_of(r@[i], self@[ks[i]]) by {
                    if i < idx {
                        assert(r@[i] == before[i]);
                    }
                }
            }
        }
        proof {
            assert(self@.dom() =~= m.dom());
            assert(ks.to_set() == m.dom());
            assert forall|i: int| 0 <= i < r@.len() implies #[trigger] requests_a_game(r@[i], self@) by {
                assert(self@.contains_key(ks[i]) && is_request_of(r@[i], self@[ks[i]]));
            }
            assert forall|k: u32| #[trigger] self@.contains_key(k) implies exists|i: int| 0 <= i < r@.len() && #[trigger] is_request_of(r@[i], self@[k]) by {
                assert(ks.to_set().contains(k));
                let i = choose|i: int| 0 <= i < ks.len() && ks[i] == k;
                assert(is_request_of(r@[i], self@[ks[i]]));
            }
        }
        r
    }
}

} // verus!
