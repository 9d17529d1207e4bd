use aladdin::error::SiteError;
use aladdin::gamblers::cybbet::{self, CGame, CybState, Row};
use aladdin::gamblers::egamingbets::{self, Bet, EgbState};
use aladdin::gamblers::xsporta::{self, Event, Info};
use aladdin::gamblers::Message;
use aladdin::markets::{Game, Kind, Offer, Outcome, DRAW};

fn line(kind: u32, coef: u32) -> Event {
    Event { blocked: false, coef, kind }
}

fn info(id: u32, sport: &str, champ: &str, events: Vec<Event>) -> Info {
    Info {
        id,
        champ_eng: champ.to_string(),
        sport_name_eng: sport.to_string(),
        opp1: "Alpha".to_string(),
        opp2: "Beta".to_string(),
        start: 1_500_000_000,
        events,
    }
}

fn ids(messages: &[Message]) -> Vec<(bool, u64)> {
    messages
        .iter()
        .map(|m| match m {
            Message::Upsert(o) => (true, o.oid),
            Message::Remove(id) => (false, *id),
        })
        .collect()
}

#[test]
fn xsporta_games() {
    assert_eq!(xsporta::game_from_info(&info(1, "Tennis", "ATP", vec![])), Some(Game::Tennis));
    assert_eq!(xsporta::game_from_info(&info(1, "eSports", "Dota 2. The International", vec![])), Some(Game::Dota2));
    assert_eq!(xsporta::game_from_info(&info(1, "eSports", "CS:GO. Major", vec![])), Some(Game::CounterStrike));
    assert_eq!(xsporta::game_from_info(&info(1, "eSports", "Some StarCraft league", vec![])), Some(Game::StarCraft2));
    assert_eq!(xsporta::game_from_info(&info(1, "eSports", "Unknown cup", vec![])), None);
    assert_eq!(xsporta::game_from_info(&info(1, "Curling", "World", vec![])), None);
}

#[test]
fn xsporta_offers() {
    let o = xsporta::grab_offer(&info(5, "Football", "Cup", vec![line(1, 1500), line(2, 3200), line(3, 2800)])).unwrap();
    assert_eq!(o.oid, 5);
    assert_eq!(o.date, 1_500_000_000);
    assert_eq!(o.game, Game::Football);
    assert_eq!(o.outcomes.len(), 3);
    assert_eq!((o.outcomes[0].0.as_str(), o.outcomes[0].1), ("Alpha", 1500));
    assert_eq!((o.outcomes[1].0.as_str(), o.outcomes[1].1), ("Beta", 2800));
    assert_eq!((o.outcomes[2].0.as_str(), o.outcomes[2].1), (DRAW, 3200));
    // No draw line: two outcomes.
    let o = xsporta::grab_offer(&info(5, "Tennis", "ATP", vec![line(3, 2800), line(1, 1500)])).unwrap();
    assert_eq!(o.outcomes.len(), 2);
    // A blocked line, a missing side, an unknown game: no offer.
    let blocked = vec![line(1, 1500), Event { blocked: true, coef: 2800, kind: 3 }];
    assert!(xsporta::grab_offer(&info(5, "Tennis", "ATP", blocked)).is_none());
    assert!(xsporta::grab_offer(&info(5, "Tennis", "ATP", vec![line(1, 1500)])).is_none());
    assert!(xsporta::grab_offer(&info(5, "Curling", "ATP", vec![line(1, 1500), line(3, 2000)])).is_none());
}

#[test]
fn xsporta_token() {
    assert_eq!(xsporta::decode_auth_dv("104.105").unwrap(), "hi");
    assert!(matches!(xsporta::decode_auth_dv("104.256"), Err(SiteError::Unexpected(_))));
    assert!(xsporta::decode_auth_dv("").is_err());
}

#[test]
fn xsporta_bet_types() {
    let o = xsporta::grab_offer(&info(5, "Football", "Cup", vec![line(1, 1500), line(2, 3200), line(3, 2800)])).unwrap();
    assert_eq!(xsporta::bet_type(&o, &Outcome("Alpha".to_string(), 1500)).unwrap(), 1);
    assert_eq!(xsporta::bet_type(&o, &Outcome("Beta".to_string(), 2800)).unwrap(), 3);
    assert_eq!(xsporta::bet_type(&o, &Outcome(DRAW.to_string(), 3200)).unwrap(), 2);
}

#[test]
fn xsporta_feed_refresh() {
    let mut active = vec![1u64, 2];
    let infos = vec![
        info(2, "Tennis", "ATP", vec![line(1, 1500), line(3, 2500)]),
        info(3, "Tennis", "ATP", vec![line(1, 1700), line(3, 2100)]),
        info(4, "Curling", "World", vec![line(1, 1700), line(3, 2100)]),
    ];
    let messages = xsporta::refresh_feed(&mut active, &infos);
    assert_eq!(ids(&messages), vec![(false, 1), (true, 2), (true, 3)]);
    assert_eq!(active, vec![2, 3]);
    assert!(xsporta::has_id(&active, 3));
    assert!(!xsporta::has_id(&active, 1));
}

#[test]
fn xsporta_check_offer() {
    let i = info(5, "Tennis", "ATP", vec![line(1, 1500), line(3, 2500)]);
    let o = xsporta::grab_offer(&i).unwrap();
    assert_eq!(xsporta::check_offer(true, "", Some(&i), &o).unwrap(), true);
    let changed = info(5, "Tennis", "ATP", vec![line(1, 1600), line(3, 2500)]);
    assert_eq!(xsporta::check_offer(true, "", Some(&changed), &o).unwrap(), false);
    assert_eq!(xsporta::check_offer(false, "Game not found", None, &o).unwrap(), false);
    match xsporta::check_offer(false, "Server busy", None, &o) {
        Err(SiteError::Unexpected(e)) => assert_eq!(e, "Server busy"),
        other => panic!("unexpected {:?}", other),
    }
}

fn bet(id: u64, game: &str, date: u32, coefs: (&str, &str, &str)) -> Bet {
    Bet {
        game: game.to_string(),
        date,
        coef_1: coefs.0.to_string(),
        coef_2: coefs.1.to_string(),
        coef_draw: coefs.2.to_string(),
        gamer_1: "Navi".to_string(),
        gamer_2: "Virtus.pro".to_string(),
        id,
        winner: 0,
        live: 0,
        ut: 10,
    }
}

#[test]
fn egb_offers() {
    let o = egamingbets::extract_offer(&bet(7, "Dota2", 1000, ("1.5", "2.6", "")), 100).unwrap().unwrap();
    assert_eq!(o.oid, 7);
    assert_eq!(o.game, Game::Dota2);
    assert_eq!(o.kind, Kind::Series);
    assert_eq!(o.outcomes.len(), 2);
    assert_eq!(o.outcomes[1].1, 2600);
    let o = egamingbets::extract_offer(&bet(7, "Counter-Strike", 1000, ("1.5", "2.6", "9")), 100).unwrap().unwrap();
    assert_eq!((o.outcomes[2].0.as_str(), o.outcomes[2].1), (DRAW, 9000));
    // A zero draw is no outcome.
    let o = egamingbets::extract_offer(&bet(7, "Counter-Strike", 1000, ("1.5", "2.6", "0")), 100).unwrap().unwrap();
    assert_eq!(o.outcomes.len(), 2);
    // Started, unknown or decided: none.
    assert!(egamingbets::extract_offer(&bet(7, "Dota2", 1000, ("1.5", "2.6", "")), 1000).unwrap().is_none());
    assert!(egamingbets::extract_offer(&bet(7, "Chess", 1000, ("1.5", "2.6", "")), 100).unwrap().is_none());
    let mut decided = bet(7, "Dota2", 1000, ("1.5", "2.6", ""));
    decided.winner = 1;
    assert!(egamingbets::extract_offer(&decided, 100).unwrap().is_none());
    let mut live = bet(7, "Dota2", 1000, ("1.5", "2.6", ""));
    live.gamer_1 = "Navi (Live)".to_string();
    assert!(egamingbets::extract_offer(&live, 100).unwrap().is_none());
    // Unreadable odds: an error.
    assert!(egamingbets::extract_offer(&bet(7, "Dota2", 1000, ("x", "2.6", "")), 100).is_err());
}

#[test]
fn egb_state_reports_and_expires() {
    let mut s = EgbState::new();
    let bets = vec![bet(1, "Dota2", 1000, ("1.5", "2.6", "")), bet(2, "LoL", 500, ("1.5", "2.6", ""))];
    let (messages, error) = s.take_bets(&bets, 100, true);
    assert!(error.is_none());
    assert_eq!(ids(&messages), vec![(true, 1), (true, 2)]);
    assert_eq!(s.update_time(), 10);
    s.set_user_time(42);
    assert_eq!(s.user_time(), 42);
    // Nothing is due by 499; the second offer is due by 500.
    assert!(s.expire(499).is_empty());
    assert_eq!(ids(&s.expire(500)), vec![(false, 2)]);
    assert_eq!(ids(&s.expire(2000)), vec![(false, 1)]);
    assert!(s.expire(5000).is_empty());
}

#[test]
fn egb_state_stops_at_an_unreadable_bet() {
    let mut s = EgbState::new();
    let bets = vec![
        bet(1, "Dota2", 1000, ("1.5", "2.6", "")),
        bet(2, "Dota2", 1000, ("?", "2.6", "")),
        bet(3, "Dota2", 1000, ("1.5", "2.6", "")),
    ];
    let (messages, error) = s.take_bets(&bets, 100, false);
    assert!(error.is_some());
    assert_eq!(ids(&messages), vec![(true, 1)]);
}

#[test]
fn egb_sides_and_checks() {
    let b = bet(1, "Dota2", 1000, ("1.5", "2.6", "3"));
    let o = egamingbets::extract_offer(&b, 100).unwrap().unwrap();
    assert_eq!(egamingbets::bet_side(&o, &Outcome("Navi".to_string(), 1500)), 1);
    assert_eq!(egamingbets::bet_side(&o, &Outcome(DRAW.to_string(), 3000)), 3);
    assert_eq!(egamingbets::check_offer(None, &o, 100).unwrap(), true);
    assert_eq!(egamingbets::check_offer(Some(&vec![]), &o, 100).unwrap(), true);
    assert_eq!(egamingbets::check_offer(Some(&vec![bet(1, "Dota2", 1000, ("1.5", "2.6", "3"))]), &o, 100).unwrap(), true);
    assert_eq!(egamingbets::check_offer(Some(&vec![bet(1, "Dota2", 1000, ("1.6", "2.6", "3"))]), &o, 100).unwrap(), false);
    assert_eq!(egamingbets::check_offer(Some(&vec![bet(1, "Dota2", 1000, ("1.5", "2.6", "3"))]), &o, 1000).unwrap(), false);
    assert!(egamingbets::check_offer(Some(&vec![bet(1, "Dota2", 1000, ("1.5", "", "3"))]), &o, 100).is_err());
}

fn row(class: &str, id: &str, date: &str, draw: Option<&str>) -> Row {
    Row {
        icon_class: class.to_string(),
        disabled: false,
        team_1: Some("Liquid".to_string()),
        team_2: Some("OG".to_string()),
        id: Some(id.to_string()),
        date: Some(date.to_string()),
        coef_1: Some(" 1.85 ".to_string()),
        coef_2: Some("2.05".to_string()),
        coef_draw: draw.map(|d| d.to_string()),
    }
}

#[test]
fn cybbet_rows() {
    assert_eq!(cybbet::last_word_of("icon   dota2  "), "dota2");
    let o = cybbet::offer_of_row(&row("icon dota2", "77", "1500000000", None)).unwrap().unwrap();
    assert_eq!(o.oid, 77);
    assert_eq!(o.date, 1_500_000_000);
    assert_eq!(o.game, Game::Dota2);
    assert_eq!(o.outcomes[0].1, 1850);
    assert_eq!(o.outcomes[1].1, 2050);
    let o = cybbet::offer_of_row(&row("icon csgo", "77", "1500000000", Some("12.5"))).unwrap().unwrap();
    assert_eq!((o.outcomes[2].0.as_str(), o.outcomes[2].1), (DRAW, 12500));
    assert!(cybbet::offer_of_row(&row("icon chess", "77", "1", None)).unwrap().is_none());
    assert!(cybbet::offer_of_row(&row("   ", "77", "1", None)).is_err());
    assert!(cybbet::offer_of_row(&row("icon csgo", "x", "1", None)).is_err());
    let mut disabled = row("icon csgo", "77", "1", None);
    disabled.disabled = true;
    assert!(cybbet::offer_of_row(&disabled).unwrap().is_none());
    // A skipped row need not have the fields of a game.
    let bare = Row {
        icon_class: "icon csgo".to_string(),
        disabled: true,
        team_1: None,
        team_2: None,
        id: None,
        date: None,
        coef_1: None,
        coef_2: None,
        coef_draw: None,
    };
    assert!(cybbet::offer_of_row(&bare).unwrap().is_none());
    let unknown = Row { icon_class: "icon cod".to_string(), disabled: false, ..bare };
    assert!(cybbet::offer_of_row(&unknown).unwrap().is_none());
    let mut live = row("icon csgo", "77", "1", None);
    live.team_1 = Some("Liquid (Live)".to_string());
    live.id = None;
    assert!(cybbet::offer_of_row(&live).unwrap().is_none());
    // A followed game lacking a field is an error.
    let mut no_id = row("icon csgo", "77", "1", None);
    no_id.id = None;
    assert!(cybbet::offer_of_row(&no_id).is_err());
    let mut no_team = row("icon csgo", "77", "1", None);
    no_team.team_2 = None;
    assert!(cybbet::offer_of_row(&no_team).is_err());
    let offers = cybbet::extract_offers(&vec![row("icon dota2", "1", "10", None), row("icon chess", "2", "10", None)]).unwrap();
    assert_eq!(offers.len(), 1);
    assert!(cybbet::extract_offers(&vec![row("icon dota2", "1", "10", None), row("", "2", "10", None)]).is_err());
}

#[test]
fn cybbet_relevant_games() {
    let games = vec![
        ("1".to_string(), "1000".to_string()),
        ("2".to_string(), "1029".to_string()),
        ("3".to_string(), "1030".to_string()),
    ];
    assert_eq!(cybbet::filter_relevant(&games, 1000 - cybbet::PERIOD).unwrap(), vec![(1, 1000), (2, 1029), (3, 1030)]);
    assert_eq!(cybbet::filter_relevant(&games, 1000 - cybbet::PERIOD + 1).unwrap(), vec![(2, 1029), (3, 1030)]);
    assert_eq!(cybbet::filter_relevant(&games, 1000).unwrap(), vec![(3, 1030)]);
    let bad = vec![("x".to_string(), "2000".to_string())];
    assert!(cybbet::filter_relevant(&bad, 1000).is_err());
}

#[test]
fn cybbet_replies_and_results() {
    assert!(cybbet::bet_placed("{\"messageSuccess\": \"ok\"}"));
    assert!(!cybbet::bet_placed("{\"messageError\": \"no\"}"));
    assert!(cybbet::bet_checked("{\"warning\":\"\"}"));
    assert!(!cybbet::bet_checked("{\"warning\":\"odds changed\"}"));
    let o = cybbet::offer_of_row(&row("icon csgo", "77", "1500000000", Some("12.5"))).unwrap().unwrap();
    assert_eq!(cybbet::bet_result(&o, &Outcome(DRAW.to_string(), 1)), 0);
    assert_eq!(cybbet::bet_result(&o, &Outcome("OG".to_string(), 2050)), 2);
}

fn cyb_offer(oid: u64, date: u32, odds: &[u32]) -> Offer {
    let titles = ["Liquid", "OG", DRAW];
    Offer {
        oid,
        date,
        game: Game::Dota2,
        kind: Kind::Series,
        outcomes: odds.iter().enumerate().map(|(i, &c)| Outcome(titles[i].to_string(), c)).collect(),
    }
}

#[test]
fn cybbet_state() {
    let mut s = CybState::new();
    let loaded = s.load(vec![cyb_offer(1, 100, &[1500, 2500]), cyb_offer(2, 200, &[1500, 2500, 4000])]);
    assert_eq!(ids(&loaded), vec![(true, 1), (true, 2)]);
    assert!(s.knows(1) && s.knows(2) && !s.knows(3));
    let updated = s.apply_odds(&vec![(2, 1600, 2400, 3900), (9, 1, 1, 0)]);
    assert_eq!(updated.len(), 1);
    match &updated[0] {
        Message::Upsert(o) => {
            assert_eq!(o.outcomes[0].1, 1600);
            assert_eq!(o.outcomes[2].1, 3900);
        }
        _ => panic!("expected an update"),
    }
    assert!(s.start_time(1, 100).is_none());
    assert!(matches!(s.start_time(1, 150), Some(Message::Upsert(ref o)) if o.date == 150));
    assert!(s.add_game(3, vec![]).is_none());
    assert!(s.add_game(3, vec![cyb_offer(3, 300, &[1100, 5000])]).is_some());
    let mut games: Vec<CGame> = s.games();
    games.sort_by_key(|g| g.id_game);
    assert_eq!(games.len(), 3);
    assert_eq!(games[1].draw, Some(3900));
    assert_eq!(games[0].game_start, 150);
    let (gone, error) = s.started(&vec!["1".to_string(), "3".to_string()]);
    assert!(error.is_none());
    assert_eq!(ids(&gone), vec![(false, 1), (false, 3)]);
    assert!(!s.knows(1) && s.knows(2));
    let (_, error) = s.started(&vec!["oops".to_string()]);
    assert!(error.is_some());
    // Ids are taken in turn until one does not read: the earlier games are already gone.
    let (gone, error) = s.started(&vec!["2".to_string(), "oops".to_string(), "3".to_string()]);
    assert!(error.is_some());
    assert_eq!(ids(&gone), vec![(false, 2)]);
    assert!(!s.knows(2));
    // A later offer under the same id replaces the earlier one.
    let mut t = CybState::new();
    t.load(vec![cyb_offer(5, 100, &[1500, 2500]), cyb_offer(5, 200, &[1700, 2300])]);
    assert!(t.start_time(5, 200).is_none());
    assert!(t.start_time(5, 100).is_some());
    let g = CGame::from(&cyb_offer(4, 400, &[1100, 5000]));
    assert_eq!((g.id_game, g.team1, g.team2, g.draw, g.game_start), (4, 1100, 5000, None, 400));
}

/// Whether every report of an offer gone follows a report of it, with no report of it
/// gone in between.
fn removals_follow_upserts(reports: &[(bool, u64)]) -> bool {
    let mut live: Vec<u64> = Vec::new();
    for &(upsert, oid) in reports {
        if upsert {
            if !live.contains(&oid) {
                live.push(oid);
            }
        } else if let Some(k) = live.iter().position(|&x| x == oid) {
            live.remove(k);
        } else {
            return false;
        }
    }
    true
}

#[test]
fn egb_run_reports_removals_after_upserts() {
    let mut s = EgbState::new();
    let mut reports = Vec::new();
    let (m, _) = s.take_bets(&vec![bet(1, "Dota2", 1000, ("1.5", "2.6", "")), bet(2, "LoL", 500, ("1.5", "2.6", ""))], 100, true);
    reports.extend(ids(&m));
    reports.extend(ids(&s.expire(600)));
    // The first offer moves later: its old marker no longer takes it out.
    let (m, _) = s.take_bets(&vec![bet(1, "Dota2", 2000, ("1.5", "2.6", ""))], 100, false);
    reports.extend(ids(&m));
    reports.extend(ids(&s.expire(1500)));
    reports.extend(ids(&s.expire(2500)));
    reports.extend(ids(&s.expire(3000)));
    assert_eq!(reports, vec![(true, 1), (true, 2), (false, 2), (true, 1), (false, 1)]);
    assert!(removals_follow_upserts(&reports));
}

#[test]
fn cyb_run_reports_removals_after_upserts() {
    let mut s = CybState::new();
    let mut reports = Vec::new();
    reports.extend(ids(&s.load(vec![cyb_offer(1, 100, &[1500, 2500]), cyb_offer(2, 200, &[1500, 2500])])));
    reports.extend(ids(&s.apply_odds(&vec![(1, 1600, 2400, 0), (7, 1, 1, 0)])));
    reports.extend(ids(&s.started(&vec!["1".to_string(), "1".to_string(), "7".to_string()]).0));
    if let Some(m) = s.add_game(3, vec![cyb_offer(3, 300, &[1100, 5000])]) {
        reports.extend(ids(&[m]));
    }
    reports.extend(ids(&s.started(&vec!["3".to_string(), "2".to_string()]).0));
    assert_eq!(reports, vec![(true, 1), (true, 2), (true, 1), (false, 1), (true, 3), (false, 3), (false, 2)]);
    assert!(removals_follow_upserts(&reports));
}
