use aladdin::gamblers::vitalbet::PollingKind;
use aladdin::gamblers::betclub::{self, BetClubState, Basket, Rate};
use aladdin::gamblers::betway::{self, BetWayState, BetwayOutcome, EventUpdate, Keyword, MarketUpdate, OutcomeUpdate};
use aladdin::gamblers::vitalbet::{self, Odd, PollingMessage, PrematchMatchUpdate, PrematchOddUpdate, VitalState};
use aladdin::gamblers::{parse_time, Message};
use aladdin::markets::{Game, Kind, Outcome, DRAW};

fn kinds(messages: &[Message]) -> Vec<(bool, u64)> {
    messages
        .iter()
        .map(|m| match m {
            Message::Upsert(o) => (true, o.oid),
            Message::Remove(id) => (false, *id),
        })
        .collect()
}

#[test]
fn times_are_read_in_utc() {
    assert_eq!(parse_time("2017-01-01T00:00:00Z", "%Y-%m-%dT%H:%M:%SZ"), Some(1_483_228_800));
    assert_eq!(parse_time("2017-01-01T12:30:15", "%Y-%m-%dT%H:%M:%S"), Some(1_483_273_815));
    assert_eq!(parse_time("yesterday", "%Y-%m-%dT%H:%M:%S"), None);
}

fn bw_outcome(id: u32, name: &str, dec: Option<u32>) -> BetwayOutcome {
    BetwayOutcome {
        outcome_id: id,
        price_dec: dec,
        price_num: Some(3),
        price_den: Some(2),
        name: name.to_string(),
        active: true,
        type_cname: "outcome".to_string(),
    }
}

fn bw_market(id: u32, type_cname: &str, outcomes: Vec<BetwayOutcome>) -> betway::Market {
    betway::Market {
        market_id: id,
        outcomes,
        active: true,
        cname: "match".to_string(),
        type_cname: type_cname.to_string(),
        displayed: true,
    }
}

fn keyword(t: &str, c: &str) -> Keyword {
    Keyword { type_cname: t.to_string(), cname: c.to_string() }
}

fn bw_event(id: u32, keywords: Vec<Keyword>, markets: Vec<betway::Market>) -> betway::Event {
    betway::Event {
        event_id: id,
        start_at: "2017-01-01T00:00:00Z".to_string(),
        markets,
        keywords,
        active: true,
        displayed: true,
        live: false,
    }
}

fn bw_sample() -> betway::Event {
    bw_event(
        10,
        vec![keyword("sport", "esports"), keyword("country", "dota-2")],
        vec![
            bw_market(100, "win-draw-win", vec![bw_outcome(1, "[NaVi]", Some(1500)), bw_outcome(2, "Draw", Some(5000)), bw_outcome(3, "[OG]", Some(2500))]),
            bw_market(101, "handicap", vec![bw_outcome(4, "NaVi -1.5", Some(3000))]),
        ],
    )
}

#[test]
fn betway_games_and_titles() {
    assert_eq!(betway::get_game(&bw_event(1, vec![keyword("sport", "soccer")], vec![])), Some(Game::Football));
    assert_eq!(betway::get_game(&bw_event(1, vec![keyword("sport", "esports")], vec![])), None);
    assert_eq!(betway::get_game(&bw_event(1, vec![], vec![])), None);
    assert_eq!(betway::get_title(&bw_outcome(1, "[NaVi]", None)), "NaVi");
    assert_eq!(betway::get_time(&bw_sample()), Some(1_483_228_800));
    assert_eq!(betway::get_kind(&bw_sample()), Some(Kind::Series));
    assert!(betway::get_outcomes(&bw_market(1, "to-win", vec![bw_outcome(1, "A", None)])).is_none());
}

#[test]
fn betway_offers() {
    let e = bw_sample();
    let o = betway::convert_market_to_offer(&e.markets[0], &e).unwrap();
    assert_eq!(o.oid, 100);
    assert_eq!(o.date, 1_483_228_800);
    assert_eq!(o.outcomes.len(), 3);
    assert_eq!(o.outcomes[0].0, "NaVi");
    assert_eq!(o.outcomes[1].0, DRAW);
    assert_eq!(o.outcomes[2].1, 2500);
    assert!(betway::convert_market_to_offer(&e.markets[1], &e).is_none());
    let reports = betway::report_event(&e);
    assert_eq!(kinds(&reports), vec![(true, 100), (false, 10)]);
}

#[test]
fn betway_updates() {
    let mut e = bw_sample();
    assert!(!betway::apply_event_update(&mut e, &EventUpdate { event_id: 10, live: Some(false), active: None }));
    assert!(betway::apply_event_update(&mut e, &EventUpdate { event_id: 10, live: Some(true), active: None }));
    assert!(e.live);
    assert!(betway::apply_market_update(&mut e, &MarketUpdate { event_id: 10, market_id: 101, active: Some(false), displayed: None }));
    assert!(!e.markets[1].active);
    assert!(!betway::apply_market_update(&mut e, &MarketUpdate { event_id: 10, market_id: 999, active: Some(false), displayed: None }));
    let u = OutcomeUpdate { event_id: 10, market_id: 100, outcome_id: 3, active: None, price_dec: Some(2600), price_num: None, price_den: None };
    assert!(betway::apply_outcome_update(&mut e, &u));
    assert_eq!(e.markets[0].outcomes[2].price_dec, Some(2600));
    assert!(!betway::apply_outcome_update(&mut e, &u));
    assert!(!betway::apply_update(&mut e, &betway::Update::UnsupportedUpdate("x".to_string())));
}

#[test]
fn betway_state() {
    let mut s = BetWayState::new();
    let added = s.add_event(bw_sample()).unwrap();
    assert_eq!(kinds(&added), vec![(true, 100)]);
    assert!(s.follows(10));
    assert!(s.add_event(bw_sample()).is_none());
    let sel = s.selection(100, "OG").unwrap();
    assert_eq!((sel.event_id, sel.market_id, sel.outcome_id, sel.price_num, sel.price_den), (10, 100, 3, 3, 2));
    assert!(s.selection(100, "Liquid").is_none());
    assert!(s.selection(555, "OG").is_none());
    let u = betway::Update::OutcomeUpdate(OutcomeUpdate {
        event_id: 10, market_id: 100, outcome_id: 1, active: None, price_dec: Some(1450), price_num: None, price_den: None,
    });
    let reports = s.handle_update(&u);
    assert_eq!(kinds(&reports), vec![(true, 100), (false, 10)]);
    match &reports[0] {
        Message::Upsert(o) => assert_eq!(o.outcomes[0].1, 1450),
        _ => unreachable!(),
    }
    // The same change again reports nothing; a change of another event neither.
    assert!(s.handle_update(&u).is_empty());
    let other = betway::Update::EventUpdate(EventUpdate { event_id: 11, live: Some(true), active: None });
    assert!(s.handle_update(&other).is_empty());
}

#[test]
fn betway_pages() {
    let page = r#"config["ip"] = "10.0.0.1"; config["serverId"] = 42; clientType : 7, evt_101 evt_202"#;
    assert_eq!(betway::extract_ip_address(page).as_deref(), Some("10.0.0.1"));
    assert_eq!(betway::extract_server_id(page), Some(42));
    assert_eq!(betway::extract_client_type(page), Some(7));
    assert_eq!(betway::extract_events_ids(page).unwrap(), vec![101, 202]);
    assert_eq!(betway::extract_ip_address("nothing"), None);
    assert_eq!(betway::extract_server_id("nothing"), None);
    assert!(betway::extract_events_ids("nothing").unwrap().is_empty());
    assert!(betway::extract_events_ids("evt_99999999999").is_err());
    let groups = vec![Some("7".to_string()), None, Some("8".to_string())];
    assert_eq!(betway::event_ids_of(&groups).unwrap(), vec![7, 8]);
    assert!(betway::event_ids_of(&vec![Some("x".to_string())]).is_err());
    assert!(betway::event_ids_of(&vec![]).unwrap().is_empty());
}

fn odd(id: u32, title: &str, value: u32) -> Odd {
    Odd { id, is_suspended: false, is_visible: true, value, title: title.to_string() }
}

fn vb_event(id: u32, odds: Vec<Odd>) -> vitalbet::Event {
    vitalbet::Event {
        id,
        is_suspended: false,
        date_of_match: "2017-01-01T12:30:15".to_string(),
        preview_odds: Some(odds),
        is_active: Some(true),
        is_finished: Some(false),
        sport_type: Some("eSports".to_string()),
        category: Some("Dota 2".to_string()),
        preview_market: Some(vitalbet::Market { id: 500 + id, name: Some(" Match Winner ".to_string()), is_active: true, is_suspended: false }),
    }
}

#[test]
fn vitalbet_offers() {
    let e = vb_event(1, vec![odd(11, "NaVi", 1500), odd(12, "Draw", 4000), odd(13, "OG", 2500)]);
    assert_eq!(vitalbet::get_game(&e), Some(Game::Dota2));
    let o = vitalbet::create_offer(&e).unwrap().unwrap();
    assert_eq!(o.oid, 1);
    assert_eq!(o.date, 1_483_273_815);
    assert_eq!(o.outcomes[1].0, DRAW);
    assert_eq!(o.outcomes[2].1, 2500);
    let mut closed = vb_event(1, vec![odd(11, "NaVi", 1500), odd(13, "OG", 2500)]);
    closed.is_finished = Some(true);
    assert!(vitalbet::create_offer(&closed).unwrap().is_none());
    let mut hidden = vb_event(1, vec![odd(11, "NaVi", 1500), odd(13, "OG", 2500)]);
    hidden.preview_odds.as_mut().unwrap()[1].is_visible = false;
    assert!(vitalbet::create_offer(&hidden).unwrap().is_none());
    let mut other = vb_event(1, vec![odd(11, "NaVi", 1500), odd(13, "OG", 2500)]);
    other.preview_market.as_mut().unwrap().name = Some("Total Maps".to_string());
    assert!(vitalbet::create_offer(&other).unwrap().is_none());
    let mut undated = vb_event(1, vec![odd(11, "NaVi", 1500), odd(13, "OG", 2500)]);
    undated.date_of_match = "soon".to_string();
    assert!(vitalbet::create_offer(&undated).is_err());
}

#[test]
fn vitalbet_flatten_updates() {
    let messages = vec![
        PollingMessage::PrematchOddsUpdateMessage(vec![vec![PrematchOddUpdate(11, 1600, 1)], vec![PrematchOddUpdate(12, 1700, 3)]]),
        PollingMessage::UnsupportedUpdateMessage("ping".to_string()),
        PollingMessage::PrematchMatchesUpdateMessage(vec![vec![PrematchMatchUpdate(1, 3, 0)]]),
    ];
    let updates = vitalbet::flatten_updates(messages);
    assert_eq!(updates.len(), 3);
    assert!(matches!(updates[0], vitalbet::Update::PrematchOddUpdate(PrematchOddUpdate(11, 1600, 1))));
    assert!(matches!(updates[2], vitalbet::Update::PrematchMatchUpdate(PrematchMatchUpdate(1, 3, 0))));
}

#[test]
fn vitalbet_state() {
    let mut s = VitalState::new();
    let (reports, error) = s.reset(vec![
        vb_event(1, vec![odd(11, "NaVi", 1500), odd(13, "OG", 2500)]),
        vb_event(2, vec![odd(21, "Liquid", 1500), odd(23, "EG", 2500)]),
    ]);
    assert!(error.is_none());
    assert_eq!(kinds(&reports), vec![(true, 1), (true, 2)]);
    assert_eq!(s.odd_id(1, "OG"), Some(13));
    assert_eq!(s.odd_id(1, "Liquid"), None);
    assert_eq!(s.odd_id(3, "OG"), None);
    // A change of an odd reports the match's offer with the new odds.
    let change = vitalbet::Update::OddUpdate(vitalbet::OddUpdate { id: 13, value: 2600, is_suspended: false, is_visible: true });
    let (report, error) = s.handle(&change);
    assert!(error.is_none());
    match report {
        Some(Message::Upsert(o)) => assert_eq!(o.outcomes[1].1, 2600),
        _ => panic!("expected an update"),
    }
    // A change of a known odd counts as a change even when its values stay.
    assert!(matches!(s.handle(&change).0, Some(Message::Upsert(_))));
    // A change of an odd before the match is looked up by its first number as a match id.
    let (report, _) = s.handle(&vitalbet::Update::PrematchOddUpdate(PrematchOddUpdate(13, 2700, 1)));
    assert!(report.is_none());
    let (report, _) = s.handle(&vitalbet::Update::PrematchOddUpdate(PrematchOddUpdate(1, 2700, 1)));
    assert!(report.is_none());
    // A suspended match is gone.
    let (report, _) = s.handle(&vitalbet::Update::PrematchMatchUpdate(PrematchMatchUpdate(2, 3, 0)));
    assert!(matches!(report, Some(Message::Remove(2))));
    // A change of an unknown odd reports nothing.
    let (report, _) = s.handle(&vitalbet::Update::OddUpdate(vitalbet::OddUpdate { id: 99, value: 1, is_suspended: false, is_visible: true }));
    assert!(report.is_none());
}

#[test]
fn vitalbet_steps_and_readability() {
    // A nameless market that is suspended is never looked at.
    let mut nameless = vb_event(3, vec![odd(31, "NaVi", 1500), odd(33, "OG", 2500)]);
    nameless.preview_market = Some(vitalbet::Market { id: 503, name: None, is_active: true, is_suspended: true });
    assert!(vitalbet::is_readable(&nameless));
    let mut open_nameless = vb_event(4, vec![odd(41, "NaVi", 1500), odd(43, "OG", 2500)]);
    open_nameless.preview_market = Some(vitalbet::Market { id: 504, name: None, is_active: true, is_suspended: false });
    assert!(!vitalbet::is_readable(&open_nameless));

    let mut s = VitalState::new();
    s.forget_links();
    let (report, error) = s.take_in(nameless);
    assert!(report.is_none());
    assert!(error.is_none());
    let (report, error) = s.take_in(vb_event(1, vec![odd(11, "NaVi", 1500), odd(13, "OG", 2500)]));
    assert!(error.is_none());
    assert!(matches!(report, Some(Message::Upsert(_))));
    assert!(s.readable_at(1));
    assert!(s.readable_at(3));
    assert!(!s.readable_at(9));

    // Resuming the nameless market would make it read: the change applies, and the match
    // is then not readable.
    let resume = vitalbet::Update::Market(vitalbet::Market { id: 503, name: None, is_active: true, is_suspended: false });
    assert_eq!(s.apply_change(&resume), Some(3));
    assert!(!s.readable_at(3));

    // A change of an odd of a kept match applies, and the report gives its new offer.
    let change = vitalbet::Update::OddUpdate(vitalbet::OddUpdate { id: 11, value: 1700, is_suspended: false, is_visible: true });
    assert_eq!(s.apply_change(&change), Some(1));
    match s.report(1) {
        (Some(Message::Upsert(o)), None) => assert_eq!(o.outcomes[0].1, 1700),
        _ => panic!("expected an update"),
    }
    // A change about no kept match applies to nothing.
    let stray = vitalbet::Update::OddUpdate(vitalbet::OddUpdate { id: 77, value: 1, is_suspended: false, is_visible: true });
    assert_eq!(s.apply_change(&stray), None);
}

#[test]
fn vitalbet_message_kinds() {
    assert!(matches!(vitalbet::kind_named("oddsUpdated"), PollingKind::OddsUpdated));
    assert!(matches!(vitalbet::kind_named("prematchMatchesUpdated"), PollingKind::PrematchMatchesUpdated));
    assert!(matches!(vitalbet::kind_named("ping"), PollingKind::Unsupported(ref t) if t == "ping"));
    // A string `M` is answered as unsupported; any other `M` as the name "No update type".
    assert!(matches!(vitalbet::polling_kind(Some("oddsUpdated")), PollingKind::Unsupported(ref t) if t == "Even no M"));
    assert!(matches!(vitalbet::polling_kind(None), PollingKind::Unsupported(ref t) if t == "No update type"));
}

#[test]
fn vitalbet_login_reply() {
    assert!(vitalbet::login_failed(r#"{"HasErrors":true}"#));
    assert!(!vitalbet::login_failed(r#"{"HasErrors":false}"#));
}

fn basket(r: u32) -> Basket {
    Basket { e_id: 1, b_id: 2, r, is_live: false, a1: None, a2: None, fs: None }
}

fn rate(r: u32) -> Rate {
    Rate { name_short: "1".to_string(), add_to_basket: basket(r) }
}

fn bc_event(id: u32, sport: &str, country: &str, rates: Vec<Rate>) -> betclub::Event {
    betclub::Event {
        id,
        date: "/Date(1500000000000)/".to_string(),
        teams_group: vec!["Zenit".to_string(), "CSKA".to_string()],
        s_id: 4,
        sport_name: sport.to_string(),
        country_name: country.to_string(),
        markets: vec![
            betclub::Market { id: "a".to_string(), is_enabled: true, is_main: false, rates: vec![], caption: "Total".to_string() },
            betclub::Market { id: "b".to_string(), is_enabled: true, is_main: true, rates, caption: "Result".to_string() },
        ],
    }
}

#[test]
fn betclub_offers() {
    let e = bc_event(7, "Soccer", "Russia", vec![rate(2100), rate(3300), rate(3500)]);
    assert_eq!(betclub::get_game(&e), Some(Game::Football));
    assert_eq!(betclub::get_market(&e), Some(1));
    assert_eq!(betclub::get_date(&e), Some(1_500_000_000));
    let o = betclub::get_offer(&e).unwrap();
    assert_eq!(o.oid, 7);
    assert_eq!(o.date, 1_500_000_000);
    assert_eq!(o.outcomes.len(), 3);
    assert_eq!((o.outcomes[0].0.as_str(), o.outcomes[0].1), ("Zenit", 2100));
    assert_eq!((o.outcomes[1].0.as_str(), o.outcomes[1].1), ("CSKA", 3500));
    assert_eq!((o.outcomes[2].0.as_str(), o.outcomes[2].1), (DRAW, 3300));
    // Two rates: no draw.
    let o = betclub::get_offer(&bc_event(7, "Tennis 3 set.", "", vec![rate(1500), rate(2500)])).unwrap();
    assert_eq!(o.outcomes.len(), 2);
    assert_eq!(o.outcomes[1].1, 2500);
    assert_eq!(betclub::get_game(&bc_event(7, "Electronic Sports", "Dota II", vec![])), Some(Game::Dota2));
    assert!(betclub::get_offer(&bc_event(7, "Curling", "", vec![rate(1500), rate(2500)])).is_none());
    let mut e = bc_event(7, "Soccer", "Russia", vec![rate(1500), rate(2500)]);
    e.markets[1].caption = "Handicap".to_string();
    assert_eq!(betclub::get_market(&e), None);
}

#[test]
fn betclub_state() {
    let mut s = BetClubState::new(2);
    let messages = s.refresh(0, vec![
        bc_event(7, "Soccer", "Russia", vec![rate(2100), rate(3300), rate(3500)]),
        bc_event(8, "Curling", "", vec![rate(1500), rate(2500)]),
    ]);
    assert_eq!(kinds(&messages), vec![(true, 7)]);
    assert_eq!(s.sport_of(7), Some(4));
    assert_eq!(s.sport_of(8), None);
    assert_eq!(s.basket_for(7, "Zenit").unwrap().r, 2100);
    assert_eq!(s.basket_for(7, "CSKA").unwrap().r, 3500);
    assert_eq!(s.basket_for(7, DRAW).unwrap().r, 3300);
    assert!(s.basket_for(9, "Zenit").is_none());
    let messages = s.refresh(0, vec![bc_event(9, "Soccer", "Spain", vec![rate(2100), rate(3300), rate(3500)])]);
    assert_eq!(kinds(&messages), vec![(false, 7), (true, 9)]);
    assert_eq!(s.sport_of(7), None);
}

#[test]
fn betclub_checks_and_replies() {
    let current = vec![bc_event(7, "Soccer", "Russia", vec![rate(2100), rate(3300), rate(3500)])];
    let o = betclub::get_offer(&current[0]).unwrap();
    assert_eq!(betclub::check_offer(&current, &o, &Outcome("Zenit".to_string(), 2100)), Some(true));
    assert_eq!(betclub::check_offer(&current, &o, &Outcome("Zenit".to_string(), 2000)), Some(false));
    assert_eq!(betclub::check_offer(&vec![], &o, &Outcome("Zenit".to_string(), 2100)), None);
    // Another event of the look with a single rate is never read.
    let look = vec![
        bc_event(6, "Soccer", "Spain", vec![rate(1900)]),
        bc_event(7, "Soccer", "Russia", vec![rate(2100), rate(3300), rate(3500)]),
    ];
    assert_eq!(betclub::event_index(&look, 7), Some(1));
    assert_eq!(betclub::event_index(&look, 5), None);
    assert_eq!(betclub::check_offer(&look, &o, &Outcome("CSKA".to_string(), 3500)), Some(true));
    assert!(betclub::added_to_betslip(r#"{"d":{"LinesID":[1]}}"#));
    assert!(!betclub::added_to_betslip("error"));
    assert!(betclub::bet_placed(r#"{"d":{"AmountIn":1.0}}"#));
    assert!(!betclub::bet_placed("error"));
}
