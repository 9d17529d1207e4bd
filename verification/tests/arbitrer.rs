use aladdin::combo::DbError;
use aladdin::arbitrer::{
    accept_offer, after_lookup, combo_for, first_recorded, market_lookups, degradation, distribute_currency, place_bet, place_bets,
    realize_market, resolve, BetAction, BetStep, ComboAction, ComboStep, StepResult, Verdict, BASE_STAKE,
};
use aladdin::bookie::{Bookie, Stage};
use aladdin::currency::Currency;
use aladdin::gamblers::Message;
use aladdin::markets::{Game, Kind, Offer, Outcome};
use aladdin::table::{MarkedOffer, Table};

fn coef(x: f64) -> u32 {
    (x * 1000.0).round() as u32
}

fn offer(oid: u64, outcomes: &[(&str, f64)]) -> Offer {
    Offer {
        oid,
        date: 1_500_000_000,
        game: Game::Football,
        kind: Kind::Series,
        outcomes: outcomes.iter().map(|&(t, c)| Outcome(t.to_string(), coef(c))).collect(),
    }
}

fn running(host: &str, balance: i64) -> Bookie {
    let mut b = Bookie::new(host);
    b.set_stage(Stage::Running);
    b.set_balance(Currency(balance));
    b
}

#[test]
fn lonely_market_is_alone() {
    let market = vec![MarkedOffer(0, offer(1, &[("Alpha", 2.0), ("Beta", 2.0)]))];
    let bookies = vec![running("a.com", 10_000)];
    assert!(matches!(realize_market(&market, &bookies), Verdict::Alone));
}

#[test]
fn market_with_a_halted_bookie_is_halted() {
    let market = vec![
        MarkedOffer(0, offer(1, &[("Alpha", 2.0), ("Beta", 2.0)])),
        MarkedOffer(1, offer(2, &[("Alpha", 2.0), ("Beta", 2.0)])),
    ];
    let mut bookies = vec![running("a.com", 10_000), Bookie::new("b.com")];
    assert!(matches!(realize_market(&market, &bookies), Verdict::Halted(1)));
    bookies[1].set_stage(Stage::Running);
    assert!(!matches!(realize_market(&market, &bookies), Verdict::Halted(_)));
    // An unknown bookmaker halts the market too.
    let market = vec![
        MarkedOffer(0, offer(1, &[("Alpha", 2.0), ("Beta", 2.0)])),
        MarkedOffer(5, offer(2, &[("Alpha", 2.0), ("Beta", 2.0)])),
    ];
    assert!(matches!(realize_market(&market, &bookies), Verdict::Halted(1)));
}

#[test]
fn market_without_opportunity() {
    let market = vec![
        MarkedOffer(0, offer(1, &[("Alpha", 1.9), ("Beta", 1.9)])),
        MarkedOffer(1, offer(2, &[("Alpha", 1.8), ("Beta", 2.0)])),
    ];
    let bookies = vec![running("a.com", 10_000), running("b.com", 10_000)];
    match realize_market(&market, &bookies) {
        Verdict::NoOpportunity(m) => {
            // 1 / 1.9 + 1 / 2.0 = 1.026...
            let margin = m.num as f64 / m.den as f64;
            assert!((margin - 1.0263).abs() < 0.001);
        }
        v => panic!("unexpected verdict {:?}", v),
    }
}

#[test]
fn market_with_an_opportunity_is_taken() {
    // Best odds 2.2 (first) and 2.1 (second): margin 0.93, profit about 7.5%.
    let market = vec![
        MarkedOffer(0, offer(1, &[("Alpha", 2.2), ("Beta", 1.7)])),
        MarkedOffer(1, offer(2, &[("Alpha", 1.6), ("Beta", 2.1)])),
    ];
    let bookies = vec![running("a.com", 10_000), running("b.com", 10_000)];
    match realize_market(&market, &bookies) {
        Verdict::Take(os) => {
            assert_eq!(os.len(), 2);
            assert_eq!(os[0].market, 0);
            assert_eq!(os[0].outcome.0, "Alpha");
            assert_eq!(os[1].market, 1);
            assert_eq!(os[1].outcome.0, "Beta");
        }
        v => panic!("unexpected verdict {:?}", v),
    }
}

#[test]
fn small_and_suspicious_profits() {
    let bookies = vec![running("a.com", 10_000), running("b.com", 10_000)];
    // Margin 0.99: a profit of about 1%.
    let small = vec![
        MarkedOffer(0, offer(1, &[("Alpha", 2.02), ("Beta", 1.7)])),
        MarkedOffer(1, offer(2, &[("Alpha", 1.6), ("Beta", 2.02)])),
    ];
    assert!(matches!(realize_market(&small, &bookies), Verdict::TooSmall(_)));
    // Margin 0.67: a profit of about 50%.
    let big = vec![
        MarkedOffer(0, offer(1, &[("Alpha", 3.0), ("Beta", 1.7)])),
        MarkedOffer(1, offer(2, &[("Alpha", 1.6), ("Beta", 3.0)])),
    ];
    assert!(matches!(realize_market(&big, &bookies), Verdict::Suspicious(_)));
}

#[test]
fn distribute_currency_holds_stakes() {
    let market = vec![
        MarkedOffer(0, offer(1, &[("Alpha", 2.2), ("Beta", 1.7)])),
        MarkedOffer(1, offer(2, &[("Alpha", 1.6), ("Beta", 2.1)])),
    ];
    let mut bookies = vec![running("a.com", 10_000), running("b.com", 10_000)];
    let os = match realize_market(&market, &bookies) {
        Verdict::Take(os) => os,
        v => panic!("unexpected verdict {:?}", v),
    };
    let stakes = distribute_currency(&market, &os, &mut bookies).expect("affordable");
    assert_eq!(stakes.len(), 2);
    // The lowest share (the outcome with the higher odds) gets the base stake.
    assert_eq!(stakes[0], Currency(BASE_STAKE));
    assert!(stakes[1].0 > BASE_STAKE);
    // Shares are 2.1 : 2.2, so the second stake is 100 * 2.2 / 2.1, to the nearest cent.
    assert_eq!(stakes[1], Currency(105));
    assert_eq!(bookies[0].balance(), Currency(10_000 - stakes[0].0));
    assert_eq!(bookies[1].balance(), Currency(10_000 - stakes[1].0));
}

#[test]
fn distribute_currency_refuses_without_money() {
    let market = vec![
        MarkedOffer(0, offer(1, &[("Alpha", 2.2), ("Beta", 1.7)])),
        MarkedOffer(1, offer(2, &[("Alpha", 1.6), ("Beta", 2.1)])),
    ];
    let mut bookies = vec![running("a.com", 10_000), running("b.com", 50)];
    let os = match realize_market(&market, &bookies) {
        Verdict::Take(os) => os,
        v => panic!("unexpected verdict {:?}", v),
    };
    assert!(distribute_currency(&market, &os, &mut bookies).is_none());
    assert_eq!(bookies[0].balance(), Currency(10_000));
    assert_eq!(bookies[1].balance(), Currency(50));
}

#[test]
fn combo_records_every_bet() {
    let market = vec![
        MarkedOffer(0, offer(11, &[("Alpha", 2.2), ("(draw)", 1.7)])),
        MarkedOffer(1, offer(22, &[("Alpha", 1.6), ("(draw)", 2.1)])),
    ];
    let bookies = vec![running("a.com", 10_000), running("b.com", 10_000)];
    let os = match realize_market(&market, &bookies) {
        Verdict::Take(os) => os,
        v => panic!("unexpected verdict {:?}", v),
    };
    let stakes = vec![Currency(100), Currency(104)];
    let combo = combo_for(77, &market, &os, &stakes, &bookies);
    assert_eq!(combo.date, 77);
    assert_eq!(combo.game, "Football");
    assert_eq!(combo.kind, "Series");
    assert_eq!(combo.bets.len(), 2);
    assert_eq!(combo.bets[0].host, "a.com");
    assert_eq!(combo.bets[0].id, 11);
    assert_eq!(combo.bets[0].title.as_deref(), Some("Alpha"));
    assert_eq!(combo.bets[0].coef, 2200);
    assert_eq!(combo.bets[0].stake, Currency(100));
    assert_eq!(combo.bets[1].host, "b.com");
    assert_eq!(combo.bets[1].id, 22);
    assert_eq!(combo.bets[1].title, None);
    assert_eq!(combo.bets[1].expiry, 1_500_000_000);
    assert!(!combo.bets[1].placed);
}

#[test]
fn bet_protocol_steps() {
    let mut step = BetStep::Glance;
    let mut steps = 0;
    loop {
        match place_bet(step, StepResult::Passed) {
            BetAction::Step(next) => {
                step = next;
                steps += 1;
            }
            BetAction::Finish { degrade, release } => {
                assert!(!degrade);
                assert!(!release);
                break;
            }
        }
    }
    assert_eq!(step, BetStep::Mark);
    assert_eq!(steps, 7);
    assert_eq!(place_bet(BetStep::Check, StepResult::Broken), BetAction::Finish { degrade: true, release: true });
    assert_eq!(place_bet(BetStep::Check, StepResult::Failed), BetAction::Finish { degrade: false, release: true });
    assert_eq!(place_bet(BetStep::Place, StepResult::Failed), BetAction::Finish { degrade: true, release: true });
    assert_eq!(place_bet(BetStep::Glance, StepResult::Failed), BetAction::Finish { degrade: false, release: true });
    assert_eq!(place_bet(BetStep::AwaitRecord, StepResult::Failed), BetAction::Step(BetStep::Place));
}

#[test]
fn combo_protocol_steps() {
    assert_eq!(place_bets(ComboStep::AwaitChecks, true), ComboAction::Step(ComboStep::AwaitReglances));
    assert_eq!(place_bets(ComboStep::AwaitChecks, false), ComboAction::Finish);
    assert_eq!(place_bets(ComboStep::AwaitReglances, true), ComboAction::Step(ComboStep::Record));
    assert_eq!(place_bets(ComboStep::AwaitReglances, false), ComboAction::Finish);
    assert_eq!(place_bets(ComboStep::Record, false), ComboAction::Step(ComboStep::Release));
    assert_eq!(place_bets(ComboStep::Release, true), ComboAction::Finish);
}

#[test]
fn offers_meet_in_the_table() {
    let mut table = Table::new(16);
    let a = offer(1, &[("Spartak Moscow", 2.2), ("Zenit", 1.7)]);
    let b = offer(2, &[("Spartak Moscow", 1.6), ("Zenit", 2.1)]);
    assert!(!accept_offer(&mut table, 0, &a, true));
    assert!(accept_offer(&mut table, 1, &b, true));
    let bookies = vec![running("a.com", 10_000), running("b.com", 10_000)];
    match resolve(&table, &a, &bookies) {
        Some((market, Verdict::Take(os))) => {
            assert_eq!(market.len(), 2);
            assert_eq!(os[0].market, 0);
            assert_eq!(os[1].market, 1);
        }
        other => panic!("unexpected {:?}", other.map(|(_, v)| v)),
    }
    // Withdrawing one offer leaves the other alone.
    assert!(!accept_offer(&mut table, 1, &b, false));
    match resolve(&table, &a, &bookies) {
        Some((market, Verdict::Alone)) => assert_eq!(market.len(), 1),
        other => panic!("unexpected {:?}", other.map(|(_, v)| v)),
    }
}

#[test]
fn degradation_empties_the_bookie() {
    let mut table = Table::new(8);
    let mut bookie = running("a.com", 1000);
    for oid in 1..4u64 {
        let o = offer(oid, &[("Alpha", 2.0), ("Beta", 1.8)]);
        let (removed, added) = bookie.handle_message(Message::Upsert(o));
        assert!(removed.is_none());
        let added = added.expect("new offer");
        accept_offer(&mut table, 0, &added, true);
    }
    assert_eq!(bookie.offer_count(), 3);
    let removed = degradation(&mut table, 0, &mut bookie);
    assert_eq!(removed.len(), 3);
    assert_eq!(bookie.offer_count(), 0);
    let mut ids: Vec<u64> = removed.iter().map(|o| o.oid).collect();
    ids.sort();
    assert_eq!(ids, vec![1, 2, 3]);
    for o in &removed {
        assert!(table.get_market(o).is_none());
    }
}

#[test]
fn lookup_answers_decide_the_check() {
    assert!(matches!(after_lookup(Ok(true)), Some(Ok(false))));
    assert!(after_lookup(Ok(false)).is_none());
    assert!(matches!(after_lookup(Err(DbError("locked".to_string()))), Some(Err(DbError(ref e))) if e == "locked"));
}

#[test]
fn lookups_ask_each_offer_by_its_site_and_id() {
    let market = vec![
        MarkedOffer(1, offer(7, &[("Alpha", 2.0), ("Beta", 2.0)])),
        MarkedOffer(0, offer(9, &[("Alpha", 2.0), ("Beta", 2.0)])),
    ];
    let bookies = vec![running("a.com", 10_000), running("b.com", 10_000)];
    assert_eq!(market_lookups(&bookies, &market), vec![("b.com".to_string(), 7), ("a.com".to_string(), 9)]);
}

#[test]
fn answers_decide_whether_bets_were_made() {
    assert!(matches!(first_recorded(vec![]), Ok(true)));
    assert!(matches!(first_recorded(vec![Ok(false), Ok(false)]), Ok(true)));
    assert!(matches!(first_recorded(vec![Ok(false), Ok(true), Err(DbError("x".to_string()))]), Ok(false)));
    assert!(matches!(first_recorded(vec![Ok(false), Err(DbError("locked".to_string())), Ok(true)]), Err(DbError(ref e)) if e == "locked"));
}
