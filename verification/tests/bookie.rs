use aladdin::barrier::Barrier;
use aladdin::bookie::{Bookie, Stage, MAX_RETRY_DELAY, MIN_RETRY_DELAY};
use aladdin::currency::Currency;
use aladdin::gamblers::Message;
use aladdin::markets::{Game, Kind, Offer, Outcome};
use aladdin::table::{MarkedOffer, Table};

fn offer(oid: u64, date: u32, outcomes: &[(&str, u32)]) -> Offer {
    Offer {
        oid,
        date,
        game: Game::Tennis,
        kind: Kind::Series,
        outcomes: outcomes.iter().map(|&(t, c)| Outcome(t.to_string(), c)).collect(),
    }
}

#[test]
fn stage_codes_round_trip() {
    let stages = [Stage::Initial, Stage::Preparing, Stage::Running, Stage::Aborted, Stage::Sleeping(1234)];
    let codes = [-1i64, -2, -3, -4, 1234];
    for (s, c) in stages.iter().zip(codes.iter()) {
        assert_eq!(Stage::into(*s), *c);
        assert_eq!(Stage::from(*c), *s);
    }
    // A wake-up time past the range of `u32` keeps its low 32 bits.
    assert_eq!(Stage::from((1i64 << 32) + 5), Stage::Sleeping(5));
}

#[test]
fn new_bookie_is_initial_and_empty() {
    let b = Bookie::new("example.com");
    assert_eq!(b.host(), "example.com");
    assert_eq!(b.stage(), Stage::Initial);
    assert_eq!(b.balance(), Currency(0));
    assert_eq!(b.delay(), 0);
    assert_eq!(b.offer_count(), 0);
}

#[test]
fn stakes_are_held_and_released() {
    let mut b = Bookie::new("example.com");
    b.set_balance(Currency(1000));
    b.hold_stake(Currency(300));
    assert_eq!(b.balance(), Currency(700));
    b.release_stake(Currency(300));
    assert_eq!(b.balance(), Currency(1000));
}

#[test]
fn messages_update_the_offers() {
    let mut b = Bookie::new("example.com");
    let first = offer(7, 1_000_000, &[("A", 1500), ("B", 2500)]);

    // A new offer is stored and to be added.
    let (removed, added) = b.handle_message(Message::Upsert(first.duplicate()));
    assert!(removed.is_none());
    assert_eq!(added.unwrap().oid, 7);
    assert!(b.glance_offer(&first));

    // The same offer again changes nothing.
    let (removed, added) = b.handle_message(Message::Upsert(first.duplicate()));
    assert!(removed.is_none() && added.is_none());

    // Other odds, same headline: an update only.
    let changed = offer(7, 1_000_000, &[("A", 1600), ("B", 2400)]);
    let (removed, added) = b.handle_message(Message::Upsert(changed.duplicate()));
    assert!(removed.is_none());
    assert_eq!(added.unwrap().outcomes[0].1, 1600);
    assert!(!b.glance_offer(&first));
    assert!(b.glance_offer(&changed));

    // Another date moves the offer to another market: the stored one is removed first.
    let moved = offer(7, 2_000_000, &[("A", 1600), ("B", 2400)]);
    let (removed, added) = b.handle_message(Message::Upsert(moved.duplicate()));
    assert_eq!(removed.unwrap().date, 1_000_000);
    assert_eq!(added.unwrap().date, 2_000_000);

    // A removal forgets it.
    let (removed, added) = b.handle_message(Message::Remove(7));
    assert_eq!(removed.unwrap().date, 2_000_000);
    assert!(added.is_none());
    assert_eq!(b.offer_count(), 0);
    let (removed, _) = b.handle_message(Message::Remove(7));
    assert!(removed.is_none());
}

#[test]
fn retry_delay_doubles_within_bounds() {
    let mut b = Bookie::new("example.com");
    b.schedule_sleep(100);
    assert_eq!(b.delay(), MIN_RETRY_DELAY);
    assert_eq!(b.stage(), Stage::Sleeping(100 + MIN_RETRY_DELAY));
    assert_eq!(b.sleep_needed(100), MIN_RETRY_DELAY);
    assert_eq!(b.sleep_needed(100 + MIN_RETRY_DELAY), 0);
    b.schedule_sleep(1000);
    assert_eq!(b.delay(), 2 * MIN_RETRY_DELAY);
    for _ in 0..10 {
        b.schedule_sleep(1000);
    }
    assert_eq!(b.delay(), MAX_RETRY_DELAY);
    b.reset_delay();
    assert_eq!(b.delay(), 0);
    b.set_stage(Stage::Running);
    assert_eq!(b.sleep_needed(0), 0);
}

#[test]
fn drain_hands_out_every_offer() {
    let mut b = Bookie::new("example.com");
    for oid in [3u64, 1, 2] {
        b.handle_message(Message::Upsert(offer(oid, 5000, &[("A", 1500), ("B", 2500)])));
    }
    let mut ids: Vec<u64> = b.drain().iter().map(|o| o.oid).collect();
    ids.sort();
    assert_eq!(ids, vec![1, 2, 3]);
    assert_eq!(b.offer_count(), 0);
}

#[test]
fn table_finds_a_stored_offer_and_forgets_a_removed_one() {
    let mut t = Table::new(4);
    let o = offer(1, 7200, &[("Rafael Nadal", 1500), ("Roger Federer", 2500)]);
    assert!(t.get_market(&o).is_none());
    assert_eq!(t.update_offer(MarkedOffer(0, o.duplicate())), 1);
    let m = t.get_market(&o).expect("stored");
    assert_eq!(m.len(), 1);
    assert_eq!(m[0].0, 0);
    // An offer of the same event by another bookmaker joins the market.
    let other = offer(9, 7200, &[("R. Nadal", 1600), ("R. Federer", 2400)]);
    assert_eq!(t.update_offer(MarkedOffer(1, other.duplicate())), 2);
    // The same bookmaker again replaces its offer.
    assert_eq!(t.update_offer(MarkedOffer(1, other.duplicate())), 2);
    assert_eq!(t.markets().len(), 1);
    t.remove_offer(&MarkedOffer(1, other.duplicate()));
    assert_eq!(t.get_market(&o).unwrap().len(), 1);
    t.remove_offer(&MarkedOffer(0, o.duplicate()));
    assert!(t.get_market(&o).is_none());
    assert_eq!(t.markets().len(), 0);
}

#[test]
fn table_keeps_different_events_apart() {
    let mut t = Table::new(4);
    let a = offer(1, 7200, &[("Rafael Nadal", 1500), ("Roger Federer", 2500)]);
    let b = offer(2, 7200, &[("Novak Djokovic", 1500), ("Andy Murray", 2500)]);
    let c = offer(3, 9 * 3600, &[("Rafael Nadal", 1500), ("Roger Federer", 2500)]);
    t.update_offer(MarkedOffer(0, a.duplicate()));
    assert_eq!(t.update_offer(MarkedOffer(1, b.duplicate())), 1);
    assert_eq!(t.update_offer(MarkedOffer(1, c.duplicate())), 1);
    assert_eq!(t.markets().len(), 3);
}

#[test]
fn barrier_releases_on_the_last_arrival() {
    let mut b = Barrier::new(10);
    for _ in 0..9 {
        assert!(!b.arrive());
    }
    assert!(b.arrive());
    // A new round starts.
    assert!(!b.arrive());
}

#[test]
fn barrier_of_one_releases_every_arrival() {
    let mut b = Barrier::new(1);
    assert!(b.arrive());
    assert!(b.arrive());
}

#[test]
fn holding_then_releasing_restores_the_balance() {
    let mut b = Bookie::new("example.com");
    b.set_balance(Currency(i64::MIN + 5));
    b.hold_stake(Currency(100));
    b.release_stake(Currency(100));
    assert_eq!(b.balance(), Currency(i64::MIN + 5));
}
