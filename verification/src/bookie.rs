//! The bookkeeping of a bookmaker account: its stage, retry delay, balance and the
//! offers currently seen on its site.

use vstd::prelude::*;
use std::collections::HashMap;
use crate::currency::Currency;
use crate::markets::{Offer, OfferView, OID};
use crate::matcher::{get_headline, headline};
use crate::gamblers::Message;
use vstd::std_specs::iter::IteratorSpec;

verus! {

broadcast use vstd::std_specs::hash::group_hash_axioms;

/// The shortest wait before watching a bookmaker again after a failure (seconds).
pub const MIN_RETRY_DELAY: u32 = 60;

/// The longest wait before watching a bookmaker again after failures (seconds).
pub const MAX_RETRY_DELAY: u32 = 30 * 60;

/// Where a bookmaker is in its life:
/// `Initial → Preparing → Running`, `Preparing | Running → Sleeping(wakeup) → Preparing`,
/// and `Aborted` once betting failed.
#[derive(Debug, Clone, Copy, PartialEq, Eq, Structural)]
pub enum Stage {
    Initial,
    Preparing,
    Running,
    Sleeping(u32),
    Aborted,
}

/// The number that stands for a stage in an atomic cell: -1 to -4 for the named stages,
/// the wake-up time for a sleeping one.
pub open spec fn stage_code(s: Stage) -> int {
    match s {
        Stage::Initial => -1,
        Stage::Preparing => -2,
        Stage::Running => -3,
        Stage::Aborted => -4,
        Stage::Sleeping(wakeup) => wakeup as int,
    }
}

/// The numbers that stand for some stage: the four fixed codes, and positive wake-up
/// times.
pub open spec fn is_stage_code(c: i64) -> bool {
    c == -1 || c == -2 || c == -3 || c == -4 || 0 < c
}

/// The stage a number stands for.
pub open spec fn stage_of_code(c: i64) -> Stage {
    if c == -1 {
        Stage::Initial
    } else if c == -2 {
        Stage::Preparing
    } else if c == -3 {
        Stage::Running
    } else if c == -4 {
        Stage::Aborted
    } else {
        Stage::Sleeping(c as u32)
    }
}

/// Stages that some number stands for: all but sleeping until time 0.
pub open spec fn is_encodable(s: Stage) -> bool {
    !(s matches Stage::Sleeping(w) && w == 0)
}

impl Stage {
    /// The stage a number stands for.
    pub fn from(stage: i64) -> (s: Stage)
        requires
            is_stage_code(stage),
        ensures
            s == stage_of_code(stage),
    {
        if stage == -1 {
            Stage::Initial
        } else if stage == -2 {
            Stage::Preparing
        } else if stage == -3 {
            Stage::Running
        } else if stage == -4 {
            Stage::Aborted
        } else {
            Stage::Sleeping(stage as u32)
        }
    }

    /// The number that stands for the stage.
    pub fn into(self) -> (c: i64)
        ensures
            c == stage_code(self),
    {
        match self {
            Stage::Initial => -1,
            Stage::Preparing => -2,
            Stage::Running => -3,
            Stage::Aborted => -4,
            Stage::Sleeping(wakeup) => wakeup as i64,
        }
    }
}

/// Reading back the number of an encodable stage gives the stage.
pub proof fn stage_code_round_trip(s: Stage)
    requires
        is_encodable(s),
    ensures
        is_stage_code(stage_code(s) as i64),
        stage_of_code(stage_code(s) as i64) == s,
{
}

/// The number of the stage that a number stands for is that number, for the numbers
/// that a stage can have (a wake-up time is a `u32`).
pub proof fn stage_decode_round_trip(c: i64)
    requires
        is_stage_code(c),
        c <= u32::MAX,
    ensures
        stage_code(stage_of_code(c)) == c,
        is_encodable(stage_of_code(c)),
{
}

/// The retry delay that follows `delay`: doubled, but within the bounds.
pub open spec fn next_delay(delay: u32) -> u32 {
    let doubled = 2 * delay;
    let capped = if doubled <= MAX_RETRY_DELAY { doubled } else { MAX_RETRY_DELAY as int };
    (if capped >= MIN_RETRY_DELAY { capped } else { MIN_RETRY_DELAY as int }) as u32
}

/// The views of a map of offers.
pub open spec fn offer_views(m: Map<OID, Offer>) -> Map<OID, OfferView> {
    Map::new(|k: OID| m.contains_key(k), |k: OID| m[k]@)
}

/// The bookkeeping of a bookmaker account.
pub struct Bookie {
    host: String,
    stage: Stage,
    delay: u32,
    balance: Currency,
    offers: HashMap<OID, Offer>,
}

impl Bookie {
    /// The site of the bookmaker.
    pub closed spec fn host_spec(&self) -> Seq<char> {
        self.host@
    }

    /// The site of the bookmaker.
    pub fn host(&self) -> (h: &String)
        ensures
            h@ == self.host_spec(),
    {
        &self.host
    }

    /// The stage.
    pub closed spec fn stage_spec(&self) -> Stage {
        self.stage
    }

    /// The current retry delay (seconds).
    pub closed spec fn delay_spec(&self) -> u32 {
        self.delay
    }

    /// The balance, less the stakes held for bets in progress.
    pub closed spec fn balance_spec(&self) -> Currency {
        self.balance
    }

    /// The offers seen on the site, by id.
    pub closed spec fn offers(&self) -> Map<OID, OfferView> {
        offer_views(self.offers@)
    }

    /// Every stored offer is stored under its id and can be matched; the stage can be
    /// stored in a number; the delay never exceeds the longest one.
    pub closed spec fn well_formed(&self) -> bool {
        &&& forall|k: OID| #[trigger] self.offers@.contains_key(k) ==> self.offers@[k].oid == k && self.offers@[k].well_formed()
        &&& is_encodable(self.stage)
        &&& self.delay <= MAX_RETRY_DELAY
    }

    /// A bookmaker that has not started yet: no offers, no balance, no delay.
    pub fn new(host: &str) -> (b: Bookie)
        ensures
            b.host_spec() == host@,
            b.well_formed(),
            b.stage_spec() == Stage::Initial,
            b.delay_spec() == 0,
            b.balance_spec() == Currency(0),
            b.offers() == Map::<OID, OfferView>::empty(),
    {
        let b = Bookie {
            host: host.to_string(),
            stage: Stage::Initial,
            delay: 0,
            balance: Currency(0),
            offers: HashMap::new(),
        };
        proof {
            assert(b.offers() =~= Map::<OID, OfferView>::empty());
        }
        b
    }

    /// The stage.
    pub fn stage(&self) -> (s: Stage)
        ensures
            s == self.stage_spec(),
    {
        self.stage
    }

    /// Moves to a stage.
    pub fn set_stage(&mut self, stage: Stage)
        requires
            old(self).well_formed(),
            is_encodable(stage),
        ensures
            final(self).well_formed(),
            final(self).stage_spec() == stage,
            final(self).delay_spec() == old(self).delay_spec(),
            final(self).balance_spec() == old(self).balance_spec(),
            final(self).offers() == old(self).offers(),
            final(self).host_spec() == old(self).host_spec(),
    {
        self.stage = stage;
    }

    /// The balance, less the stakes held for bets in progress.
    pub fn balance(&self) -> (c: Currency)
        ensures
            c == self.balance_spec(),
    {
        self.balance
    }

    /// Records the balance that the site reports.
    pub fn set_balance(&mut self, balance: Currency)
        requires
            old(self).well_formed(),
        ensures
            final(self).well_formed(),
            final(self).balance_spec() == balance,
            final(self).stage_spec() == old(self).stage_spec(),
            final(self).delay_spec() == old(self).delay_spec(),
            final(self).offers() == old(self).offers(),
            final(self).host_spec() == old(self).host_spec(),
    {
        self.balance = balance;
    }

    /// The current retry delay (seconds).
    pub fn delay(&self) -> (d: u32)
        ensures
            d == self.delay_spec(),
    {
        self.delay
    }

    /// Resets the retry delay, as watching works again.
    pub fn reset_delay(&mut self)
        requires
            old(self).well_formed(),
        ensures
            final(self).well_formed(),
            final(self).delay_spec() == 0,
            final(self).stage_spec() == old(self).stage_spec(),
            final(self).balance_spec() == old(self).balance_spec(),
            final(self).offers() == old(self).offers(),
            final(self).host_spec() == old(self).host_spec(),
    {
        self.delay = 0;
    }

    /// The number of offers seen on the site.
    pub fn offer_count(&self) -> (n: usize)
        ensures
            n == self.offers().len(),
    {
        proof {
            assert(self.offers().dom() =~= self.offers@.dom());
        }
        self.offers.len()
    }

    /// Holds a stake for a bet in progress: it leaves the balance (wrapping around, as the
    /// atomic subtraction of the balance cell does).
    pub fn hold_stake(&mut self, stake: Currency)
        requires
            old(self).well_formed(),
        ensures
            final(self).well_formed(),
            final(self).balance_spec() == Currency(old(self).balance_spec().0.wrapping_sub(stake.0)),
            final(self).stage_spec() == old(self).stage_spec(),
            final(self).delay_spec() == old(self).delay_spec(),
            final(self).offers() == old(self).offers(),
            final(self).host_spec() == old(self).host_spec(),
    {
        self.balance = Currency(self.balance.0.wrapping_sub(stake.0));
    }

    /// Releases a held stake: it returns to the balance (wrapping around, as the atomic
    /// addition of the balance cell does).
    pub fn release_stake(&mut self, stake: Currency)
        requires
            old(self).well_formed(),
        ensures
            final(self).well_formed(),
            final(self).balance_spec() == Currency(old(self).balance_spec().0.wrapping_add(stake.0)),
            final(self).stage_spec() == old(self).stage_spec(),
            final(self).delay_spec() == old(self).delay_spec(),
            final(self).offers() == old(self).offers(),
            final(self).host_spec() == old(self).host_spec(),
    {
        self.balance = Currency(self.balance.0.wrapping_add(stake.0));
    }

    /// Whether the site still shows exactly this offer.
    pub fn glance_offer(&self, offer: &Offer) -> (r: bool)
        ensures
            r == (self.offers().contains_key(offer.oid) && self.offers()[offer.oid] == offer@),
    {
        match self.offers.get(&offer.oid) {
            Some(stored) => stored.same_as(offer),
            None => false,
        }
    }

    /// Forgets all offers and hands them out.
    pub fn drain(&mut self) -> (r: Vec<Offer>)
        requires
            old(self).well_formed(),
        ensures
            final(self).well_formed(),
            final(self).offers() == Map::<OID, OfferView>::empty(),
            r@.len() == old(self).offers().len(),
            forall|i: int| 0 <= i < r@.len() ==> old(self).offers().contains_key(#[trigger] r@[i].oid)
                && old(self).offers()[r@[i].oid] == r@[i]@ && r@[i].well_formed(),
            forall|k: OID| old(self).offers().contains_key(k) ==> exists|i: int| 0 <= i < r@.len() && #[trigger] r@[i].oid == k,
            final(self).stage_spec() == old(self).stage_spec(),
            final(self).delay_spec() == old(self).delay_spec(),
            final(self).balance_spec() == old(self).balance_spec(),
            final(self).host_spec() == old(self).host_spec(),
    {
        let mut offers: HashMap<OID, Offer> = HashMap::new();
        std::mem::swap(&mut offers, &mut self.offers);
        let ghost m = offers@;
        let ghost keys = vstd::std_specs::hash::spec_keys_iter(&offers).remaining();
        let ghost ks = keys.unref();
        proof {
            assert(self.offers() =~= Map::<OID, OfferView>::empty());
        }
        let mut r: Vec<Offer> = Vec::new();
        for k in it: offers.keys()
            invariant
                m == offers@,
                it.seq() == keys,
                keys.unref().to_set() == m.dom(),
                keys.len() == m.dom().len(),
                forall|k: OID| #[trigger] m.contains_key(k) ==> m[k].oid == k && m[k].well_formed(),
                r@.len() == it.index(),
                ks == keys.unref(),
                forall|i: int| 0 <= i < r@.len() ==> m.contains_key(ks[i]) && #[trigger] r@[i]@ == m[ks[i]]@,
        {
            let ghost idx = it.index();
            proof {
                assert(k == keys[idx]);
                assert(keys.unref()[idx] == *keys[idx]);
                assert(keys.unref().contains(*k));
                assert(keys.unref().to_set().contains(*k));
                assert(m.contains_key(*k));
            }
            let o = offers.get(k).unwrap();
            let ghost before = r@;
            r.push(o.duplicate());
            proof {
                assert(r@[idx]@ == m[*keys[idx]]@);
                assert(ks[idx] == *keys[idx]);
                assert forall|i: int| 0 <= i < r@.len() implies m.contains_key(ks[i]) && #[trigger] r@[i]@ == m[ks[i]]@ by {
                    if i < idx {
                        assert(r@[i] == before[i]);
                        assert(before[i]@ == m[ks[i]]@);
                    } else {
                        assert(i == idx);
                    }
                }
            }
        }
        proof {
            assert(old(self).offers().dom() =~= m.dom());
            assert(ks.to_set() == m.dom());
            assert forall|k: OID| old(self).offers().contains_key(k) implies exists|i: int| 0 <= i < r@.len() && #[trigger] r@[i].oid == k by {
                assert(ks.to_set().contains(k));
                let i = choose|i: int| 0 <= i < ks.len() && ks[i] == k;
                assert(r@[i].oid == r@[i]@.oid);
            }
            assert forall|i: int| 0 <= i < r@.len() implies old(self).offers().contains_key(#[trigger] r@[i].oid)
                && old(self).offers()[r@[i].oid] == r@[i]@ && r@[i].well_formed() by {
                assert(r@[i]@ == m[ks[i]]@);
                assert(r@[i].oid == r@[i]@.oid);
                assert(r@[i].outcomes@.len() == r@[i]@.outcomes.len());
                assert(m[ks[i]].outcomes@.len() == m[ks[i]]@.outcomes.len());
            }
        }
        r
    }

    /// Applies a change reported by the site. A new offer is stored and to be added; an
    /// offer equal to the stored one changes nothing; a changed offer replaces the stored
    /// one and is to be updated, and when its headline changed (it moved to another
    /// market) the stored one is to be removed first; a removal forgets the stored offer,
    /// which is to be removed. Returns the offer to remove and the offer to add or update.
    pub fn handle_message(&mut self, message: Message) -> (r: (Option<Offer>, Option<Offer>))
        requires
            old(self).well_formed(),
            message matches Message::Upsert(o) ==> o.well_formed(),
        ensures
            final(self).well_formed(),
            final(self).stage_spec() == old(self).stage_spec(),
            final(self).delay_spec() == old(self).delay_spec(),
            final(self).balance_spec() == old(self).balance_spec(),
            final(self).host_spec() == old(self).host_spec(),
            message matches Message::Upsert(o) ==> final(self).offers().contains_key(o.oid)
                && final(self).offers()[o.oid] == o@,
            message matches Message::Remove(oid) ==> !final(self).offers().contains_key(oid),
            match message {
                Message::Upsert(o) => {
                    let offers = old(self).offers();
                    if !offers.contains_key(o.oid) {
                        &&& final(self).offers() == offers.insert(o.oid, o@)
                        &&& r.0 is None
                        &&& r.1 matches Some(u) && u@ == o@
                    } else if offers[o.oid] == o@ {
                        &&& final(self).offers() == offers
                        &&& r.0 is None
                        &&& r.1 is None
                    } else if headline(offers[o.oid]) == headline(o@) {
                        &&& final(self).offers() == offers.insert(o.oid, o@)
                        &&& r.0 is None
                        &&& r.1 matches Some(u) && u@ == o@
                    } else {
                        &&& final(self).offers() == offers.insert(o.oid, o@)
                        &&& r.0 matches Some(s) && s@ == offers[o.oid]
                        &&& r.1 matches Some(u) && u@ == o@
                    }
                },
                Message::Remove(oid) => {
                    let offers = old(self).offers();
                    &&& final(self).offers() == offers.remove(oid)
                    &&& r.1 is None
                    &&& if offers.contains_key(oid) {
                        r.0 matches Some(s) && s@ == offers[oid]
                    } else {
                        r.0 is None
                    }
                },
            },
    {
        let ghost m = self.offers@;
        match message {
            Message::Upsert(offer) => {
                let oid = offer.oid;
                let (same, same_headline) = match self.offers.get(&oid) {
                    None => {
                        let stored = offer.duplicate();
                        self.offers.insert(oid, stored);
                        proof {
                            assert(self.offers() =~= offer_views(m).insert(oid, offer@));
                        }
                        return (None, Some(offer));
                    },
                    Some(stored) => (stored.same_as(&offer), get_headline(stored) == get_headline(&offer)),
                };
                if same {
                    return (None, None);
                }
                let stored = self.offers.insert(oid, offer.duplicate());
                proof {
                    assert(self.offers() =~= offer_views(m).insert(oid, offer@));
                }
                if same_headline {
                    (None, Some(offer))
                } else {
                    (stored, Some(offer))
                }
            },
            Message::Remove(oid) => {
                let removed = self.offers.remove(&oid);
                proof {
                    assert(self.offers() =~= offer_views(m).remove(oid));
                }
                (removed, None)
            },
        }
    }

    /// After watching stopped: sleeps from `now` for the next retry delay (the delay
    /// doubled, within the shortest and the longest delay), which becomes the delay.
    pub fn schedule_sleep(&mut self, now: u32)
        requires
            old(self).well_formed(),
            now <= u32::MAX - MAX_RETRY_DELAY,
        ensures
            final(self).well_formed(),
            final(self).delay_spec() == next_delay(old(self).delay_spec()),
            final(self).stage_spec() == Stage::Sleeping((now + next_delay(old(self).delay_spec())) as u32),
            final(self).balance_spec() == old(self).balance_spec(),
            final(self).offers() == old(self).offers(),
            final(self).host_spec() == old(self).host_spec(),
    {
        let doubled = self.delay * 2;
        let capped = if doubled <= MAX_RETRY_DELAY { doubled } else { MAX_RETRY_DELAY };
        let delay = if capped >= MIN_RETRY_DELAY { capped } else { MIN_RETRY_DELAY };
        self.stage = Stage::Sleeping(now + delay);
        self.delay = delay;
    }

    /// How long to sleep at `now` before watching again: until the wake-up time of a
    /// sleeping bookmaker, nothing otherwise.
    pub fn sleep_needed(&self, now: u32) -> (secs: u32)
        ensures
            secs == match self.stage_spec() {
                Stage::Sleeping(wakeup) => if now < wakeup { (wakeup - now) as u32 } else { 0 },
                _ => 0,
            },
    {
        match self.stage {
            Stage::Sleeping(wakeup) => if now < wakeup { wakeup - now } else { 0 },
            _ => 0,
        }
    }
}


/// Releasing a stake gives back the balance from before holding it, whatever the
/// numbers (the balance wraps around as the bookkeeping does).
pub proof fn release_undoes_hold(balance: i64, stake: i64)
    ensures
        balance.wrapping_sub(stake).wrapping_add(stake) == balance,
{
}

} // verus!
