//! The table of markets: the offers of all bookmakers, grouped into markets of offers
//! about the same event. The table is split into entries by a hash of the offers'
//! headlines, so that offers that can match always land in the same entry.

use vstd::prelude::*;
use std::collections::hash_map::DefaultHasher;
use std::hash::Hasher;
use vstd::std_specs::hash::DefaultHasherAdditionalSpecFns;
use crate::markets::{Offer, OfferView};
use crate::matcher::{Headline, headline, get_headline, offers_match, compare_offers};

verus! {

/// An offer marked with the bookmaker it comes from (its index among the bookmakers).
#[derive(Debug)]
pub struct MarkedOffer(pub usize, pub Offer);

/// A marked offer in plain values.
pub type MarkedView = (usize, OfferView);

impl View for MarkedOffer {
    type V = MarkedView;

    open spec fn view(&self) -> MarkedView {
        (self.0, self.1@)
    }
}

impl MarkedOffer {
    /// A copy of the marked offer.
    pub fn duplicate(&self) -> (r: MarkedOffer)
        ensures
            r@ == self@,
    {
        MarkedOffer(self.0, self.1.duplicate())
    }
}

/// The views of some marked offers.
pub open spec fn marked_views(s: Seq<MarkedOffer>) -> Seq<MarkedView> {
    s.map_values(|m: MarkedOffer| m@)
}

/// A market: the offer that first opened it (its badge) and the offers in it, at most
/// one per bookmaker.
struct Bucket {
    badge: Offer,
    market: Vec<MarkedOffer>,
}

/// A market in plain values.
pub struct BucketView {
    pub badge: OfferView,
    pub market: Seq<MarkedView>,
}

impl View for Bucket {
    type V = BucketView;

    closed spec fn view(&self) -> BucketView {
        BucketView { badge: self.badge@, market: marked_views(self.market@) }
    }
}

/// The views of an entry's buckets.
spec fn bucket_views(s: Seq<Bucket>) -> Seq<BucketView> {
    s.map_values(|b: Bucket| b@)
}

/// The first market of an entry whose badge matches the offer.
pub open spec fn find_bucket(entry: Seq<BucketView>, o: OfferView) -> Option<int>
    decreases entry.len(),
{
    if entry.len() == 0 {
        None
    } else {
        match find_bucket(entry.drop_last(), o) {
            Some(i) => Some(i),
            None => if offers_match(o, entry.last().badge) {
                Some(entry.len() - 1)
            } else {
                None
            },
        }
    }
}

/// The position of the offer of a bookmaker in a market.
pub open spec fn find_stored(market: Seq<MarkedView>, bookie: usize) -> Option<int>
    decreases market.len(),
{
    if market.len() == 0 {
        None
    } else {
        match find_stored(market.drop_last(), bookie) {
            Some(i) => Some(i),
            None => if market.last().0 == bookie {
                Some(market.len() - 1)
            } else {
                None
            },
        }
    }
}

/// An entry after storing a marked offer: in the first matching market it replaces the
/// offer of the same bookmaker or joins the market; with no matching market it opens a
/// new one.
pub open spec fn entry_after_update(entry: Seq<BucketView>, m: MarkedView) -> Seq<BucketView> {
    match find_bucket(entry, m.1) {
        Some(b) => {
            let mk = entry[b].market;
            let new_market = match find_stored(mk, m.0) {
                Some(k) => mk.update(k, m),
                None => mk.push(m),
            };
            entry.update(b, BucketView { badge: entry[b].badge, market: new_market })
        },
        None => entry.push(BucketView { badge: m.1, market: seq![m] }),
    }
}

/// The size of the market that holds a marked offer after storing it.
pub open spec fn market_size_after_update(entry: Seq<BucketView>, m: MarkedView) -> nat {
    match find_bucket(entry, m.1) {
        Some(b) => match find_stored(entry[b].market, m.0) {
            Some(k) => entry[b].market.len(),
            None => entry[b].market.len() + 1,
        },
        None => 1,
    }
}

/// An entry after removing a marked offer: the offer of its bookmaker leaves the first
/// matching market (the last offer taking its place), and a market left empty is closed.
/// Nothing changes when there is no such market or no such offer.
pub open spec fn entry_after_remove(entry: Seq<BucketView>, m: MarkedView) -> Seq<BucketView> {
    match find_bucket(entry, m.1) {
        Some(b) => {
            let mk = entry[b].market;
            match find_stored(mk, m.0) {
                Some(k) => if mk.len() > 1 {
                    entry.update(b, BucketView { badge: entry[b].badge, market: mk.update(k, mk.last()).drop_last() })
                } else {
                    entry.remove(b)
                },
                None => entry,
            }
        },
        None => entry,
    }
}

/// The bytes of a headline that choose its entry: the rounded date and the number of
/// outcomes.
pub open spec fn headline_bytes(h: Headline) -> Seq<u8> {
    seq![
        (h.date & 0xff) as u8,
        ((h.date >> 8u32) & 0xff) as u8,
        ((h.date >> 16u32) & 0xff) as u8,
        ((h.date >> 24u32) & 0xff) as u8,
        (h.outcome_count & 0xff) as u8,
    ]
}

/// The entry of a headline in a table of `n` entries: its hash (SipHash with fixed keys,
/// `DefaultHasher`) modulo `n`.
pub open spec fn entry_index(h: Headline, n: nat) -> int {
    (DefaultHasher::spec_finish(seq![headline_bytes(h)]) as int) % (n as int)
}

/// Whether an offer can be matched: at most three outcomes, a date that rounds.
pub open spec fn matchable(o: OfferView) -> bool {
    o.outcomes.len() <= 3 && o.date <= crate::markets::MAX_DATE
}

/// A market is not empty, its badge and offers can be matched, its offers share the
/// badge's headline, and it holds at most one offer per bookmaker.
pub open spec fn well_formed_market(bucket: BucketView) -> bool {
    let mk = bucket.market;
    &&& mk.len() > 0
    &&& matchable(bucket.badge)
    &&& forall|k: int| 0 <= k < mk.len() ==> matchable(#[trigger] mk[k].1) && headline(mk[k].1) == headline(bucket.badge)
    &&& forall|i: int, j: int| 0 <= i < mk.len() && 0 <= j < mk.len() && i != j ==> #[trigger] mk[i].0 != #[trigger] mk[j].0
}

/// The first matching market of an entry is a matching market of it, and none before it
/// matches.
pub proof fn lemma_find_bucket(entry: Seq<BucketView>, o: OfferView)
    ensures
        match find_bucket(entry, o) {
            Some(b) => 0 <= b < entry.len() && offers_match(o, entry[b].badge)
                && forall|c: int| 0 <= c < b ==> !offers_match(o, #[trigger] entry[c].badge),
            None => forall|c: int| 0 <= c < entry.len() ==> !offers_match(o, #[trigger] entry[c].badge),
        },
    decreases entry.len(),
{
    if entry.len() > 0 {
        lemma_find_bucket(entry.drop_last(), o);
        let init = entry.drop_last();
        assert forall|c: int| 0 <= c < init.len() implies init[c] == entry[c] by {}
    }
}

proof fn lemma_find_stored(market: Seq<MarkedView>, bookie: usize)
    ensures
        match find_stored(market, bookie) {
            Some(k) => 0 <= k < market.len() && market[k].0 == bookie,
            None => forall|c: int| 0 <= c < market.len() ==> #[trigger] market[c].0 != bookie,
        },
    decreases market.len(),
{
    if market.len() > 0 {
        lemma_find_stored(market.drop_last(), bookie);
        let init = market.drop_last();
        assert forall|c: int| 0 <= c < init.len() implies init[c] == market[c] by {}
    }
}

/// The markets of an entry are well formed and their badges' headlines choose the entry
/// `e` among `n`.
pub open spec fn well_formed_entry(entry: Seq<BucketView>, e: int, n: nat) -> bool {
    forall|b: int| 0 <= b < entry.len() ==> {
        let bucket = #[trigger] entry[b];
        &&& entry_index(headline(bucket.badge), n) == e
        &&& well_formed_market(bucket)
    }
}

/// The first market of the entry whose badge matches the offer.
fn find_bucket_in(entry: &Vec<Bucket>, offer: &Offer) -> (r: Option<usize>)
    requires
        offer.well_formed(),
        forall|b: int| 0 <= b < entry@.len() ==> well_formed_market(#[trigger] bucket_views(entry@)[b]),
    ensures
        match find_bucket(bucket_views(entry@), offer@) {
            Some(b) => r == Some(b as usize),
            None => r is None,
        },
{
    let ghost ev = bucket_views(entry@);
    let mut i: usize = 0;
    while i < entry.len()
        invariant
            i <= entry.len(),
            offer.well_formed(),
            ev == bucket_views(entry@),
            forall|b: int| 0 <= b < entry@.len() ==> well_formed_market(#[trigger] ev[b]),
            find_bucket(ev.take(i as int), offer@) is None,
        decreases entry.len() - i,
    {
        proof {
            let t = ev.take(i as int + 1);
            assert(t.drop_last() == ev.take(i as int));
            assert(t.last() == ev[i as int]);
            assert(ev[i as int] == entry@[i as int]@);
            assert(well_formed_market(ev[i as int]));
        }
        if compare_offers(offer, &entry[i].badge) {
            proof {
                lemma_find_bucket_prefix(ev, offer@, i as int + 1);
            }
            return Some(i);
        }
        i = i + 1;
    }
    proof {
        assert(ev.take(entry.len() as int) == ev);
    }
    None
}

proof fn lemma_find_bucket_prefix(entry: Seq<BucketView>, o: OfferView, n: int)
    requires
        0 <= n <= entry.len(),
        find_bucket(entry.take(n), o) is Some,
    ensures
        find_bucket(entry, o) == find_bucket(entry.take(n), o),
    decreases entry.len() - n,
{
    if n < entry.len() {
        let t = entry.take(n + 1);
        assert(t.drop_last() == entry.take(n));
        lemma_find_bucket_prefix(entry, o, n + 1);
    } else {
        assert(entry.take(n) == entry);
    }
}

proof fn lemma_find_stored_prefix(market: Seq<MarkedView>, bookie: usize, n: int)
    requires
        0 <= n <= market.len(),
        find_stored(market.take(n), bookie) is Some,
    ensures
        find_stored(market, bookie) == find_stored(market.take(n), bookie),
    decreases market.len() - n,
{
    if n < market.len() {
        let t = market.take(n + 1);
        assert(t.drop_last() == market.take(n));
        lemma_find_stored_prefix(market, bookie, n + 1);
    } else {
        assert(market.take(n) == market);
    }
}

/// The position of the bookmaker's offer in a market.
fn find_stored_in(market: &Vec<MarkedOffer>, bookie: usize) -> (r: Option<usize>)
    ensures
        match find_stored(marked_views(market@), bookie) {
            Some(k) => r == Some(k as usize),
            None => r is None,
        },
{
    let ghost mv = marked_views(market@);
    let mut i: usize = 0;
    while i < market.len()
        invariant
            i <= market.len(),
            mv == marked_views(market@),
            find_stored(mv.take(i as int), bookie) is None,
        decreases market.len() - i,
    {
        proof {
            let t = mv.take(i as int + 1);
            assert(t.drop_last() == mv.take(i as int));
            assert(t.last() == market@[i as int]@);
        }
        if market[i].0 == bookie {
            proof {
                lemma_find_stored_prefix(mv, bookie, i as int + 1);
            }
            return Some(i);
        }
        i = i + 1;
    }
    proof {
        assert(mv.take(market.len() as int) == mv);
    }
    None
}

proof fn lemma_update_keeps_entry(entry: Seq<BucketView>, m: MarkedView, e: int, n: nat)
    requires
        well_formed_entry(entry, e, n),
        matchable(m.1),
        entry_index(headline(m.1), n) == e,
    ensures
        well_formed_entry(entry_after_update(entry, m), e, n),
{
    lemma_find_bucket(entry, m.1);
    match find_bucket(entry, m.1) {
        Some(b) => {
            let mk = entry[b].market;
            lemma_find_stored(mk, m.0);
            assert(well_formed_market(entry[b]));
            let after = entry_after_update(entry, m);
            assert(well_formed_market(after[b]));
        },
        None => {
            let after = entry_after_update(entry, m);
            assert(well_formed_market(after[entry.len() as int]));
        },
    }
}

proof fn lemma_remove_keeps_entry(entry: Seq<BucketView>, m: MarkedView, e: int, n: nat)
    requires
        well_formed_entry(entry, e, n),
    ensures
        well_formed_entry(entry_after_remove(entry, m), e, n),
{
    lemma_find_bucket(entry, m.1);
    match find_bucket(entry, m.1) {
        Some(b) => {
            let mk = entry[b].market;
            lemma_find_stored(mk, m.0);
            assert(well_formed_market(entry[b]));
            match find_stored(mk, m.0) {
                Some(k) => {
                    if mk.len() > 1 {
                        let nm = mk.update(k, mk.last()).drop_last();
                        assert forall|i: int, j: int| 0 <= i < nm.len() && 0 <= j < nm.len() && i != j
                            implies #[trigger] nm[i].0 != #[trigger] nm[j].0 by {
                            let ii = if i == k { mk.len() - 1 } else { i };
                            let jj = if j == k { mk.len() - 1 } else { j };
                            assert(nm[i] == mk[ii]);
                            assert(nm[j] == mk[jj]);
                        }
                        assert forall|i: int| 0 <= i < nm.len() implies matchable(#[trigger] nm[i].1)
                            && headline(nm[i].1) == headline(entry[b].badge) by {
                            let ii = if i == k { mk.len() - 1 } else { i };
                            assert(nm[i] == mk[ii]);
                        }
                        let after = entry_after_remove(entry, m);
                        assert(well_formed_market(after[b]));
                    } else {
                        let after = entry_after_remove(entry, m);
                        assert forall|c: int| 0 <= c < after.len() implies #[trigger] after[c] == entry[
                            if c < b { c } else { c + 1 }] by {}
                    }
                },
                None => {},
            }
        },
        None => {},
    }
}

/// Changing the market of one bucket changes the entry's view at that bucket alone.
proof fn lemma_market_changed(before: Seq<Bucket>, after: Seq<Bucket>, b: int)
    requires
        0 <= b < before.len(),
        after.len() == before.len(),
        after[b].badge == before[b].badge,
        forall|c: int| 0 <= c < before.len() && c != b ==> after[c] == before[c],
    ensures
        bucket_views(after) == bucket_views(before).update(b, BucketView {
            badge: bucket_views(before)[b].badge,
            market: marked_views(after[b].market@),
        }),
{
    assert(bucket_views(after) =~= bucket_views(before).update(b, BucketView {
        badge: bucket_views(before)[b].badge,
        market: marked_views(after[b].market@),
    }));
}

/// Stores a marked offer in an entry (see `entry_after_update`) and tells the size of
/// its market afterwards.
fn update_in_entry(entry: &mut Vec<Bucket>, marked: MarkedOffer) -> (n: usize)
    requires
        marked.1.well_formed(),
        forall|b: int| 0 <= b < old(entry)@.len() ==> well_formed_market(#[trigger] bucket_views(old(entry)@)[b]),
    ensures
        bucket_views(final(entry)@) == entry_after_update(bucket_views(old(entry)@), marked@),
        n == market_size_after_update(bucket_views(old(entry)@), marked@),
{
    let ghost ev = bucket_views(entry@);
    let ghost before = entry@;
    let ghost m = marked@;
    proof {
        lemma_find_bucket(ev, m.1);
        assert(ev.len() == entry.len());
    }
    match find_bucket_in(entry, &marked.1) {
        Some(b) => {
            let ghost mv = marked_views(entry@[b as int].market@);
            assert(ev[b as int].market == mv);
            proof {
                lemma_find_stored(mv, m.0);
            }
            match find_stored_in(&entry[b].market, marked.0) {
                Some(k) => {
                    let n = entry[b].market.len();
                    entry[b].market.set(k, marked);
                    proof {
                        assert(marked_views(entry@[b as int].market@) =~= mv.update(k as int, m));
                        lemma_market_changed(before, entry@, b as int);
                        assert(bucket_views(entry@) =~= entry_after_update(ev, m));
                    }
                    n
                },
                None => {
                    entry[b].market.push(marked);
                    proof {
                        assert(marked_views(entry@[b as int].market@) =~= mv.push(m));
                        lemma_market_changed(before, entry@, b as int);
                        assert(bucket_views(entry@) =~= entry_after_update(ev, m));
                    }
                    entry[b].market.len()
                },
            }
        },
        None => {
            let badge = marked.1.duplicate();
            let mut market: Vec<MarkedOffer> = Vec::new();
            market.push(marked);
            entry.push(Bucket { badge, market });
            proof {
                assert(marked_views(market@) =~= seq![m]);
                assert(bucket_views(entry@) =~= entry_after_update(ev, m));
            }
            1
        },
    }
}

/// Removes a marked offer from an entry (see `entry_after_remove`).
fn remove_in_entry(entry: &mut Vec<Bucket>, marked: &MarkedOffer)
    requires
        marked.1.well_formed(),
        forall|b: int| 0 <= b < old(entry)@.len() ==> well_formed_market(#[trigger] bucket_views(old(entry)@)[b]),
    ensures
        bucket_views(final(entry)@) == entry_after_remove(bucket_views(old(entry)@), marked@),
{
    let ghost ev = bucket_views(entry@);
    let ghost before = entry@;
    let ghost m = marked@;
    proof {
        lemma_find_bucket(ev, m.1);
        assert(ev.len() == entry.len());
    }
    match find_bucket_in(entry, &marked.1) {
        Some(b) => {
            let ghost mv = marked_views(entry@[b as int].market@);
            assert(ev[b as int].market == mv);
            proof {
                lemma_find_stored(mv, m.0);
            }
            match find_stored_in(&entry[b].market, marked.0) {
                Some(k) => {
                    if entry[b].market.len() > 1 {
                        entry[b].market.swap_remove(k);
                        proof {
                            assert(marked_views(entry@[b as int].market@) =~= mv.update(k as int, mv.last()).drop_last());
                            lemma_market_changed(before, entry@, b as int);
                            assert(bucket_views(entry@) =~= entry_after_remove(ev, m));
                        }
                    } else {
                        entry.remove(b);
                        proof {
                            assert(bucket_views(entry@) =~= ev.remove(b as int));
                            assert(bucket_views(entry@) =~= entry_after_remove(ev, m));
                        }
                    }
                },
                None => {},
            }
        },
        None => {},
    }
}

/// The table of markets.
pub struct Table {
    entries: Vec<Vec<Bucket>>,
}

impl Table {
    /// The markets of each entry.
    pub closed spec fn entries(&self) -> Seq<Seq<BucketView>> {
        self.entries@.map_values(|e: Vec<Bucket>| bucket_views(e@))
    }

    /// Every market is in the entry of its badge's headline, holds well-formed offers of
    /// the badge's headline, and is not empty.
    pub open spec fn well_formed(&self) -> bool {
        let es = self.entries();
        &&& es.len() > 0
        &&& forall|e: int| 0 <= e < es.len() ==> well_formed_entry(#[trigger] es[e], e, es.len())
    }

    /// An empty table with `capacity` entries.
    pub fn new(capacity: usize) -> (t: Table)
        requires
            capacity > 0,
        ensures
            t.well_formed(),
            t.entries().len() == capacity,
            forall|e: int| 0 <= e < capacity ==> #[trigger] t.entries()[e].len() == 0,
    {
        let mut entries: Vec<Vec<Bucket>> = Vec::new();
        let mut i: usize = 0;
        while i < capacity
            invariant
                i <= capacity,
                entries@.len() == i,
                forall|e: int| 0 <= e < i ==> #[trigger] entries@[e]@.len() == 0,
            decreases capacity - i,
        {
            entries.push(Vec::new());
            i = i + 1;
        }
        let t = Table { entries };
        proof {
            assert forall|e: int| 0 <= e < capacity implies #[trigger] t.entries()[e].len() == 0 by {
                assert(t.entries()[e] == bucket_views(t.entries@[e]@));
            }
        }
        t
    }

    /// The entry of an offer.
    fn entry_of(&self, offer: &Offer) -> (e: usize)
        requires
            self.well_formed(),
            offer.well_formed(),
        ensures
            e == entry_index(headline(offer@), self.entries().len()),
            e < self.entries().len(),
    {
        let h = get_headline(offer);
        let mut bytes: Vec<u8> = Vec::new();
        bytes.push((h.date & 0xff) as u8);
        bytes.push(((h.date >> 8u32) & 0xff) as u8);
        bytes.push(((h.date >> 16u32) & 0xff) as u8);
        bytes.push(((h.date >> 24u32) & 0xff) as u8);
        bytes.push((h.outcome_count & 0xff) as u8);
        let mut hasher = DefaultHasher::new();
        hasher.write(bytes.as_slice());
        let hash = hasher.finish();
        proof {
            assert(bytes@ =~= headline_bytes(h));
            assert(hasher@ =~= seq![headline_bytes(h)]);
        }
        (hash % (self.entries.len() as u64)) as usize
    }

    /// The entry of the table that an offer belongs to.
    pub open spec fn entry_for(&self, o: OfferView) -> int {
        entry_index(headline(o), self.entries().len())
    }

    /// The entry of an offer is an entry of the table.
    pub proof fn lemma_entry_for(&self, o: OfferView)
        requires
            self.well_formed(),
        ensures
            0 <= self.entry_for(o) < self.entries().len(),
    {
    }

    /// Stores an offer of a bookmaker: it replaces the bookmaker's offer in the first
    /// market that matches it, joins that market, or opens a new one. Returns the number
    /// of offers in its market afterwards.
    pub fn update_offer(&mut self, marked: MarkedOffer) -> (n: usize)
        requires
            old(self).well_formed(),
            marked.1.well_formed(),
        ensures
            final(self).well_formed(),
            final(self).entries() == old(self).entries().update(
                old(self).entry_for(marked@.1),
                entry_after_update(old(self).entries()[old(self).entry_for(marked@.1)], marked@),
            ),
            n == market_size_after_update(old(self).entries()[old(self).entry_for(marked@.1)], marked@),
    {
        let ghost es = self.entries();
        let ghost m = marked@;
        let e = self.entry_of(&marked.1);
        proof {
            assert(well_formed_entry(es[e as int], e as int, es.len()));
            assert(es[e as int] == bucket_views(self.entries@[e as int]@));
            lemma_update_keeps_entry(es[e as int], m, e as int, es.len());
        }
        let n = update_in_entry(&mut self.entries[e], marked);
        proof {
            assert(self.entries() =~= es.update(e as int, entry_after_update(es[e as int], m)));
            assert forall|i: int| 0 <= i < self.entries().len() implies well_formed_entry(
                #[trigger] self.entries()[i], i, self.entries().len()) by {
                if i != e {
                    assert(self.entries()[i] == es[i]);
                }
            }
        }
        n
    }

    /// Takes the offer of a bookmaker out of the first market that matches it; a market
    /// left empty is closed. Nothing changes if there is no such offer.
    pub fn remove_offer(&mut self, marked: &MarkedOffer)
        requires
            old(self).well_formed(),
            marked.1.well_formed(),
        ensures
            final(self).well_formed(),
            final(self).entries() == old(self).entries().update(
                old(self).entry_for(marked@.1),
                entry_after_remove(old(self).entries()[old(self).entry_for(marked@.1)], marked@),
            ),
    {
        let ghost es = self.entries();
        let ghost m = marked@;
        let e = self.entry_of(&marked.1);
        proof {
            assert(well_formed_entry(es[e as int], e as int, es.len()));
            assert(es[e as int] == bucket_views(self.entries@[e as int]@));
            lemma_remove_keeps_entry(es[e as int], m, e as int, es.len());
        }
        remove_in_entry(&mut self.entries[e], marked);
        proof {
            assert(self.entries() =~= es.update(e as int, entry_after_remove(es[e as int], m)));
            assert forall|i: int| 0 <= i < self.entries().len() implies well_formed_entry(
                #[trigger] self.entries()[i], i, self.entries().len()) by {
                if i != e {
                    assert(self.entries()[i] == es[i]);
                }
            }
        }
    }

    /// The market of an offer: the first market of its entry whose badge matches it.
    pub fn get_market(&self, offer: &Offer) -> (r: Option<&Vec<MarkedOffer>>)
        requires
            self.well_formed(),
            offer.well_formed(),
        ensures
            match find_bucket(self.entries()[self.entry_for(offer@)], offer@) {
                Some(b) => r is Some && marked_views(r->0@) == self.entries()[self.entry_for(offer@)][b].market,
                None => r is None,
            },
    {
        let e = self.entry_of(offer);
        let ghost es = self.entries();
        proof {
            assert(well_formed_entry(es[e as int], e as int, es.len()));
            assert(es[e as int] == bucket_views(self.entries@[e as int]@));
            lemma_find_bucket(es[e as int], offer@);
            assert(es[e as int].len() == self.entries[e as int].len());
        }
        match find_bucket_in(&self.entries[e], offer) {
            Some(b) => Some(&self.entries[e][b].market),
            None => None,
        }
    }
}

/// The markets of an entry.
pub open spec fn entry_markets(entry: Seq<BucketView>) -> Seq<Seq<MarkedView>> {
    entry.map_values(|b: BucketView| b.market)
}

/// The markets of a table, entry by entry.
pub open spec fn table_markets(es: Seq<Seq<BucketView>>) -> Seq<Seq<MarkedView>>
    decreases es.len(),
{
    if es.len() == 0 {
        seq![]
    } else {
        table_markets(es.drop_last()) + entry_markets(es.last())
    }
}

/// The views of some markets.
pub open spec fn market_views(ms: Seq<&Vec<MarkedOffer>>) -> Seq<Seq<MarkedView>> {
    ms.map_values(|m: &Vec<MarkedOffer>| marked_views(m@))
}

impl Table {
    /// All markets of the table, entry by entry.
    pub fn markets(&self) -> (r: Vec<&Vec<MarkedOffer>>)
        ensures
            market_views(r@) == table_markets(self.entries()),
    {
        let ghost es = self.entries();
        let mut r: Vec<&Vec<MarkedOffer>> = Vec::new();
        let mut e: usize = 0;
        while e < self.entries.len()
            invariant
                e <= self.entries.len(),
                es == self.entries(),
                market_views(r@) == table_markets(es.take(e as int)),
            decreases self.entries.len() - e,
        {
            let entry = &self.entries[e];
            let ghost prefix = market_views(r@);
            let ghost ev = es[e as int];
            proof {
                assert(ev == bucket_views(entry@));
            }
            let mut b: usize = 0;
            while b < entry.len()
                invariant
                    b <= entry.len(),
                    ev == bucket_views(entry@),
                    market_views(r@) == prefix + entry_markets(ev).take(b as int),
                decreases entry.len() - b,
            {
                let ghost before = market_views(r@);
                r.push(&entry[b].market);
                proof {
                    assert(entry_markets(ev).take(b as int + 1) =~= entry_markets(ev).take(b as int).push(ev[b as int].market));
                    assert(market_views(r@) =~= before.push(marked_views(entry@[b as int].market@)));
                    assert(market_views(r@) =~= prefix + entry_markets(ev).take(b as int + 1));
                }
                b = b + 1;
            }
            proof {
                let t = es.take(e as int + 1);
                assert(t.drop_last() =~= es.take(e as int));
                assert(t.last() == ev);
                assert(entry_markets(ev).take(entry.len() as int) =~= entry_markets(ev));
            }
            e = e + 1;
        }
        proof {
            assert(es.take(self.entries.len() as int) =~= es);
        }
        r
    }
}

/// Storing a marked offer and then looking up its market finds a market that holds it,
/// whenever the offer had a market to join or matches itself.
pub proof fn stored_offer_is_found(entry: Seq<BucketView>, m: MarkedView)
    requires
        find_bucket(entry, m.1) is Some || offers_match(m.1, m.1),
    ensures
        match find_bucket(entry_after_update(entry, m), m.1) {
            Some(b) => entry_after_update(entry, m)[b].market.contains(m),
            None => false,
        },
{
    lemma_find_bucket(entry, m.1);
    let after = entry_after_update(entry, m);
    match find_bucket(entry, m.1) {
        Some(b) => {
            lemma_find_stored(entry[b].market, m.0);
            assert forall|c: int| 0 <= c <= b implies #[trigger] after.take(c) == entry.take(c) || c == b by {}
            lemma_find_bucket(after, m.1);
            assert(offers_match(m.1, after[b].badge));
            match find_stored(entry[b].market, m.0) {
                Some(k) => assert(after[b].market[k] == m),
                None => assert(after[b].market.last() == m),
            }
        },
        None => {
            lemma_find_bucket(after, m.1);
            assert(after[entry.len() as int].market[0] == m);
        },
    }
}

/// Removing a marked offer right after storing it gives back the entry as it was, when
/// its bookmaker had no offer in the market it joined.
pub proof fn remove_undoes_update(entry: Seq<BucketView>, m: MarkedView)
    requires
        forall|b: int| 0 <= b < entry.len() ==> well_formed_market(#[trigger] entry[b]),
        match find_bucket(entry, m.1) {
            Some(b) => find_stored(entry[b].market, m.0) is None,
            None => offers_match(m.1, m.1),
        },
    ensures
        entry_after_remove(entry_after_update(entry, m), m) == entry,
{
    lemma_find_bucket(entry, m.1);
    let after = entry_after_update(entry, m);
    lemma_find_bucket(after, m.1);
    match find_bucket(entry, m.1) {
        Some(b) => {
            let mk = entry[b].market;
            lemma_find_stored(mk, m.0);
            let nm = mk.push(m);
            assert(well_formed_market(entry[b]));
            assert(after[b].badge == entry[b].badge);
            match find_bucket(after, m.1) {
                Some(b2) => {
                    if b2 < b {
                        assert(after[b2] == entry[b2]);
                    }
                },
                None => {},
            }
            assert(find_bucket(after, m.1) == Some(b));
            assert(nm.drop_last() =~= mk);
            assert(find_stored(nm, m.0) == Some(mk.len() as int));
            assert(nm.update(mk.len() as int, nm.last()).drop_last() =~= mk);
            assert(entry_after_remove(after, m) =~= entry);
        },
        None => {
            assert(after[entry.len() as int].market =~= seq![m]);
            assert(seq![m].drop_last() =~= Seq::<MarkedView>::empty());
            assert(find_stored(Seq::<MarkedView>::empty(), m.0) is None);
            assert(find_stored(seq![m], m.0) == Some(0int));
            assert(find_bucket(after, m.1) == Some(entry.len() as int));
            assert(after.remove(entry.len() as int) =~= entry);
        },
    }
}

} // verus!
