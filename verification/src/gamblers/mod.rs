//! What the bookmakers' sites report, and the site-specific rules that turn it into
//! offers.

use vstd::prelude::*;
use crate::markets::{Offer, OfferView, OID};

pub mod xsporta;
pub mod egamingbets;
pub mod cybbet;
pub mod betway;
pub mod vitalbet;
pub mod betclub;

verus! {

/// A change reported while watching a bookmaker: an offer is new or changed, or an
/// offer is gone.
#[derive(Debug)]
pub enum Message {
    Upsert(Offer),
    Remove(OID),
}

/// A reported change in plain values.
pub enum MessageView {
    Upsert(OfferView),
    Remove(OID),
}

impl View for Message {
    type V = MessageView;

    open spec fn view(&self) -> MessageView {
        match self {
            Message::Upsert(o) => MessageView::Upsert(o@),
            Message::Remove(oid) => MessageView::Remove(*oid),
        }
    }
}

/// The seconds since the epoch of the time `text` writes in `format`, as `time::strptime`
/// reads it and `Tm::to_timespec` counts it; none when it does not read.
pub uninterp spec fn strptime_seconds(text: Seq<char>, format: Seq<char>) -> Option<i64>;

/// The formats the sites write times in: `%Y-%m-%dT%H:%M:%SZ` and `%Y-%m-%dT%H:%M:%S`,
/// and `%a, %d %b %Y %H:%M:%S GMT` for the expiry of cookies.
pub open spec fn site_time_format(format: Seq<char>) -> bool {
    format == "%Y-%m-%dT%H:%M:%SZ"@ || format == "%Y-%m-%dT%H:%M:%S"@ || format == "%a, %d %b %Y %H:%M:%S GMT"@
}

/// Calls `time::strptime`, then `Tm::to_timespec` on what it read. Claims that the
/// seconds are `strptime_seconds` of the text and the format: these formats set no
/// offset, so `to_timespec` counts the time as UTC (`timegm`), from the text alone.
#[verifier::external_body]
pub fn parse_time(text: &str, format: &str) -> (r: Option<i64>)
    requires
        site_time_format(format@),
    ensures
        r == strptime_seconds(text@, format@),
{
    match time::strptime(text, format) {
        Ok(tm) => Some(tm.to_timespec().sec),
        Err(_) => None,
    }
}

/// The views of some messages.
pub open spec fn message_views(ms: Seq<Message>) -> Seq<MessageView> {
    ms.map_values(|m: Message| m@)
}

/// The offers reported and not reported gone since, after some reports.
pub open spec fn live_after(ms: Seq<MessageView>) -> Set<OID>
    decreases ms.len(),
{
    if ms.len() == 0 {
        Set::empty()
    } else {
        let live = live_after(ms.drop_last());
        match ms.last() {
            MessageView::Upsert(o) => live.insert(o.oid),
            MessageView::Remove(oid) => live.remove(oid),
        }
    }
}

/// Whether every report of an offer gone comes after a report of that offer, with no
/// report of it gone in between.
pub open spec fn removals_follow_upserts(ms: Seq<MessageView>) -> bool
    decreases ms.len(),
{
    if ms.len() == 0 {
        true
    } else {
        &&& removals_follow_upserts(ms.drop_last())
        &&& (ms.last() matches MessageView::Remove(oid) ==> live_after(ms.drop_last()).contains(oid))
    }
}

/// The reports of some steps, in order.
pub open spec fn reports_of(batches: Seq<Seq<MessageView>>) -> Seq<MessageView>
    decreases batches.len(),
{
    if batches.len() == 0 {
        Seq::empty()
    } else {
        reports_of(batches.drop_last()) + batches.last()
    }
}

} // verus!
