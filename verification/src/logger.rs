//! The history of warnings and errors shown on the status page: a short list where a
//! message repeated right after itself is counted instead of stored again.

use vstd::prelude::*;
use std::collections::VecDeque;
use crate::text::{chars_of, string_from_chars};

verus! {

/// How many messages the history keeps.
pub const HISTORY_SIZE: u32 = 20;

/// Severity of a log record.
#[derive(Debug, Clone, Copy, PartialEq, Eq, Structural)]
pub enum Level {
    Error,
    Warn,
    Info,
    Debug,
    Trace,
}

/// A message of the history: its level, the module that logged it, when (Unix seconds),
/// the text, and how many times in a row it was logged.
#[derive(Debug)]
pub struct Message {
    pub level: Level,
    pub module: String,
    pub date: u32,
    pub data: String,
    pub count: u32,
}

/// The recent warnings and errors, oldest first.
pub struct History {
    messages: VecDeque<Message>,
}

/// Whether two messages are the same text from the same module.
pub open spec fn same_text(a: Message, b: Message) -> bool {
    a.module@ == b.module@ && a.data@ == b.data@
}

impl History {
    /// The messages, oldest first.
    pub closed spec fn messages(&self) -> Seq<Message> {
        self.messages@
    }

    /// The history holds at most `HISTORY_SIZE` messages, and no message follows one with
    /// the same text and module.
    pub open spec fn well_formed(&self) -> bool {
        &&& self.messages().len() <= HISTORY_SIZE
        &&& forall|i: int| 0 < i < self.messages().len() ==> !same_text(#[trigger] self.messages()[i], self.messages()[i - 1])
    }

    /// An empty history.
    pub fn new() -> (h: History)
        ensures
            h.messages().len() == 0,
            h.well_formed(),
    {
        History { messages: VecDeque::new() }
    }
}

/// Whether two strings are equal.
fn strings_equal(a: &String, b: &String) -> (r: bool)
    ensures
        r == (a@ == b@),
{
    *a == *b
}

/// A count one higher, saturating at `u32::MAX`.
pub open spec fn bumped(count: u32) -> u32 {
    if count < u32::MAX { (count + 1) as u32 } else { u32::MAX }
}

/// The messages after recording one: a message with the text and module of the last one
/// only counts one more repetition of it; otherwise it is appended, the oldest message
/// leaving when `HISTORY_SIZE` are held.
pub open spec fn saved(msgs: Seq<Message>, m: Message) -> Seq<Message> {
    if msgs.len() > 0 && same_text(msgs.last(), m) {
        msgs.drop_last().push(Message { count: bumped(msgs.last().count), ..msgs.last() })
    } else if msgs.len() >= HISTORY_SIZE {
        msgs.drop_first().push(m)
    } else {
        msgs.push(m)
    }
}

/// Records a message (see `saved`).
pub fn save_to_history(history: &mut History, message: Message)
    requires
        old(history).well_formed(),
    ensures
        final(history).well_formed(),
        final(history).messages() == saved(old(history).messages(), message),
{
    let len = history.messages.len();
    if len > 0 {
        let last = &history.messages[len - 1];
        if strings_equal(&last.module, &message.module) && strings_equal(&last.data, &message.data) {
            let ghost old_msgs = history.messages@;
            let last = history.messages.pop_back().unwrap();
            let count = if last.count < u32::MAX { last.count + 1 } else { u32::MAX };
            history.messages.push_back(Message { count, ..last });
            proof {
                assert(history.messages@.drop_last() =~= old_msgs.drop_last());
                assert(history.messages@ =~= saved(old_msgs, message));
                let m = history.messages@;
                assert forall|i: int| 0 < i < m.len() implies !same_text(#[trigger] m[i], m[i - 1]) by {
                    if i == m.len() - 1 {
                        assert(same_text(m[i], old_msgs[i]));
                        assert(old_msgs[i - 1] == m[i - 1]);
                    } else {
                        assert(m[i] == old_msgs[i]);
                        assert(m[i - 1] == old_msgs[i - 1]);
                    }
                }
            }
            return;
        }
    }
    let ghost old_msgs = history.messages@;
    if len >= HISTORY_SIZE as usize {
        history.messages.pop_front();
    }
    let ghost mid = history.messages@;
    history.messages.push_back(message);
    proof {
        let m = history.messages@;
        if old_msgs.len() >= HISTORY_SIZE {
            assert(m =~= old_msgs.drop_first().push(message));
        } else {
            assert(m =~= old_msgs.push(message));
        }
        assert forall|i: int| 0 < i < m.len() implies !same_text(#[trigger] m[i], m[i - 1]) by {
            if i == m.len() - 1 {
                if old_msgs.len() >= HISTORY_SIZE {
                    assert(m[i - 1] == old_msgs.last());
                } else {
                    assert(m[i - 1] == old_msgs.last());
                }
            } else if old_msgs.len() >= HISTORY_SIZE {
                assert(m[i] == old_msgs[i + 1]);
                assert(m[i - 1] == old_msgs[i]);
            } else {
                assert(m[i] == old_msgs[i]);
                assert(m[i - 1] == old_msgs[i - 1]);
            }
        }
    }
}

/// The messages of a history that recorded `ms` in turn from an empty one.
pub open spec fn history_of(ms: Seq<Message>) -> Seq<Message>
    decreases ms.len(),
{
    if ms.len() == 0 {
        Seq::empty()
    } else {
        saved(history_of(ms.drop_last()), ms.last())
    }
}

/// The runs of messages with the same text and module, in order: the first message of
/// each run, and how many messages it has.
pub open spec fn runs(ms: Seq<Message>) -> Seq<(Message, nat)>
    decreases ms.len(),
{
    if ms.len() == 0 {
        Seq::empty()
    } else {
        let r = runs(ms.drop_last());
        if r.len() > 0 && same_text(r.last().0, ms.last()) {
            r.update(r.len() - 1, (r.last().0, r.last().1 + 1))
        } else {
            r.push((ms.last(), 1nat))
        }
    }
}

/// A count raised by `n`, saturating at `u32::MAX`.
pub open spec fn raised(count: u32, n: nat) -> u32 {
    if count + n <= u32::MAX { (count + n) as u32 } else { u32::MAX }
}

/// The entry of a run: its first message, counted once more for each later message.
pub open spec fn run_entry(r: (Message, nat)) -> Message {
    Message { count: raised(r.0.count, (r.1 - 1) as nat), ..r.0 }
}

/// The last `HISTORY_SIZE` runs of some messages, as entries.
pub open spec fn recent_runs(ms: Seq<Message>) -> Seq<Message> {
    let r = runs(ms);
    let k = if r.len() > HISTORY_SIZE { r.len() - HISTORY_SIZE } else { 0 };
    r.skip(k).map_values(|x: (Message, nat)| run_entry(x))
}

/// A history that recorded some messages from empty holds the last `HISTORY_SIZE` runs of
/// them, oldest first, each as its first message counted once more for each repetition
/// (saturating); so it holds at most `HISTORY_SIZE` entries, and no entry follows one
/// with the same text and module.
pub proof fn history_keeps_the_last_runs(ms: Seq<Message>)
    ensures
        history_of(ms) == recent_runs(ms),
        history_of(ms).len() <= HISTORY_SIZE,
        forall|i: int| 0 < i < history_of(ms).len() ==> !same_text(#[trigger] history_of(ms)[i], history_of(ms)[i - 1]),
    decreases ms.len(),
{
    lemma_runs_differ(ms);
    if ms.len() > 0 {
        let p = ms.drop_last();
        let m = ms.last();
        history_keeps_the_last_runs(p);
        let h = history_of(p);
        let r = runs(p);
        let r2 = runs(ms);
        let k = if r.len() > HISTORY_SIZE { r.len() - HISTORY_SIZE } else { 0 };
        let k2 = if r2.len() > HISTORY_SIZE { r2.len() - HISTORY_SIZE } else { 0 };
        assert(h.len() == r.len() - k);
        if r.len() > 0 {
            assert(h.last() == run_entry(r.last()));
            assert(same_text(h.last(), r.last().0));
        }
        if r.len() > 0 && same_text(r.last().0, m) {
            assert(k2 == k);
            let e = r.last();
            assert(run_entry((e.0, e.1 + 1)) == Message { count: bumped(h.last().count), ..h.last() });
            assert(history_of(ms) =~= recent_runs(ms));
        } else {
            assert(run_entry((m, 1nat)) == m);
            if h.len() >= HISTORY_SIZE {
                assert(k2 == k + 1);
            } else {
                assert(k2 == k);
            }
            assert(history_of(ms) =~= recent_runs(ms));
        }
    }
    let h = history_of(ms);
    let r = runs(ms);
    let k = if r.len() > HISTORY_SIZE { r.len() - HISTORY_SIZE } else { 0 };
    assert forall|i: int| 0 < i < h.len() implies !same_text(#[trigger] h[i], h[i - 1]) by {
        assert(h[i] == run_entry(r[i + k]));
        assert(h[i - 1] == run_entry(r[i - 1 + k]));
        assert(!same_text(r[i + k].0, r[i - 1 + k].0));
    }
}

/// Neighbouring runs differ in text or module.
proof fn lemma_runs_differ(ms: Seq<Message>)
    ensures
        forall|i: int| 0 < i < runs(ms).len() ==> !same_text(#[trigger] runs(ms)[i].0, runs(ms)[i - 1].0),
    decreases ms.len(),
{
    if ms.len() > 0 {
        let p = ms.drop_last();
        lemma_runs_differ(p);
        let r = runs(p);
        let r2 = runs(ms);
        assert forall|i: int| 0 < i < r2.len() implies !same_text(#[trigger] r2[i].0, r2[i - 1].0) by {
            if r.len() > 0 && same_text(r.last().0, ms.last()) {
                assert(r2[i].0 == r[i].0);
                assert(r2[i - 1].0 == r[i - 1].0);
            } else if i < r.len() {
                assert(r2[i] == r[i]);
                assert(r2[i - 1] == r[i - 1]);
            } else {
                assert(r2[i].0 == ms.last());
                assert(r2[i - 1] == r.last());
            }
        }
    }
}

/// The messages of the history, oldest first.
pub fn acquire_history(history: &History) -> (r: &VecDeque<Message>)
    ensures
        r@ == history.messages(),
{
    &history.messages
}

/// The characters after the last `::`, or all of them when there is none.
pub open spec fn last_segment(s: Seq<char>) -> Seq<char>
    decreases s.len(),
{
    if s.len() < 2 {
        s
    } else if s[s.len() - 2] == ':' && s[s.len() - 1] == ':' {
        Seq::empty()
    } else {
        last_segment(s.drop_last()).push(s.last())
    }
}

/// The module name shown for a log target: targets of this crate (`aladdin::…`) are
/// shortened to their last path segment; others are shown as they are.
pub open spec fn trimmed_target(target: Seq<char>) -> Seq<char> {
    if target.len() >= 9 && target.take(9) == "aladdin::"@ {
        last_segment(target)
    } else {
        target
    }
}

/// The module name shown for a log target (see `trimmed_target`).
pub fn trim_target(target: &str) -> (r: String)
    ensures
        r@ == trimmed_target(target@),
{
    let cs = chars_of(target);
    let prefix = chars_of("aladdin::");
    let mut starts = cs.len() >= prefix.len();
    let mut i: usize = 0;
    while starts && i < prefix.len()
        invariant
            prefix@ == "aladdin::"@,
            cs@ == target@,
            i <= prefix.len(),
            starts ==> cs.len() >= prefix.len(),
            starts ==> forall|j: int| 0 <= j < i ==> cs@[j] == prefix@[j],
            !starts ==> !(cs.len() >= prefix.len() && cs@.take(prefix.len() as int) == prefix@),
        decreases prefix.len() - i,
    {
        if cs[i] != prefix[i] {
            starts = false;
            proof {
                assert(cs@.take(prefix.len() as int)[i as int] != prefix@[i as int]);
            }
        }
        i = i + 1;
    }
    proof {
        reveal_strlit("aladdin::");
        if starts {
            assert(cs@.take(prefix.len() as int) =~= prefix@);
        }
    }
    if !starts {
        return string_from_chars(cs);
    }
    let mut seg: Vec<char> = Vec::new();
    let mut k: usize = 0;
    while k < cs.len()
        invariant
            k <= cs.len(),
            seg@ == last_segment(cs@.take(k as int)),
        decreases cs.len() - k,
    {
        proof {
            let t = cs@.take(k as int + 1);
            assert(t.drop_last() == cs@.take(k as int));
        }
        if k >= 1 && cs[k - 1] == ':' && cs[k] == ':' {
            seg = Vec::new();
        } else {
            seg.push(cs[k]);
        }
        k = k + 1;
    }
    proof {
        assert(cs@.take(cs.len() as int) == cs@);
    }
    string_from_chars(seg)
}

} // verus!
