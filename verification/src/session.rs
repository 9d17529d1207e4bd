//! Sessions with the bookmakers' sites: the host, the cookies the site set, and how
//! request bodies are encoded.

use vstd::prelude::*;
use vstd::string::StringExecFns;
use crate::gamblers::{parse_time, strptime_seconds};
use crate::parse::{split, split_on, split_once, split_once_at, string_views, trim, trimmed, unsigned_value, parse_unsigned, lemma_split_nonempty};
use crate::text::{str_eq, str_lowercase, str_to_lowercase};

verus! {

/// How a request body is encoded.
#[derive(Debug, Clone, Copy, PartialEq, Eq, Structural)]
pub enum Type {
    Json,
    Form,
}

/// A cookie set by a site: name, value, domain, expiry (Unix seconds) and maximal age
/// (seconds).
#[derive(Debug)]
pub struct CookiePair {
    pub name: String,
    pub value: String,
    pub domain: Option<String>,
    pub expires: Option<i64>,
    pub max_age: Option<u64>,
}

/// What a cookie is, in plain values.
pub struct CookieView {
    pub name: Seq<char>,
    pub value: Seq<char>,
    pub domain: Option<Seq<char>>,
    pub expires: Option<i64>,
    pub max_age: Option<u64>,
}

impl View for CookiePair {
    type V = CookieView;

    open spec fn view(&self) -> CookieView {
        CookieView {
            name: self.name@,
            value: self.value@,
            domain: match self.domain {
                Some(d) => Some(d@),
                None => None,
            },
            expires: self.expires,
            max_age: self.max_age,
        }
    }
}

/// The moment `max_age` seconds after `now`, and the latest moment when that is later.
pub open spec fn expiry_after(now: i64, max_age: u64) -> i64 {
    if now + max_age <= i64::MAX {
        (now + max_age) as i64
    } else {
        i64::MAX
    }
}

/// A cookie as it is kept: one with a maximal age but no expiry expires that many
/// seconds after `now`.
pub open spec fn kept_cookie(c: CookieView, now: i64) -> CookieView {
    match (c.max_age, c.expires) {
        (Some(age), None) => CookieView { expires: Some(expiry_after(now, age)), ..c },
        _ => c,
    }
}

/// The first cookie of the jar with the name and domain of `c`, if any.
pub open spec fn same_cookie_index(jar: Seq<CookieView>, c: CookieView) -> Option<int>
    decreases jar.len(),
{
    if jar.len() == 0 {
        None
    } else {
        match same_cookie_index(jar.drop_last(), c) {
            Some(i) => Some(i),
            None => if jar.last().name == c.name && jar.last().domain == c.domain {
                Some(jar.len() - 1)
            } else {
                None
            },
        }
    }
}

/// A jar after storing a cookie: it replaces the first cookie with its name and domain,
/// or is added at the end.
pub open spec fn store_cookie(jar: Seq<CookieView>, c: CookieView, now: i64) -> Seq<CookieView> {
    match same_cookie_index(jar, c) {
        Some(i) => jar.update(i, kept_cookie(c, now)),
        None => jar.push(kept_cookie(c, now)),
    }
}

/// A jar after storing some cookies in order.
pub open spec fn store_cookies(jar: Seq<CookieView>, cs: Seq<CookieView>, now: i64) -> Seq<CookieView>
    decreases cs.len(),
{
    if cs.len() == 0 {
        jar
    } else {
        store_cookie(store_cookies(jar, cs.drop_last(), now), cs.last(), now)
    }
}

/// The cookies of a jar that are still alive at `now`: no expiry, or an expiry later
/// than `now`.
pub open spec fn alive_cookies(jar: Seq<CookieView>, now: i64) -> Seq<CookieView>
    decreases jar.len(),
{
    if jar.len() == 0 {
        jar
    } else {
        let rest = alive_cookies(jar.drop_last(), now);
        match jar.last().expires {
            Some(e) => if e > now {
                rest.push(jar.last())
            } else {
                rest
            },
            None => rest.push(jar.last()),
        }
    }
}

/// A cookie found in a prefix of the jar is the first one in the whole jar.
proof fn lemma_same_cookie_prefix(jar: Seq<CookieView>, c: CookieView, n: int)
    requires
        0 <= n <= jar.len(),
        same_cookie_index(jar.take(n), c) is Some,
    ensures
        same_cookie_index(jar, c) == same_cookie_index(jar.take(n), c),
    decreases jar.len() - n,
{
    if n < jar.len() {
        let t = jar.take(n + 1);
        assert(t.drop_last() == jar.take(n));
        lemma_same_cookie_prefix(jar, c, n + 1);
    } else {
        assert(jar.take(n) == jar);
    }
}

/// The current time (Unix seconds) from `time::get_time`; nothing is promised of it.
#[verifier::external_body]
fn current_time() -> i64 {
    time::get_time().sec
}

/// Whether two strings are equal.
fn same_string(a: &String, b: &String) -> (r: bool)
    ensures
        r == (a@ == b@),
{
    *a == *b
}

/// Whether two optional strings are equal.
fn same_domain(a: &Option<String>, b: &Option<String>) -> (r: bool)
    ensures
        r == (match a {
            Some(x) => Some(x@),
            None => None::<Seq<char>>,
        } == match b {
            Some(x) => Some(x@),
            None => None::<Seq<char>>,
        }),
{
    match (a, b) {
        (Some(x), Some(y)) => same_string(x, y),
        (None, None) => true,
        _ => false,
    }
}

/// A copy of a cookie.
fn copy_cookie(c: &CookiePair) -> (r: CookiePair)
    ensures
        r@ == c@,
{
    CookiePair {
        name: c.name.clone(),
        value: c.value.clone(),
        domain: match &c.domain {
            Some(d) => Some(d.clone()),
            None => None,
        },
        expires: c.expires,
        max_age: c.max_age,
    }
}

/// The views of some cookies.
pub open spec fn cookie_views(cs: Seq<CookiePair>) -> Seq<CookieView> {
    cs.map_values(|c: CookiePair| c@)
}

/// A session with a site: its host and the cookies it set.
pub struct Session {
    host: String,
    cookies: Vec<CookiePair>,
}

impl Session {
    /// The host of the site.
    pub closed spec fn host_spec(&self) -> Seq<char> {
        self.host@
    }

    /// The cookies, in the order they were first set.
    pub closed spec fn cookies(&self) -> Seq<CookieView> {
        cookie_views(self.cookies@)
    }

    /// A session with a site and no cookies.
    pub fn new(host: &str) -> (s: Session)
        ensures
            s.host_spec() == host@,
            s.cookies() == Seq::<CookieView>::empty(),
    {
        let s = Session { host: host.to_string(), cookies: Vec::new() };
        proof {
            assert(s.cookies() =~= Seq::<CookieView>::empty());
        }
        s
    }

    /// The host of the site.
    pub fn host(&self) -> (h: &String)
        ensures
            h@ == self.host_spec(),
    {
        &self.host
    }

    /// The value of the first cookie with the name, if any.
    pub fn get_cookie(&self, cookie_name: &str) -> (r: Option<String>)
        ensures
            match r {
                Some(v) => exists|i: int| 0 <= i < self.cookies().len() && self.cookies()[i].name == cookie_name@
                    && self.cookies()[i].value == v@
                    && forall|k: int| 0 <= k < i ==> #[trigger] self.cookies()[k].name != cookie_name@,
                None => forall|i: int| 0 <= i < self.cookies().len() ==> #[trigger] self.cookies()[i].name != cookie_name@,
            },
    {
        let ghost jar = self.cookies();
        let name = cookie_name.to_string();
        let mut i: usize = 0;
        while i < self.cookies.len()
            invariant
                i <= self.cookies.len(),
                jar == cookie_views(self.cookies@),
                name@ == cookie_name@,
                forall|k: int| 0 <= k < i ==> #[trigger] jar[k].name != cookie_name@,
            decreases self.cookies.len() - i,
        {
            proof {
                assert(jar[i as int] == self.cookies@[i as int]@);
            }
            if same_string(&self.cookies[i].name, &name) {
                return Some(self.cookies[i].value.clone());
            }
            i = i + 1;
        }
        None
    }

    /// The position of the first cookie with the name and domain of `c`.
    fn find_cookie(&self, c: &CookiePair) -> (r: Option<usize>)
        ensures
            match same_cookie_index(self.cookies(), c@) {
                Some(i) => r == Some(i as usize) && 0 <= i < self.cookies().len(),
                None => r is None,
            },
    {
        let ghost jar = self.cookies();
        let mut i: usize = 0;
        while i < self.cookies.len()
            invariant
                i <= self.cookies.len(),
                jar == cookie_views(self.cookies@),
                same_cookie_index(jar.take(i as int), c@) is None,
            decreases self.cookies.len() - i,
        {
            proof {
                let t = jar.take(i as int + 1);
                assert(t.drop_last() == jar.take(i as int));
                assert(t.last() == self.cookies@[i as int]@);
            }
            if same_string(&self.cookies[i].name, &c.name) && same_domain(&self.cookies[i].domain, &c.domain) {
                proof {
                    lemma_same_cookie_prefix(jar, c@, i as int + 1);
                }
                return Some(i);
            }
            i = i + 1;
        }
        proof {
            assert(jar.take(self.cookies.len() as int) == jar);
        }
        None
    }

    /// Stores cookies that the site set, at time `now` (see `store_cookies`).
    pub fn set_cookies_at(&mut self, cookies: &Vec<CookiePair>, now: i64)
        ensures
            final(self).cookies() == store_cookies(old(self).cookies(), cookie_views(cookies@), now),
            final(self).host_spec() == old(self).host_spec(),
    {
        let ghost cs = cookie_views(cookies@);
        let mut n: usize = 0;
        while n < cookies.len()
            invariant
                n <= cookies.len(),
                cs == cookie_views(cookies@),
                self.cookies() == store_cookies(old(self).cookies(), cs.take(n as int), now),
                self.host_spec() == old(self).host_spec(),
            decreases cookies.len() - n,
        {
            let c = &cookies[n];
            proof {
                let t = cs.take(n as int + 1);
                assert(t.drop_last() == cs.take(n as int));
                assert(t.last() == c@);
            }
            let mut cookie = copy_cookie(c);
            match (cookie.max_age, cookie.expires) {
                (Some(age), None) => {
                    let sum = now as i128 + age as i128;
                    let expiry = if sum <= i64::MAX as i128 {
                        sum as i64
                    } else {
                        i64::MAX
                    };
                    cookie.expires = Some(expiry);
                },
                _ => {},
            }
            let ghost jar = self.cookies();
            let ghost kept = kept_cookie(c@, now);
            proof {
                assert(cookie@ == kept);
            }
            proof {
                let t = cs.take(n as int + 1);
                assert(store_cookies(old(self).cookies(), t, now) == store_cookie(jar, c@, now));
            }
            match self.find_cookie(c) {
                Some(i) => {
                    self.cookies.set(i, cookie);
                    proof {
                        assert(self.cookies() =~= jar.update(i as int, kept));
                        assert(store_cookie(jar, c@, now) == jar.update(i as int, kept));
                    }
                },
                None => {
                    self.cookies.push(cookie);
                    proof {
                        assert(self.cookies() =~= jar.push(kept));
                        assert(store_cookie(jar, c@, now) == jar.push(kept));
                    }
                },
            }
            n = n + 1;
        }
        proof {
            assert(cs.take(cookies.len() as int) == cs);
        }
    }

    /// Stores cookies that the site set, now (see `store_cookies`).
    pub fn set_cookies(&mut self, cookies: &Vec<CookiePair>)
        ensures
            exists|now: i64| final(self).cookies() == store_cookies(old(self).cookies(), cookie_views(cookies@), now),
            final(self).host_spec() == old(self).host_spec(),
    {
        let now = current_time();
        self.set_cookies_at(cookies, now);
    }

    /// Drops the cookies that expired by `now` (see `alive_cookies`).
    pub fn actualize_cookies_at(&mut self, now: i64)
        ensures
            final(self).cookies() == alive_cookies(old(self).cookies(), now),
            final(self).host_spec() == old(self).host_spec(),
    {
        let ghost jar = self.cookies();
        let mut old_cookies: Vec<CookiePair> = Vec::new();
        std::mem::swap(&mut old_cookies, &mut self.cookies);
        let mut i: usize = 0;
        proof {
            assert(self.cookies() =~= alive_cookies(jar.take(0), now));
        }
        while i < old_cookies.len()
            invariant
                i <= old_cookies.len(),
                jar == cookie_views(old_cookies@),
                self.cookies() == alive_cookies(jar.take(i as int), now),
                self.host_spec() == old(self).host_spec(),
            decreases old_cookies.len() - i,
        {
            let c = &old_cookies[i];
            proof {
                let t = jar.take(i as int + 1);
                assert(t.drop_last() == jar.take(i as int));
                assert(t.last() == c@);
            }
            let alive = match c.expires {
                Some(e) => e > now,
                None => true,
            };
            if alive {
                let ghost before = self.cookies();
                self.cookies.push(copy_cookie(c));
                proof {
                    assert(self.cookies() =~= before.push(c@));
                }
            }
            i = i + 1;
        }
        proof {
            assert(jar.take(old_cookies.len() as int) == jar);
        }
    }

    /// Drops the cookies that expired by now (see `alive_cookies`).
    pub fn actualize_cookies(&mut self)
        ensures
            exists|now: i64| final(self).cookies() == alive_cookies(old(self).cookies(), now),
            final(self).host_spec() == old(self).host_spec(),
    {
        let now = current_time();
        self.actualize_cookies_at(now);
    }

    /// The address of a path on the site: `https://`, the host, then the path.
    pub fn request_url(&self, path: &str) -> (url: String)
        ensures
            url@ == "https://"@ + self.host_spec() + path@,
    {
        let mut url = String::from_str("https://");
        url.append(self.host.as_str());
        url.append(path);
        url
    }
}

/// How many times a request is sent at most.
pub const MAX_ATTEMPTS: u32 = 3;

/// What came of sending a request: the connection failed, or the site answered with a
/// status code.
#[derive(Debug, Clone, Copy, PartialEq, Eq, Structural)]
pub enum Reply {
    Lost,
    Status(u16),
}

/// What to do with a reply: send again, read the answer, or give up because the
/// connection failed, the site redirected without a redirect being followed, or it
/// refused with a status code.
#[derive(Debug, Clone, Copy, PartialEq, Eq, Structural)]
pub enum NextStep {
    Retry,
    Read,
    Lost,
    Redirected,
    Refused(u16),
}

/// Whether a status code tells success (2xx).
pub open spec fn is_success(status: u16) -> bool {
    200 <= status < 300
}

/// Whether a status code is a redirection (3xx).
pub open spec fn is_redirection(status: u16) -> bool {
    300 <= status < 400
}

/// Whether a status code is a server error (5xx).
pub open spec fn is_server_error(status: u16) -> bool {
    500 <= status < 600
}

/// What follows a reply when `tries_left` more sends are allowed: a lost connection or
/// a server error is tried again while sends are left; a redirection is read only when
/// redirects are followed; other failures are given up.
pub open spec fn next_step(tries_left: u32, reply: Reply, follow_redirects: bool) -> NextStep {
    match reply {
        Reply::Lost => if tries_left > 0 { NextStep::Retry } else { NextStep::Lost },
        Reply::Status(s) => if tries_left > 0 && is_server_error(s) {
            NextStep::Retry
        } else if is_redirection(s) {
            if follow_redirects { NextStep::Read } else { NextStep::Redirected }
        } else if !is_success(s) {
            NextStep::Refused(s)
        } else {
            NextStep::Read
        },
    }
}

/// What to do with a reply (see `next_step`). A request starts with `MAX_ATTEMPTS - 1`
/// more sends allowed after the first, one fewer after each retry.
pub fn after_reply(tries_left: u32, reply: Reply, follow_redirects: bool) -> (n: NextStep)
    ensures
        n == next_step(tries_left, reply, follow_redirects),
{
    match reply {
        Reply::Lost => if tries_left > 0 { NextStep::Retry } else { NextStep::Lost },
        Reply::Status(s) => if tries_left > 0 && 500 <= s && s < 600 {
            NextStep::Retry
        } else if 300 <= s && s < 400 {
            if follow_redirects { NextStep::Read } else { NextStep::Redirected }
        } else if !(200 <= s && s < 300) {
            NextStep::Refused(s)
        } else {
            NextStep::Read
        },
    }
}

/// Whether the cookies a reply sets are kept: only from a success or a redirection.
pub fn keeps_cookies(status: u16) -> (r: bool)
    ensures
        r == (is_success(status) || is_redirection(status)),
{
    200 <= status && status < 400
}

/// How many times a request is sent when the site gives `replies` in turn, with
/// `tries_left` more sends allowed after the first.
pub open spec fn sends(tries_left: u32, replies: Seq<Reply>, follow_redirects: bool) -> nat
    decreases replies.len(),
{
    if replies.len() == 0 {
        0
    } else if next_step(tries_left, replies[0], follow_redirects) == NextStep::Retry {
        1 + sends((tries_left - 1) as u32, replies.drop_first(), follow_redirects)
    } else {
        1
    }
}

/// A request is sent at most `MAX_ATTEMPTS` times, whatever the site replies.
pub proof fn requests_are_sent_at_most_max_attempts(replies: Seq<Reply>, follow_redirects: bool)
    ensures
        sends((MAX_ATTEMPTS - 1) as u32, replies, follow_redirects) <= MAX_ATTEMPTS,
{
    lemma_sends_bounded((MAX_ATTEMPTS - 1) as u32, replies, follow_redirects);
}

proof fn lemma_sends_bounded(tries_left: u32, replies: Seq<Reply>, follow_redirects: bool)
    ensures
        sends(tries_left, replies, follow_redirects) <= tries_left + 1,
    decreases replies.len(),
{
    if replies.len() > 0 && next_step(tries_left, replies[0], follow_redirects) == NextStep::Retry {
        lemma_sends_bounded((tries_left - 1) as u32, replies.drop_first(), follow_redirects);
    }
}

/// What to do with a frame of a websocket: answer a close with a close and a ping with
/// a pong, and read any other frame.
#[derive(Debug, Clone, Copy, PartialEq, Eq, Structural)]
pub enum FrameKind {
    Text,
    Binary,
    Close,
    Ping,
    Pong,
}

/// What a websocket reader does with a frame.
#[derive(Debug, Clone, Copy, PartialEq, Eq, Structural)]
pub enum FrameAction {
    AnswerClose,
    AnswerPong,
    Read,
}

/// What a websocket reader does with a frame of some kind.
pub open spec fn frame_action(kind: FrameKind) -> FrameAction {
    match kind {
        FrameKind::Close => FrameAction::AnswerClose,
        FrameKind::Ping => FrameAction::AnswerPong,
        _ => FrameAction::Read,
    }
}

/// What a websocket reader does with a frame (see `frame_action`).
pub fn on_frame(kind: FrameKind) -> (a: FrameAction)
    ensures
        a == frame_action(kind),
{
    match kind {
        FrameKind::Close => FrameAction::AnswerClose,
        FrameKind::Ping => FrameAction::AnswerPong,
        _ => FrameAction::Read,
    }
}

/// How cookies write their expiry: `Wed, 21 Oct 2015 07:28:00 GMT`.
pub const COOKIE_DATE_FORMAT: &'static str = "%a, %d %b %Y %H:%M:%S GMT";

/// An attribute of a cookie: its name in lower case and its value, both trimmed; an
/// attribute without `=` has an empty value.
pub open spec fn cookie_attribute(piece: Seq<char>) -> (Seq<char>, Seq<char>) {
    match split_once(piece, '=') {
        Some((k, v)) => (str_lowercase(trimmed(k)), trimmed(v)),
        None => (str_lowercase(trimmed(piece)), Seq::empty()),
    }
}

/// A cookie with an attribute: `domain`, `max-age` (a number of seconds) and `expires`
/// (a date) are taken when they read; other attributes are ignored.
pub open spec fn with_attribute(c: CookieView, a: (Seq<char>, Seq<char>)) -> CookieView {
    if a.0 == "domain"@ {
        CookieView { domain: Some(a.1), ..c }
    } else if a.0 == "max-age"@ {
        match unsigned_value(a.1) {
            Some(v) => if v <= u64::MAX { CookieView { max_age: Some(v as u64), ..c } } else { c },
            None => c,
        }
    } else if a.0 == "expires"@ {
        match strptime_seconds(a.1, COOKIE_DATE_FORMAT@) {
            Some(t) => CookieView { expires: Some(t), ..c },
            None => c,
        }
    } else {
        c
    }
}

/// A cookie with some attributes, in order (a later one wins).
pub open spec fn with_attributes(c: CookieView, pieces: Seq<Seq<char>>) -> CookieView
    decreases pieces.len(),
{
    if pieces.len() == 0 {
        c
    } else {
        with_attribute(with_attributes(c, pieces.drop_last()), cookie_attribute(pieces.last()))
    }
}

/// The cookie a `Set-Cookie` header sets: `name=value`, then attributes after `;`. None
/// when the first piece has no `=` or an empty name.
pub open spec fn set_cookie(header: Seq<char>) -> Option<CookieView> {
    let pieces = split_on(header, ';');
    match split_once(pieces[0], '=') {
        None => None,
        Some((n, v)) => if trimmed(n).len() == 0 {
            None
        } else {
            Some(with_attributes(
                CookieView { name: trimmed(n), value: trimmed(v), domain: None, expires: None, max_age: None },
                pieces.skip(1),
            ))
        },
    }
}

/// Takes an attribute into a cookie (see `with_attribute`).
fn add_attribute(c: &mut CookiePair, piece: &str)
    ensures
        final(c)@ == with_attribute(old(c)@, cookie_attribute(piece@)),
{
    let (key, value) = match split_once_at(piece, '=') {
        Some((k, v)) => (str_to_lowercase(trim(k.as_str()).as_str()), trim(v.as_str())),
        None => (str_to_lowercase(trim(piece).as_str()), String::new()),
    };
    proof {
        reveal_strlit("domain");
        reveal_strlit("max-age");
        reveal_strlit("expires");
    }
    if str_eq(key.as_str(), "domain") {
        c.domain = Some(value);
    } else if str_eq(key.as_str(), "max-age") {
        match parse_unsigned(value.as_str(), u64::MAX) {
            Some(v) => {
                c.max_age = Some(v);
            },
            None => {},
        }
    } else if str_eq(key.as_str(), "expires") {
        match parse_time(value.as_str(), COOKIE_DATE_FORMAT) {
            Some(t) => {
                c.expires = Some(t);
            },
            None => {},
        }
    }
}

/// Reads a `Set-Cookie` header (see `set_cookie`).
pub fn parse_set_cookie(header: &str) -> (r: Option<CookiePair>)
    ensures
        match set_cookie(header@) {
            Some(v) => r matches Some(c) && c@ == v,
            None => r is None,
        },
{
    let pieces = split(header, ';');
    let ghost ps = split_on(header@, ';');
    proof {
        lemma_split_nonempty(header@, ';');
        assert(pieces@[0]@ == ps[0]);
    }
    let (name, value) = match split_once_at(pieces[0].as_str(), '=') {
        Some((n, v)) => (trim(n.as_str()), trim(v.as_str())),
        None => {
            return None;
        },
    };
    proof {
        reveal_strlit("");
        let (n, v) = split_once(ps[0], '=')->0;
        assert(name@ == trimmed(n));
    }
    if str_eq(name.as_str(), "") {
        return None;
    }
    proof {
        assert(""@ =~= Seq::<char>::empty());
        if name@.len() == 0 {
            assert(name@ =~= ""@);
        }
    }
    let mut c = CookiePair { name, value, domain: None, expires: None, max_age: None };
    let ghost start = c@;
    let mut i: usize = 1;
    proof {
        assert(ps.skip(1).take(0) =~= Seq::<Seq<char>>::empty());
        let (n, v) = split_once(ps[0], '=')->0;
        assert(trimmed(n).len() != 0);
        assert(start == CookieView { name: trimmed(n), value: trimmed(v), domain: None, expires: None, max_age: None });
    }
    while i < pieces.len()
        invariant
            1 <= i <= pieces@.len(),
            set_cookie(header@) == Some(with_attributes(start, ps.skip(1))),
            string_views(pieces@) == ps,
            c@ == with_attributes(start, ps.skip(1).take(i - 1)),
        decreases pieces@.len() - i,
    {
        let ghost before = c@;
        add_attribute(&mut c, pieces[i].as_str());
        proof {
            let t = ps.skip(1).take(i as int);
            assert(t.drop_last() =~= ps.skip(1).take(i - 1));
            assert(t.last() == ps[i as int]);
            assert(pieces@[i as int]@ == ps[i as int]);
        }
        i = i + 1;
    }
    proof {
        assert(ps.skip(1).take(i - 1) =~= ps.skip(1));
    }
    Some(c)
}

/// The `Cookie` header of some cookies: `name=value` pairs joined by `; `.
pub open spec fn cookie_header(jar: Seq<CookieView>) -> Seq<char>
    decreases jar.len(),
{
    if jar.len() == 0 {
        Seq::empty()
    } else if jar.len() == 1 {
        jar[0].name + "="@ + jar[0].value
    } else {
        cookie_header(jar.drop_last()) + "; "@ + jar.last().name + "="@ + jar.last().value
    }
}

impl Session {
    /// The `Cookie` header to send (see `cookie_header`).
    pub fn cookie_line(&self) -> (r: String)
        ensures
            r@ == cookie_header(self.cookies()),
    {
        let ghost jar = self.cookies();
        let mut line = String::new();
        let mut i: usize = 0;
        proof {
            assert(jar.take(0) =~= Seq::<CookieView>::empty());
            reveal_strlit("=");
            reveal_strlit("; ");
        }
        while i < self.cookies.len()
            invariant
                i <= self.cookies@.len(),
                jar == self.cookies(),
                jar.len() == self.cookies@.len(),
                line@ == cookie_header(jar.take(i as int)),
            decreases self.cookies@.len() - i,
        {
            let c = &self.cookies[i];
            proof {
                assert(jar[i as int] == c@);
                let t = jar.take(i + 1);
                assert(t.drop_last() =~= jar.take(i as int));
                assert(t.last() == c@);
            }
            if i > 0 {
                line.append("; ");
            }
            line.append(c.name.as_str());
            line.append("=");
            line.append(c.value.as_str());
            proof {
                if i == 0 {
                    assert(jar.take(1)[0] == c@);
                }
            }
            i = i + 1;
        }
        proof {
            assert(jar.take(self.cookies@.len() as int) =~= jar);
        }
        line
    }
}

} // verus!
