use aladdin::currency::Currency;
use aladdin::logger::{acquire_history, save_to_history, trim_target, History, Level, Message, HISTORY_SIZE};
use aladdin::parse::{split_once_at, contains, parse_odds, parse_unsigned, split, starts_with, strip_around, trim, trim_brackets};
use aladdin::session::{after_reply, keeps_cookies, on_frame, parse_set_cookie, CookiePair, FrameAction, FrameKind, NextStep, Reply, Session, MAX_ATTEMPTS};
use aladdin::text::{char_is_whitespace, str_eq, str_to_lowercase};
use aladdin::timers::{elapsed_enough, remaining_nanos, Periodic};

#[test]
fn currency_times_odds() {
    assert_eq!(Currency(2).times_odds(2000), Currency(4));
    assert_eq!(Currency(100).times_odds(1500), Currency(150));
    assert_eq!(Currency(10).times_odds(1510), Currency(15));
    assert_eq!(Currency(10).times_odds(1580), Currency(16));
    // Halves go away from zero.
    assert_eq!(Currency(1).times_odds(500), Currency(1));
    assert_eq!(Currency(-1).times_odds(500), Currency(-1));
    assert_eq!(Currency(-10).times_odds(1510), Currency(-15));
    assert_eq!(Currency(123).times_odds(0), Currency(0));
}

#[test]
fn substrings_and_prefixes() {
    assert!(contains("{\"LinesID\": 5}", "LinesID"));
    assert!(!contains("{\"Lines\": 5}", "LinesID"));
    assert!(contains("anything", ""));
    assert!(!contains("", "a"));
    assert!(starts_with("Counter-Strike", "Counter"));
    assert!(!starts_with("Count", "Counter"));
}

#[test]
fn trimming() {
    assert_eq!(trim("  Team A \t"), "Team A");
    assert_eq!(trim("   "), "");
    assert_eq!(trim_brackets("[[Women]]"), "Women");
    assert_eq!(trim_brackets("Iksu] [Women"), "Iksu] [Women");
    assert_eq!(strip_around("/Date(1500000000000)/", "/Date(", ")/"), "1500000000000");
    assert_eq!(strip_around("abab-x-cdcd", "ab", "cd"), "-x-");
}

#[test]
fn unsigned_numbers() {
    assert_eq!(parse_unsigned("42", u64::MAX), Some(42));
    assert_eq!(parse_unsigned("+42", u64::MAX), Some(42));
    assert_eq!(parse_unsigned("007", 100), Some(7));
    assert_eq!(parse_unsigned("101", 100), None);
    assert_eq!(parse_unsigned("", 100), None);
    assert_eq!(parse_unsigned("+", 100), None);
    assert_eq!(parse_unsigned("-1", 100), None);
    assert_eq!(parse_unsigned("1a", 100), None);
    assert_eq!(parse_unsigned("18446744073709551615", u64::MAX), Some(u64::MAX));
    assert_eq!(parse_unsigned("18446744073709551616", u64::MAX), None);
}

#[test]
fn decimal_odds() {
    assert_eq!(parse_odds("1.85"), Some(1850));
    assert_eq!(parse_odds("2"), Some(2000));
    assert_eq!(parse_odds("+3.125"), Some(3125));
    assert_eq!(parse_odds("1.2345"), Some(1235));
    assert_eq!(parse_odds("1.2344"), Some(1234));
    assert_eq!(parse_odds(".5"), Some(500));
    assert_eq!(parse_odds("3."), Some(3000));
    assert_eq!(parse_odds("."), None);
    assert_eq!(parse_odds("1,5"), None);
    assert_eq!(parse_odds("abc"), None);
    assert_eq!(parse_odds("5000000"), None);
}

#[test]
fn splitting() {
    assert_eq!(split("a,b,,c", ','), vec!["a", "b", "", "c"]);
    assert_eq!(split("", ','), vec![""]);
    assert_eq!(split("abc", ','), vec!["abc"]);
}

#[test]
fn text_helpers() {
    assert!(str_eq("Draw", "Draw"));
    assert!(!str_eq("Draw", "draw"));
    assert_eq!(str_to_lowercase("TyLoo"), "tyloo");
}

fn message(module: &str, data: &str) -> Message {
    Message { level: Level::Warn, module: module.to_string(), date: 1, data: data.to_string(), count: 1 }
}

#[test]
fn history_counts_repeats_and_drops_the_oldest() {
    let mut h = History::new();
    save_to_history(&mut h, message("table", "lost"));
    save_to_history(&mut h, message("table", "lost"));
    save_to_history(&mut h, message("arbitrer", "lost"));
    let msgs = acquire_history(&h);
    assert_eq!(msgs.len(), 2);
    assert_eq!(msgs[0].count, 2);
    assert_eq!(msgs[1].count, 1);
    for i in 0..HISTORY_SIZE {
        save_to_history(&mut h, message("m", &i.to_string()));
    }
    let msgs = acquire_history(&h);
    assert_eq!(msgs.len(), HISTORY_SIZE as usize);
    assert_eq!(msgs[0].data, "0");
    assert_eq!(msgs[msgs.len() - 1].data, (HISTORY_SIZE - 1).to_string());
}

#[test]
fn history_holds_runs_with_their_lengths() {
    let mut h = History::new();
    for (module, data) in [("a", "x"), ("a", "x"), ("b", "x"), ("a", "x"), ("a", "x"), ("a", "x")] {
        save_to_history(&mut h, message(module, data));
    }
    let msgs = acquire_history(&h);
    let seen: Vec<(&str, u32)> = msgs.iter().map(|m| (m.module.as_str(), m.count)).collect();
    assert_eq!(seen, vec![("a", 2), ("b", 1), ("a", 3)]);
}

#[test]
fn log_targets_are_shortened() {
    assert_eq!(trim_target("aladdin::gamblers::vitalbet"), "vitalbet");
    assert_eq!(trim_target("aladdin::table"), "table");
    assert_eq!(trim_target("hyper::client"), "hyper::client");
    assert_eq!(trim_target("aladdin"), "aladdin");
}

#[test]
fn timer_arithmetic() {
    assert!(elapsed_enough(5, 5));
    assert!(!elapsed_enough(4, 5));
    assert_eq!(remaining_nanos(5, 5_000_000_000, 5), 0);
    assert_eq!(remaining_nanos(1, 1_500_000_000, 5), 3_500_000_000);
}

#[test]
fn new_timer_fires_at_once_then_waits() {
    let mut p = Periodic::new(3600);
    assert!(p.next_if_elapsed());
    assert!(!p.next_if_elapsed());
    let mut q = Periodic::new(3600);
    assert_eq!(q.time_to_wait(), 0);
    assert!(q.time_to_wait() > 0);
}

fn cookie(name: &str, value: &str, max_age: Option<u64>, expires: Option<i64>) -> CookiePair {
    CookiePair { name: name.to_string(), value: value.to_string(), domain: None, expires, max_age }
}

#[test]
fn cookies_are_replaced_and_expire() {
    let mut s = Session::new("example.com");
    assert_eq!(s.host(), "example.com");
    assert_eq!(s.request_url("/api/x"), "https://example.com/api/x");
    s.set_cookies_at(&vec![cookie("sid", "1", None, None), cookie("tmp", "x", Some(10), None)], 100);
    assert_eq!(s.get_cookie("sid").as_deref(), Some("1"));
    s.set_cookies_at(&vec![cookie("sid", "2", None, None)], 100);
    assert_eq!(s.get_cookie("sid").as_deref(), Some("2"));
    // The cookie with a maximal age of 10 expires at 110.
    s.actualize_cookies_at(109);
    assert_eq!(s.get_cookie("tmp").as_deref(), Some("x"));
    s.actualize_cookies_at(110);
    assert_eq!(s.get_cookie("tmp"), None);
    assert_eq!(s.get_cookie("sid").as_deref(), Some("2"));
}

#[test]
fn replies_are_retried_a_bounded_number_of_times() {
    // Tries left after the first send.
    let mut left = MAX_ATTEMPTS - 1;
    let mut sends = 1;
    while after_reply(left, Reply::Lost, false) == NextStep::Retry {
        left -= 1;
        sends += 1;
    }
    assert_eq!(sends, MAX_ATTEMPTS);
    assert_eq!(after_reply(0, Reply::Lost, false), NextStep::Lost);
    assert_eq!(after_reply(2, Reply::Status(503), false), NextStep::Retry);
    assert_eq!(after_reply(0, Reply::Status(503), false), NextStep::Refused(503));
    assert_eq!(after_reply(2, Reply::Status(302), false), NextStep::Redirected);
    assert_eq!(after_reply(2, Reply::Status(302), true), NextStep::Read);
    assert_eq!(after_reply(2, Reply::Status(404), true), NextStep::Refused(404));
    assert_eq!(after_reply(2, Reply::Status(200), false), NextStep::Read);
    assert!(keeps_cookies(200) && keeps_cookies(302));
    assert!(!keeps_cookies(404) && !keeps_cookies(500));
}

#[test]
fn websocket_frames() {
    assert_eq!(on_frame(FrameKind::Close), FrameAction::AnswerClose);
    assert_eq!(on_frame(FrameKind::Ping), FrameAction::AnswerPong);
    assert_eq!(on_frame(FrameKind::Text), FrameAction::Read);
    assert_eq!(on_frame(FrameKind::Pong), FrameAction::Read);
}

#[test]
fn set_cookie_headers() {
    let c = parse_set_cookie("sid=abc; Path=/; Domain=.example.com; Max-Age=60; HttpOnly").unwrap();
    assert_eq!((c.name.as_str(), c.value.as_str()), ("sid", "abc"));
    assert_eq!(c.domain.as_deref(), Some(".example.com"));
    assert_eq!(c.max_age, Some(60));
    assert_eq!(c.expires, None);
    let c = parse_set_cookie(" a = b ; expires=Wed, 21 Oct 2015 07:28:00 GMT").unwrap();
    assert_eq!((c.name.as_str(), c.value.as_str()), ("a", "b"));
    assert_eq!(c.expires, Some(1_445_412_480));
    let c = parse_set_cookie("x=; MAX-AGE=oops").unwrap();
    assert_eq!(c.value, "");
    assert_eq!(c.max_age, None);
    assert!(parse_set_cookie("novalue").is_none());
    assert!(parse_set_cookie("=v").is_none());
}

#[test]
fn cookie_line_lists_the_jar() {
    let mut s = Session::new("example.com");
    assert_eq!(s.cookie_line(), "");
    s.set_cookies_at(&vec![cookie("a", "1", None, None), cookie("b", "2", None, None)], 0);
    assert_eq!(s.cookie_line(), "a=1; b=2");
}

#[test]
fn split_once_at_the_first_separator() {
    assert_eq!(split_once_at("a=b=c", '='), Some(("a".to_string(), "b=c".to_string())));
    assert_eq!(split_once_at("abc", '='), None);
    assert_eq!(split_once_at("=", '='), Some((String::new(), String::new())));
}

#[test]
fn white_space_is_the_unicode_list() {
    for c in (0u32..=0x10FFFF).filter_map(char::from_u32) {
        assert_eq!(char_is_whitespace(c), c.is_whitespace(), "{:?}", c);
    }
    assert!(str_eq("", ""));
    assert!(!str_eq("ab", "abc"));
    assert!(str_eq("Navi", "Navi"));
}
