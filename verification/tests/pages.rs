use aladdin::gamblers::betway;
use aladdin::gamblers::cybbet;
use aladdin::gamblers::egamingbets;
use aladdin::gamblers::xsporta;
use aladdin::html::{first_attribute, select};

const ROWS: &str = r#"<html><body><table>
<tr class="noResult" data-game-id="77" data-game-start="1500000000">
  <td><i class="img_game_sprite dota2"></i></td>
  <td class="team-name-first"><span class="team-name-text">Liquid</span></td>
  <td class="price"><span>1.85</span></td>
  <td class="team-name-second"><span class="team-name-text">OG</span></td>
  <td class="price"><span>2.05</span></td>
  <td class="draw"><span class="price">12.5</span></td>
</tr>
<tr class="noResult" data-game-id="78">
  <td><i class="img_game_sprite csgo"></i><b class="disabled"></b></td>
</tr>
</table></body></html>"#;

#[test]
fn rows_are_read_from_a_page() {
    let rows = cybbet::rows_of(ROWS).unwrap();
    assert_eq!(rows.len(), 2);
    let r = &rows[0];
    assert_eq!(r.icon_class, "img_game_sprite dota2");
    assert!(!r.disabled);
    assert_eq!(r.team_1.as_deref(), Some("Liquid"));
    assert_eq!(r.team_2.as_deref(), Some("OG"));
    assert_eq!(r.id.as_deref(), Some("77"));
    assert_eq!(r.date.as_deref(), Some("1500000000"));
    assert_eq!(r.coef_1.as_deref(), Some("1.85"));
    assert_eq!(r.coef_2.as_deref(), Some("2.05"));
    assert_eq!(r.coef_draw.as_deref(), Some("12.5"));
    // A disabled row lacking the fields of a game is read, and skipped as an offer.
    let r = &rows[1];
    assert!(r.disabled);
    assert_eq!(r.team_1, None);
    assert_eq!(r.date, None);
    let offers = cybbet::extract_offers(&rows).unwrap();
    assert_eq!(offers.len(), 1);
    assert_eq!(offers[0].oid, 77);
    assert_eq!(offers[0].outcomes.len(), 3);
    // A row without a game icon cannot be read.
    assert!(cybbet::rows_of(r#"<table><tr class="noResult" data-game-id="1"><td>x</td></tr></table>"#).is_err());
    assert!(cybbet::rows_of("<p>no games</p>").unwrap().is_empty());
}

#[test]
fn cash_is_the_first_word_of_the_link() {
    let page = r#"<div><a href="/account/usercash/cash">12.5 RUB</a></div>"#;
    assert_eq!(cybbet::cash_text(page).unwrap(), "12.5");
    assert_eq!(cybbet::cash_text(r#"<a href="/account/usercash/cash">7</a>"#).unwrap(), "7");
    assert!(cybbet::cash_text("<div></div>").is_err());
}

#[test]
fn csrf_token_and_login_token_are_read() {
    let page = r#"<html><head><meta name="csrf-token" content="abc=="></head></html>"#;
    assert_eq!(egamingbets::extract_csrf(page).unwrap(), "abc==");
    assert!(egamingbets::extract_csrf("<html></html>").is_err());
    let page = r#"<form><input id="authDV" value="72.105"></form>"#;
    assert_eq!(xsporta::raw_auth_dv(page).unwrap(), "72.105");
    assert_eq!(xsporta::decode_auth_dv(&xsporta::raw_auth_dv(page).unwrap()).unwrap(), "Hi");
    assert!(xsporta::raw_auth_dv(r#"<input id="authDV">"#).is_err());
}

#[test]
fn leagues_are_the_ids_of_the_check_boxes() {
    let page = r#"<div><input class="bet-chkbox" id="soccer"><input class="bet-chkbox"><input class="bet-chkbox" id="tennis"></div>"#;
    assert_eq!(betway::extract_leagues(page).unwrap(), vec!["soccer".to_string(), "tennis".to_string()]);
    assert!(betway::extract_leagues("<p></p>").unwrap().is_empty());
}

#[test]
fn selection_finds_elements_in_order() {
    let page = r#"<ul><li class="a" data-x="1">one</li><li class="b">two</li><li class="a">th<b>ree</b></li></ul>"#;
    let found = select(page, "li.a").unwrap();
    let texts: Vec<&str> = found.iter().map(|e| e.text.as_str()).collect();
    assert_eq!(texts, vec!["one", "three"]);
    assert_eq!(first_attribute(page, "li.a", "data-x").as_deref(), Some("1"));
    assert_eq!(first_attribute(page, "li.b", "data-x"), None);
    assert!(select(page, "li[").is_none());
}
