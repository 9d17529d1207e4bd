use aladdin::events::{comparative_permutation, fuzzy_eq, sort_outcomes_by_coef};
use aladdin::markets::{Outcome, DRAW};

#[test]
fn test_fuzzy_eq() {
    assert!(fuzzy_eq("rb", "rb"));
    assert!(fuzzy_eq("rb ", "rb"));
    assert!(fuzzy_eq("RB", "rb"));
    assert!(fuzzy_eq("r.b", "rb"));
    assert!(fuzzy_eq(" r.b", "rb"));
    assert!(fuzzy_eq(" R.8B ", "rb"));
}

#[test]
fn fuzzy_eq_rejects_other_letters() {
    assert!(!fuzzy_eq("ab", "ac"));
    assert!(fuzzy_eq("abc", "ab"));
}

fn titles(os: &[&Outcome]) -> Vec<String> {
    os.iter().map(|o| o.0.clone()).collect()
}

#[test]
fn outcomes_sort_by_odds_with_the_draw_last() {
    let outcomes = vec![
        Outcome(DRAW.to_string(), 3000),
        Outcome("Navi".to_string(), 2500),
        Outcome("Liquid".to_string(), 1500),
    ];
    let sorted = sort_outcomes_by_coef(&outcomes);
    assert_eq!(titles(&sorted), vec!["Liquid", "Navi", DRAW]);
}

#[test]
fn outcomes_follow_an_ideal_line() {
    let ideal_outcomes = vec![Outcome("Team Liquid".to_string(), 1500), Outcome("NaVi".to_string(), 2500)];
    let ideal = ideal_outcomes.iter().collect::<Vec<_>>();
    let other = vec![Outcome("Na`Vi".to_string(), 2400), Outcome("Liquid".to_string(), 1600)];
    let mut line = other.iter().collect::<Vec<_>>();
    comparative_permutation(&mut line, &ideal);
    assert_eq!(titles(&line), vec!["Liquid", "Na`Vi"]);
    // Lines already in order stay so.
    let mut same = ideal_outcomes.iter().collect::<Vec<_>>();
    comparative_permutation(&mut same, &ideal);
    assert_eq!(titles(&same), vec!["Team Liquid", "NaVi"]);
}
