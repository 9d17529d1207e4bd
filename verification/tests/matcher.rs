use aladdin::markets::{Game, Kind, Offer, Outcome, DRAW};
use aladdin::matcher::{
    abbreviation_sim, collate_outcomes, compare_offers, round_date, titles_sim, Token, SIM_ONE,
};

fn coef(x: f64) -> u32 {
    (x * 1000.0).round() as u32
}

fn outcome(title: &str, odds: f64) -> Outcome {
    Outcome(title.to_string(), coef(odds))
}

fn offer(outcomes: &[(&str, f64)]) -> Offer {
    Offer {
        date: 123,
        outcomes: outcomes.iter().map(|&(t, c)| outcome(t, c)).collect(),
        oid: 123,
        game: Game::Darts,
        kind: Kind::Series,
    }
}

fn sim_value(s: Option<u64>) -> f64 {
    s.map_or(f64::NAN, |x| x as f64 / SIM_ONE as f64)
}

#[test]
fn compare_primitive_cases() {
    assert!(compare_offers(&offer(&[("kek", 1.31), ("lol", 1.31)]), &offer(&[("kek", 1.31), ("lol", 1.31)])));
    assert!(!compare_offers(&offer(&[("", 0.0), ("", 0.0)]), &offer(&[("", 0.0), ("", 0.0)])));
}

#[test]
fn compare_offers_with_extra_tokens() {
    assert!(compare_offers(
        &offer(&[("San Martin Corrientes", 1.14), ("Deportivo Libertad", 5.70)]),
        &offer(&[("San Martin de Corrientes", 1.14), ("Club Deportivo Libertad", 5.71)])
    ));
    assert!(compare_offers(
        &offer(&[("Belgrano", 1.85), ("Sarmiento de Junin", 5.), (DRAW, 3.)]),
        &offer(&[("Belgrano de Cordoba", 1.75), (DRAW, 3.34), ("Sarmiento", 5.72)])
    ));
    assert!(!compare_offers(
        &offer(&[("Evgueni Chtchetinine", 1.08), ("Kiryl Barabanov", 7.3)]),
        &offer(&[("Evgueni Chtchetinine (BLR)", 1.54), ("David Petr (CZE)", 2.31)])
    ));
    assert!(compare_offers(
        &offer(&[("Portimonense", 1.62), ("Braga II", 5.1), (DRAW, 3.8)]),
        &offer(&[("Portimonense Sc", 1.65), ("Sporting Braga B", 4.5), (DRAW, 3.8)])
    ));
    assert!(compare_offers(
        &offer(&[("Cruzeiro", 2.2), ("Santos", 3.3), (DRAW, 3.1)]),
        &offer(&[("Cruzeiro Mg", 2.1), (DRAW, 3.3), ("Santos Sp", 3.4)])
    ));
    assert!(compare_offers(
        &offer(&[("Palmeiras", 1.55), ("Botafogo RJ", 5.9), (DRAW, 3.8)]),
        &offer(&[("Palmeiras Sp", 1.57), (DRAW, 3.8), ("Botafogo Rj", 5.75)])
    ));
    assert!(compare_offers(
        &offer(&[("Team Tvis Holstebro", 1.4), (DRAW, 10.), ("Liberty Seguros Abc/Uminho", 3.95)]),
        &offer(&[("Team Tvis Holstebro", 1.16), (DRAW, 11.75), ("ABC Braga Uminho", 6.75)])
    ));
}

#[test]
fn compare_offers_with_abbrs() {
    assert!(compare_offers(
        &offer(&[("Gilles Simon", 1.48), ("Julien Benneteau", 2.93)]),
        &offer(&[("G. Simon", 1.41), ("J. Benneteau", 2.74)])
    ));
    assert!(compare_offers(
        &offer(&[("North Carolina Tar Heels", 1.24), ("North Carolina State Wolfpack", 4.62)]),
        &offer(&[("North Carolina", 1.22), ("NC State", 4.6)])
    ));
    assert!(compare_offers(
        &offer(&[("Internazionale Milano", 2.08), ("Fiorentina", 3.96), (DRAW, 3.58)]),
        &offer(&[("Inter Milan", 2.06), (DRAW, 3.55), ("Fiorentina", 3.79)])
    ));
    assert!(compare_offers(
        &offer(&[("Northern Iowa", 5.5), ("Wichita State", 1.169)]),
        &offer(&[("North. Iowa", 5.1), ("Wichita St.", 1.17)])
    ));
}

#[test]
fn compare_offers_with_similar_beginnings() {
    assert!(!compare_offers(
        &offer(&[("Alpla HC Hard", 1.76), ("A1 Bregenz HB", 2.6), (DRAW, 8.4)]),
        &offer(&[("Alingsaas HK", 1.1), (DRAW, 14.75), ("Ricoh HK", 9.25)])
    ));
    assert!(!compare_offers(
        &offer(&[("Alpla Hard", 1.77), ("Bregenz", 2.288), (DRAW, 11.)]),
        &offer(&[("Alingsaas HK", 1.1), (DRAW, 14.75), ("Ricoh HK", 9.25)])
    ));
}

#[test]
fn compare_different_offers() {
    assert!(!compare_offers(
        &offer(&[("Deportivo Alaves", 2.62), ("Espanyol", 3.16), (DRAW, 3.18)]),
        &offer(&[("Espanyol B", 2.21), (DRAW, 3.32), ("Mallorca B", 3.27)])
    ));
    assert!(!compare_offers(
        &offer(&[("Karlstad", 1.7), ("Hollvikens", 3.46), (DRAW, 5.6)]),
        &offer(&[("Iksu] [Women", 1.05), (DRAW, 11.), ("Karlstad IBF] [Women", 13.)])
    ));
    assert!(!compare_offers(
        &offer(&[("Tiro Federal Rosario", 1.833), (DRAW, 3.4), ("Belgrano Parana", 3.8)]),
        &offer(&[("Belgrano de Cordoba", 1.75), (DRAW, 3.34), ("Sarmiento", 5.72)])
    ));
    assert!(!compare_offers(
        &offer(&[("Sportivo Barracas", 1.7), ("Defensores de Cambaceres", 4.6), (DRAW, 3.4)]),
        &offer(&[("Atletico Camioneros", 1.75), (DRAW, 3.4), ("Sportivo Barracas Colon", 4.2)])
    ));
    assert!(!compare_offers(
        &offer(&[("MVP.GuMiho", 1.95), ("Losira", 1.75)]),
        &offer(&[("Losira", 1.16), ("RYE.Jieshi", 3.9)])
    ));
    assert!(!compare_offers(
        &offer(&[("AS Roma", 1.67), (DRAW, 4.16), ("AC Milan", 5.22)]),
        &offer(&[("Club Leandro N. Alem", 1.65), ("Yupanqui", 5.1), (DRAW, 3.4)])
    ));
    assert!(!compare_offers(
        &offer(&[("Real Betis II", 1.78), ("Atletico Espeleno", 4.1), (DRAW, 3.4)]),
        &offer(&[("Real Sociedad II", 1.5), (DRAW, 4.14), ("Mensajero", 7.77)])
    ));
    assert!(!compare_offers(
        &offer(&[("Starwings Basket Regio Basel", 5.25), ("Benetton Fribourg Olympic", 1.12)]),
        &offer(&[("BBC Monthey", 1.08), ("BBC Lausanne", 6.74)])
    ));
    assert!(!compare_offers(
        &offer(&[("BBC Monthey", 1.12), ("BBC Lausanne", 6.3)]),
        &offer(&[("Starwings Basket Regio Basel", 5.25), ("Benetton Fribourg Olympic", 1.12)])
    ));
    assert!(!compare_offers(
        &offer(&[("HC La Chaux De Fonds", 1.18), (DRAW, 7.), ("HC Biasca", 8.75)]),
        &offer(&[("SCL Tigers", 2.35), (DRAW, 4.1), ("Lausanne HC", 2.45)])
    ));
    assert!(!compare_offers(
        &offer(&[("HC Lugano", 1.55), (DRAW, 4.75), ("SC Langenthal", 4.25)]),
        &offer(&[("Red Ice Martigny", 2.65), ("SC Langenthal", 2.1), (DRAW, 4.6)])
    ));
}

#[test]
fn compare_similar_but_different_offers() {
    assert!(!compare_offers(
        &offer(&[("Sportivo Barracas", 1.7), ("Defensores de Cambaceres", 4.6), (DRAW, 3.4)]),
        &offer(&[("Atletico Camioneros", 1.75), (DRAW, 3.4), ("Sportivo Barracas Colon", 4.2)])
    ));
    assert!(!compare_offers(
        &offer(&[("Penn State", 1.23), ("Michigan State", 4.51)]),
        &offer(&[("Ohio State Buckeyes", 1.49), ("Michigan Wolverines", 2.845)])
    ));
    assert!(!compare_offers(
        &offer(&[("Kayserispor U21", 2.45), ("Karabukspor U21", 2.34), (DRAW, 3.8)]),
        &offer(&[("Galatasaray] [U21", 1.571), (DRAW, 4.0), ("Alanyaspor] [U21", 4.75)])
    ));
    assert!(!compare_offers(
        &offer(&[("Altynordu U21", 1.49), ("Umraniyespor U21", 5.6), (DRAW, 4.)]),
        &offer(&[("Mersin Idmanyurdu] [U21", 3.25), (DRAW, 3.4), ("Bandirmaspor] [U21", 2.)])
    ));
    assert!(!compare_offers(
        &offer(&[("Dover Athletic", 1.49), (DRAW, 4.45), ("Machine Sazi Tabriz", 6.09)]),
        &offer(&[("Dover Athletic", 1.53), (DRAW, 4.20), ("Maidstone United", 5.50)])
    ));
}

#[test]
fn compare_offers_with_very_general_titles() {
    assert!(compare_offers(
        &offer(&[("Kansas State", 1.02), ("Kansas", 17.89)]),
        &offer(&[("Kansas State Wildcats", 1.03), ("Kansas Jayhawks", 20.)])
    ));
    assert!(compare_offers(
        &offer(&[("Mississippi", 1.27), ("Mississippi", 4.03)]),
        &offer(&[("Mississippi Rebels", 1.296), ("Mississippi State", 3.98)])
    ));
    assert!(compare_offers(
        &offer(&[("Georgia", 1.51), ("Georgia Tech", 2.69)]),
        &offer(&[("Georgia Bulldogs", 1.54), ("Georgia Tech Yellow Jackets", 2.68)])
    ));
}

#[test]
fn compare_offers_with_numeric_teams() {
    assert!(compare_offers(
        &offer(&[("Imperial", 1.12), ("8000", 4.25)]),
        &offer(&[("Imperial", 1.13), ("8000", 4.22)])
    ));
}

#[test]
fn compare_offers_with_lowercase() {
    assert!(compare_offers(
        &offer(&[("Immortals", 1.63), ("Mousesports", 2.20)]),
        &offer(&[("Immortals", 1.68), ("mousesports", 2.19)])
    ));
    assert!(compare_offers(
        &offer(&[("EnvyUs", 1.33), ("Tyloo", 3.30)]),
        &offer(&[("Envyus", 1.35), ("TyLoo", 2.95)])
    ));
}

#[test]
fn compare_offers_with_high_coefs() {
    assert!(compare_offers(
        &offer(&[("Wolfsberger Ac", 18.0), (DRAW, 4.15), ("FK Austria Wien", 1.25)]),
        &offer(&[("Wolfsberger AC", 2.61), (DRAW, 3.28), ("Austria Wien", 2.81)])
    ));
}

#[test]
fn test_round_date() {
    // Unix times of 2016-08-28 at the given hours and minutes (UTC).
    fn to_unix(hours: u32, minutes: u32) -> u32 {
        1472342400 + hours * 3600 + minutes * 60
    }

    assert_eq!(round_date(to_unix(11, 30)), to_unix(11, 30));
    assert_eq!(round_date(to_unix(11, 44)), to_unix(11, 30));
    assert_eq!(round_date(to_unix(11, 45)), to_unix(12, 0));
    assert_eq!(round_date(to_unix(12, 0)), to_unix(12, 0));
    assert_eq!(round_date(to_unix(12, 14)), to_unix(12, 0));
    assert_eq!(round_date(to_unix(12, 15)), to_unix(12, 30));
    assert_eq!(round_date(to_unix(12, 30)), to_unix(12, 30));
}

#[test]
fn test_collate_outcomes() {
    assert_eq!(
        collate_outcomes(
            &vec![outcome("Wolfsberger Ac", 18.), outcome(DRAW, 4.15), outcome("FK Austria Wien", 1.25)],
            &vec![outcome("Wolfsberger AC", 2.61), outcome(DRAW, 3.28), outcome("Austria Wien", 2.81)]
        ),
        vec![0, 1, 2]
    );
    assert_eq!(
        collate_outcomes(
            &vec![outcome("Kansas", 17.89), outcome("Kansas State", 1.02)],
            &vec![outcome("Kansas State Wildcats", 1.03), outcome("Kansas Jayhawks", 20.)]
        ),
        vec![1, 0]
    );
    assert_eq!(
        collate_outcomes(
            &vec![outcome("Mississippi State", 3.98), outcome("Mississippi Rebels", 1.296)],
            &vec![outcome("Mississippi", 1.27), outcome("Mississippi", 4.03)]
        ),
        vec![1, 0]
    );
}

#[test]
fn compare_titles() {
    assert!(sim_value(titles_sim("HC La Chaux De Fonds", "SCL Tigers")) <= 0.3);
}

#[test]
fn compare_abbrs() {
    assert_eq!(abbreviation_sim(&Token::from("KL"), "Kek Lol"), SIM_ONE);
    assert_eq!(abbreviation_sim(&Token::from("KL"), "Kek Shmek Lol"), SIM_ONE);
    assert_eq!(abbreviation_sim(&Token::from("KKL"), "Kek Lol"), SIM_ONE / 3);
}
