use aladdin::currency::Currency;

#[test]
fn test_addition() {
    assert_eq!(Currency(2) + Currency(3), Currency(5));
    assert_eq!(Currency(2) + Currency(-3), Currency(-1));
}

#[test]
fn test_subtraction() {
    assert_eq!(Currency(2) - Currency(3), Currency(-1));
    assert_eq!(Currency(2) - Currency(-3), Currency(5));
}

#[test]
fn currency_display() {
    assert_eq!(Currency(150).to_string(), "$1.50");
    assert_eq!(Currency(5).to_string(), "$0.05");
    assert_eq!(Currency(-150).to_string(), "$-1.-50");
    assert_eq!(Currency(-100).to_string(), "$-1.00");
    assert_eq!(Currency(-5).to_string(), "$0.-5");
    assert_eq!(Currency(0).to_string(), "$0.00");
}

fn thousandths(x: f64) -> u32 {
    (x * 1000.0).round() as u32
}

#[test]
fn test_multiplication() {
    assert_eq!(Currency(2).times_odds(thousandths(2.)), Currency(4));
    assert_eq!(Currency(100).times_odds(thousandths(1.5)), Currency(150));
    assert_eq!(Currency(10).times_odds(thousandths(1.51)), Currency(15));
    assert_eq!(Currency(10).times_odds(thousandths(1.58)), Currency(16));
}

#[test]
fn subtraction_undoes_addition() {
    let a = Currency(1234);
    let b = Currency(-99);
    assert_eq!((a + b) - b, a);
    assert_eq!((a - b) + b, a);
}
