use price_calculator::decimal::Amount;
use price_calculator::pricing::{
    batch_calculate, calculate_price, format_price, markup_factor, BatchItem, BatchResultItem, PriceError,
};

fn price(base: &str, markup: &str) -> Result<String, PriceError> {
    calculate_price(base.to_string(), markup.to_string())
}

fn item(id: &str, base: &str, markup: &str) -> BatchItem {
    BatchItem { product_id: id.to_string(), base_price: base.to_string(), markup_percent: markup.to_string() }
}

fn priced(id: &str, final_price: &str) -> BatchResultItem {
    BatchResultItem { product_id: id.to_string(), final_price: final_price.to_string() }
}

#[test]
fn ten_percent_on_hundred() {
    assert_eq!(price("100.00", "10"), Ok("110.00".to_string()));
}

#[test]
fn zero_markup_keeps_price() {
    assert_eq!(price("19.99", "0"), Ok("19.99".to_string()));
}

#[test]
fn zero_base_stays_zero_with_two_places() {
    assert_eq!(price("0.00", "50"), Ok("0.00".to_string()));
}

#[test]
fn whole_base_gets_two_places() {
    assert_eq!(price("100", "0"), Ok("100.00".to_string()));
    assert_eq!(price("+5", "0"), Ok("5.00".to_string()));
}

#[test]
fn batch_keeps_order() {
    let items = vec![item("A", "100.00", "20"), item("B", "50.00", "10")];
    assert_eq!(batch_calculate(&items), Ok(vec![priced("A", "120.00"), priced("B", "55.00")]));
}

#[test]
fn empty_batch() {
    assert_eq!(batch_calculate(&Vec::new()), Ok(Vec::new()));
}

#[test]
fn batch_stops_at_first_bad_item() {
    let items = vec![item("A", "100.00", "20"), item("B", "abc", "10"), item("C", "1", "zz")];
    assert_eq!(batch_calculate(&items), Err(PriceError::InvalidBasePrice));
}

#[test]
fn malformed_base_is_rejected() {
    assert_eq!(price("abc", "10"), Err(PriceError::InvalidBasePrice));
    assert_eq!(price("", "10"), Err(PriceError::InvalidBasePrice));
}

#[test]
fn malformed_markup_is_rejected() {
    assert_eq!(price("10.00", "abc"), Err(PriceError::InvalidMarkup));
    assert_eq!(price("10.00", "1.2.3"), Err(PriceError::InvalidMarkup));
}

#[test]
fn product_too_large_overflows() {
    assert_eq!(price("79228162514264337593543950335", "100"), Err(PriceError::Overflow));
}

#[test]
fn same_inputs_same_output() {
    assert_eq!(price("12.345", "7.5"), price("12.345", "7.5"));
    assert_eq!(price("12.345", "7.5"), Ok("13.27".to_string()));
}

#[test]
fn ties_round_to_even() {
    assert_eq!(price("0.125", "0"), Ok("0.12".to_string()));
    assert_eq!(price("0.135", "0"), Ok("0.14".to_string()));
    assert_eq!(price("0.005", "0"), Ok("0.00".to_string()));
    assert_eq!(price("0.015", "0"), Ok("0.02".to_string()));
    assert_eq!(price("0.0051", "0"), Ok("0.01".to_string()));
}

#[test]
fn negative_markup_and_base() {
    assert_eq!(price("100", "-25"), Ok("75.00".to_string()));
    assert_eq!(price("-10.00", "10"), Ok("-11.00".to_string()));
}

#[test]
fn other_literal_forms_are_read() {
    assert_eq!(price("1_000", "0"), Ok("1000.00".to_string()));
    assert_eq!(price("1e2", "0"), Ok("100.00".to_string()));
}

#[test]
fn format_price_rounds_and_pads() {
    assert_eq!(format_price(Amount { negative: false, digits: 12345, scale: 3 }), "12.34");
    assert_eq!(format_price(Amount { negative: false, digits: 12355, scale: 3 }), "12.36");
    assert_eq!(format_price(Amount { negative: false, digits: 7, scale: 0 }), "7.00");
    assert_eq!(format_price(Amount { negative: true, digits: 5, scale: 1 }), "-0.50");
    assert_eq!(format_price(Amount { negative: false, digits: 3, scale: 28 }), "0.00");
}

#[test]
fn markup_factor_is_one_plus_fraction() {
    let f = markup_factor(Amount { negative: false, digits: 20, scale: 0 }).unwrap();
    assert_eq!(format_price(f), "1.20");
    let g = markup_factor(Amount { negative: true, digits: 250, scale: 1 }).unwrap();
    assert_eq!(format_price(g), "0.75");
}

#[test]
fn rounding_to_zero_drops_the_sign() {
    assert_eq!(format_price(Amount { negative: true, digits: 1, scale: 3 }), "0.00");
    assert_eq!(price("0.001", "-200"), Ok("0.00".to_string()));
    assert_eq!(price("-0", "10"), Ok("0.00".to_string()));
}
