use food_inventory::codec::{parse_food, parse_foods, serialize_foods, ParseError};
use food_inventory::store::Foods;

#[test]
fn parse_food_reads_all_four_fields() {
    let f = parse_food("1,Soup,10,5000").expect("line should parse");
    assert_eq!(f.id, 1);
    assert_eq!(f.name, "Soup");
    assert_eq!(f.stock, 10);
    assert_eq!(f.price, 5000);
}

#[test]
fn parse_food_rejects_non_numeric_id() {
    assert_eq!(parse_food("abc,Soup,10,5000").unwrap_err(), ParseError::InvalidNumber);
}

#[test]
fn parse_food_rejects_empty_name() {
    assert_eq!(parse_food("7,,10,5000").unwrap_err(), ParseError::MissingField);
}

#[test]
fn parse_food_rejects_absent_name() {
    assert_eq!(parse_food("7").unwrap_err(), ParseError::MissingField);
}

#[test]
fn parse_food_rejects_missing_numeric_fields() {
    assert_eq!(parse_food("5,Soup").unwrap_err(), ParseError::EmptyRecord);
    assert_eq!(parse_food("5,Soup,3").unwrap_err(), ParseError::EmptyRecord);
}

#[test]
fn parse_food_rejects_bad_stock_and_price() {
    assert_eq!(parse_food("1,Soup,x,5").unwrap_err(), ParseError::InvalidNumber);
    assert_eq!(parse_food("1,Soup,5,x").unwrap_err(), ParseError::InvalidNumber);
}

#[test]
fn parse_food_ignores_extra_fields() {
    let f = parse_food("1,Soup,10,5000,extra").expect("extra fields are ignored");
    assert_eq!(f.id, 1);
    assert_eq!(f.price, 5000);
}

#[test]
fn parse_food_accepts_signs() {
    let f = parse_food("-5,Neg,-1,-2").expect("negative numbers parse");
    assert_eq!(f.id, -5);
    assert_eq!(f.stock, -1);
    assert_eq!(f.price, -2);
    let g = parse_food("+5,Plus,1,1").expect("a leading plus parses");
    assert_eq!(g.id, 5);
}

#[test]
fn parse_food_checks_the_integer_ranges() {
    let f = parse_food("9223372036854775807,Top,1,1").expect("largest id parses");
    assert_eq!(f.id, i64::MAX);
    assert_eq!(
        parse_food("9223372036854775808,Over,1,1").unwrap_err(),
        ParseError::InvalidNumber
    );
    assert_eq!(parse_food("1,Soup,2147483648,1").unwrap_err(), ParseError::InvalidNumber);
    let g = parse_food("1,Soup,-2147483648,2147483647").expect("i32 extremes parse");
    assert_eq!(g.stock, i32::MIN);
    assert_eq!(g.price, i32::MAX);
}

#[test]
fn parse_food_rejects_sign_without_digits() {
    assert_eq!(parse_food("-,Soup,1,1").unwrap_err(), ParseError::InvalidNumber);
    assert_eq!(parse_food("").unwrap_err(), ParseError::InvalidNumber);
}

#[test]
fn parse_foods_skips_bad_lines_and_reports_them() {
    let (store, diags) = parse_foods("abc,Soup,10,5000\n1,Ok,1,1\n");
    let all = store.into_vec();
    assert_eq!(all.len(), 1);
    assert_eq!(all[0].id, 1);
    assert_eq!(all[0].name, "Ok");
    assert_eq!(diags.len(), 1);
    assert_eq!(diags[0].line, 1);
    assert_eq!(diags[0].error, ParseError::InvalidNumber);
    assert_eq!(diags[0].content, "abc,Soup,10,5000");
}

#[test]
fn parse_foods_reports_missing_name() {
    let (store, diags) = parse_foods("7,,10,5000\n");
    assert!(store.into_vec().is_empty());
    assert_eq!(diags.len(), 1);
    assert_eq!(diags[0].line, 1);
    assert_eq!(diags[0].error, ParseError::MissingField);
}

#[test]
fn parse_foods_numbers_lines_counting_empty_ones() {
    let (store, diags) = parse_foods("1,A,1,1\n\nbad\n2,B,2,2");
    assert_eq!(store.into_vec().len(), 2);
    assert_eq!(diags.len(), 1);
    assert_eq!(diags[0].line, 3);
    assert_eq!(diags[0].content, "bad");
}

#[test]
fn parse_foods_skips_the_header_line() {
    let (store, diags) = parse_foods("id,name,stock,price\n1,Soup,10,5000\n");
    let all = store.into_vec();
    assert_eq!(all.len(), 1);
    assert_eq!(all[0].id, 1);
    assert_eq!(diags.len(), 1);
    assert_eq!(diags[0].line, 1);
    assert_eq!(diags[0].error, ParseError::InvalidNumber);
}

#[test]
fn parse_foods_later_line_wins_on_duplicate_id() {
    let (store, diags) = parse_foods("1,A,1,1\n1,B,2,2\n");
    assert!(diags.is_empty());
    let all = store.into_vec();
    assert_eq!(all.len(), 1);
    assert_eq!(all[0].name, "B");
}

#[test]
fn serialize_writes_header_and_sorted_records() {
    let (store, _) = parse_foods("2,Rice,20,15000\n1,Soup,10,5000\n");
    let text = serialize_foods(store);
    assert_eq!(text, "id,name,stock,price\n1,Soup,10,5000\n2,Rice,20,15000\n");
}

#[test]
fn serialize_empty_store_is_just_the_header() {
    let text = serialize_foods(Foods::new());
    assert_eq!(text, "id,name,stock,price\n");
}

#[test]
fn parse_serialize_parse_keeps_the_records() {
    let original = "3,Fried Rice,20,15000\n1,Soup,10,5000\n2,Noodles,15,12000\n";
    let (first, _) = parse_foods(original);
    let saved = serialize_foods(first);
    let (second, diags) = parse_foods(saved.as_str());
    assert_eq!(diags.len(), 1);
    let all = second.into_vec();
    assert_eq!(all.len(), 3);
    assert_eq!((all[0].id, all[0].name.as_str(), all[0].stock, all[0].price), (1, "Soup", 10, 5000));
    assert_eq!(
        (all[1].id, all[1].name.as_str(), all[1].stock, all[1].price),
        (2, "Noodles", 15, 12000)
    );
    assert_eq!(
        (all[2].id, all[2].name.as_str(), all[2].stock, all[2].price),
        (3, "Fried Rice", 20, 15000)
    );
}

#[test]
fn serialize_then_parse_is_stable_once_saved() {
    let (store, _) = parse_foods("5,Stew,4,900\n-1,Odd,0,0\n");
    let saved = serialize_foods(store);
    let (again, _) = parse_foods(saved.as_str());
    let resaved = serialize_foods(again);
    assert_eq!(saved, resaved);
}
