use receipts::command::{
    interpret, item, parse_amount, parse_cost, split_words, strip_line_end, text_to_bool,
    tip_mode, ItemReply, Reply, TipMode,
};
use receipts::cost::Cost;
use receipts::receipt::Receipt;

#[test]
fn yes_and_no_are_read_by_the_first_character() {
    for yes in ["Y", "y", "T", "t", "yes", "True", "yn", "t0"] {
        assert_eq!(text_to_bool(yes), Some(true));
    }
    for no in ["N", "n", "F", "f", "no", "False", "ny", "f1"] {
        assert_eq!(text_to_bool(no), Some(false));
    }
    for other in ["", "1", "0", " y", "maybe", "ü"] {
        assert_eq!(text_to_bool(other), None);
    }
}

#[test]
fn costs_are_whole_numbers_of_cents() {
    assert_eq!(parse_cost("0"), Some(0));
    assert_eq!(parse_cost("1000"), Some(1000));
    assert_eq!(parse_cost("+17"), Some(17));
    assert_eq!(parse_cost("007"), Some(7));
    assert_eq!(parse_cost("4294967295"), Some(u32::MAX));
    assert_eq!(parse_cost("4294967296"), None);
    assert_eq!(parse_cost("99999999999999999999999999"), None);
    assert_eq!(parse_cost(""), None);
    assert_eq!(parse_cost("+"), None);
    assert_eq!(parse_cost("-1"), None);
    assert_eq!(parse_cost("12a"), None);
    assert_eq!(parse_cost("1.5"), None);
    assert_eq!(parse_cost(" 1"), None);
    assert_eq!(parse_cost("++1"), None);
}

#[test]
fn amounts_are_read_exactly() {
    assert_eq!(parse_amount("1.08"), Some(Cost::fraction(108, 100).unwrap()));
    assert_eq!(parse_amount("1.15"), Some(Cost::fraction(23, 20).unwrap()));
    assert_eq!(parse_amount("1"), Some(Cost::one()));
    assert_eq!(parse_amount("0.0"), Some(Cost::zero()));
    assert_eq!(parse_amount("-0.5"), Some(Cost::fraction(-1, 2).unwrap()));
    assert_eq!(parse_amount("+12.50"), Some(Cost::fraction(25, 2).unwrap()));
    assert_eq!(parse_amount("1999.6"), Some(Cost::fraction(19996, 10).unwrap()));
    assert_eq!(
        parse_amount("0.000000000000000001"),
        Some(Cost::fraction(1, 1_000_000_000_000_000_000).unwrap())
    );
    assert_eq!(parse_amount("9223372036854775807"), Some(Cost::fraction(i64::MAX, 1).unwrap()));
    assert_eq!(parse_amount("-9223372036854775807"), Some(Cost::fraction(-i64::MAX, 1).unwrap()));
}

#[test]
fn what_is_no_amount_is_refused() {
    for bad in [
        "", "-", "+", ".", ".5", "1.", "1..2", "1.2.3", "1e3", "abc", "1,5", " 1", "1 ", "--1",
        "0.0000000000000000001", "9223372036854775808", "922337203685477580.8", "inf", "NaN",
    ] {
        assert_eq!(parse_amount(bad), None);
    }
}

#[test]
fn lines_are_split_at_every_blank() {
    assert_eq!(split_words("item Pizza 1000 y n"), vec!["item", "Pizza", "1000", "y", "n"]);
    assert_eq!(split_words("help"), vec!["help"]);
    assert_eq!(split_words(""), vec![""]);
    assert_eq!(split_words(" "), vec!["", ""]);
    assert_eq!(split_words("a  b "), vec!["a", "", "b", ""]);
    assert_eq!(split_words("é ü"), vec!["é", "ü"]);
}

#[test]
fn line_end_is_cut_off() {
    assert_eq!(strip_line_end("help\n"), "help");
    assert_eq!(strip_line_end("help\r\n"), "help");
    assert_eq!(strip_line_end("help\r"), "help");
    assert_eq!(strip_line_end("help"), "help");
    assert_eq!(strip_line_end("help\n\n"), "help\n");
    assert_eq!(strip_line_end("help\n\r"), "help\n");
    assert_eq!(strip_line_end("\n"), "");
    assert_eq!(strip_line_end(""), "");
}

#[test]
fn tip_is_given_as_rate_or_value() {
    assert_eq!(tip_mode("r"), TipMode::Rate);
    assert_eq!(tip_mode("rate"), TipMode::Rate);
    assert_eq!(tip_mode("v"), TipMode::Value);
    assert_eq!(tip_mode("value"), TipMode::Value);
    assert_eq!(tip_mode("as a value, not a rate"), TipMode::Rate);
    assert_eq!(tip_mode(""), TipMode::Neither);
    assert_eq!(tip_mode("none"), TipMode::Neither);
    assert_eq!(tip_mode("R"), TipMode::Neither);
}

#[test]
fn item_command_checks_its_arguments_in_order() {
    let mut r = Receipt::new();
    assert_eq!(item(&mut r, &vec!["Pizza", "1000", "y"]), ItemReply::WrongCount);
    assert_eq!(item(&mut r, &vec![]), ItemReply::WrongCount);
    assert_eq!(item(&mut r, &vec!["Pizza", "1000", "y", "n", "x"]), ItemReply::WrongCount);
    assert_eq!(item(&mut r, &vec!["Pizza", "10.5", "maybe", "x"]), ItemReply::BadCost);
    assert_eq!(item(&mut r, &vec!["Pizza", "1000", "maybe", "x"]), ItemReply::BadTax);
    assert_eq!(item(&mut r, &vec!["Pizza", "1000", "y", "x"]), ItemReply::BadTip);
    assert_eq!(r.item_count(), 0);
    assert_eq!(item(&mut r, &vec!["Pizza", "1000", "y", "n"]), ItemReply::Added);
    assert_eq!(r.item_count(), 1);
    assert_eq!(r.item(0).name(), "Pizza");
    assert_eq!(r.item(0).cost(), Cost::integer(1000));
    assert_eq!(item(&mut r, &vec!["Pizza", "1000", "y", "n"]), ItemReply::Added);
    assert_eq!(r.item_count(), 1);
}

#[test]
fn command_lines_are_told_apart_by_their_first_word() {
    let mut r = Receipt::new();
    r.set_tax(Cost::fraction(108, 100).unwrap());
    assert_eq!(interpret(&mut r, "help"), Reply::Help);
    assert_eq!(interpret(&mut r, "h"), Reply::Help);
    assert_eq!(interpret(&mut r, "help me now"), Reply::Help);
    assert_eq!(interpret(&mut r, ""), Reply::Unrecognized);
    assert_eq!(interpret(&mut r, "Item a 1 y y"), Reply::Unrecognized);
    assert_eq!(interpret(&mut r, " item a 1 y y"), Reply::Unrecognized);
    assert_eq!(interpret(&mut r, "item"), Reply::Item(ItemReply::WrongCount));
    assert_eq!(interpret(&mut r, "item Pizza 1000 y  n"), Reply::Item(ItemReply::WrongCount));
    assert_eq!(interpret(&mut r, "item Pizza ten y n"), Reply::Item(ItemReply::BadCost));
    assert_eq!(interpret(&mut r, "item Pizza 1000 ? n"), Reply::Item(ItemReply::BadTax));
    assert_eq!(interpret(&mut r, "item Pizza 1000 y ?"), Reply::Item(ItemReply::BadTip));
    assert_eq!(r.item_count(), 0);
    assert_eq!(interpret(&mut r, "item Pizza 1000 yes no"), Reply::Item(ItemReply::Added));
    assert_eq!(r.item_count(), 1);
    assert_eq!(r.item(0).total(), Ok(Cost::integer(1080)));
}
