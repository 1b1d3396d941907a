use dot_path::selector::{Reach, Segment, Selector, SelectorError};
use dot_path::selector::Segment::{Any, Key, Name, Number};

fn segments(expression: &str) -> Vec<Segment> {
    Selector::parse(expression)
        .expect("parses")
        .segments()
        .to_vec()
}

#[test]
fn parses_the_four_segment_kinds() {
    assert_eq!(
        segments("order.customer.name"),
        vec![
            Name("order".into()),
            Name("customer".into()),
            Name("name".into())
        ]
    );
    assert_eq!(
        segments("orders[0].id"),
        vec![Name("orders".into()), Number(0), Name("id".into())]
    );
    assert_eq!(
        segments("orders[n].id"),
        vec![Name("orders".into()), Any, Name("id".into())]
    );
    assert_eq!(
        segments("headers['desired.Property']"),
        vec![Name("headers".into()), Key("desired.Property".into())]
    );
    assert_eq!(
        segments("envelope.body.items[3]['sku']"),
        vec![
            Name("envelope".into()),
            Name("body".into()),
            Name("items".into()),
            Number(3),
            Key("sku".into())
        ]
    );
    assert_eq!(segments("[0][n]"), vec![Number(0), Any]);
}

#[test]
fn declares_how_far_it_reaches() {
    let reach = |e: &str| Selector::parse(e).expect("parses").reach();
    assert_eq!(reach("order.customer['name']"), Reach::StreamPrefix);
    assert_eq!(reach("orders[n].id"), Reach::StreamScan);
    assert_eq!(reach("orders[0][n].id"), Reach::StreamScan);
    assert_eq!(reach("orders[0].id"), Reach::MaterializedSection);
    assert_eq!(Reach::StreamPrefix.to_string(), "stream-prefix");
    assert_eq!(Reach::StreamScan.to_string(), "stream-scan");
    assert_eq!(
        Reach::MaterializedSection.to_string(),
        "materialized-section"
    );
}

#[test]
fn refuses_what_is_not_a_selector() {
    for bad in [
        "",
        ".order",
        "order.",
        "order..id",
        "orders[0]id",
        "orders[",
        "orders[x]",
        "orders[-1]",
        "orders['a'b']",
        "orders[']",
        "or]der",
    ] {
        assert!(Selector::parse(bad).is_err(), "{bad:?} should be refused");
    }
}

#[test]
fn names_the_reason_of_each_refusal() {
    let why = |e: &str| Selector::parse(e).expect_err("refused");
    assert_eq!(why(""), SelectorError::Empty);
    assert_eq!(why(".order"), SelectorError::StartsWithDot);
    assert_eq!(why("orders[0]id"), SelectorError::NameFollowsBracket);
    assert_eq!(why("order."), SelectorError::EmptyName);
    assert_eq!(why("order..id"), SelectorError::EmptyName);
    assert_eq!(why("a.[0]"), SelectorError::EmptyName);
    assert_eq!(why("or]der"), SelectorError::NotAName { from: 0, to: 6 });
    assert_eq!(why("a.b'c"), SelectorError::NotAName { from: 2, to: 5 });
    assert_eq!(why("orders["), SelectorError::NeverClosed);
    assert_eq!(why("orders['a"), SelectorError::NeverClosed);
    assert_eq!(why("orders[x]"), SelectorError::NotABracket { from: 7, to: 8 });
    assert_eq!(why("orders[-1]"), SelectorError::NotABracket { from: 7, to: 9 });
    assert_eq!(why("orders['a'b']"), SelectorError::NotABracket { from: 7, to: 12 });
    assert_eq!(why("orders[']"), SelectorError::NotABracket { from: 7, to: 8 });
    assert_eq!(why("a[]"), SelectorError::NotABracket { from: 2, to: 2 });
    assert_eq!(why("a[+]"), SelectorError::NotABracket { from: 2, to: 3 });
    assert_eq!(why("a[1 ]"), SelectorError::NotABracket { from: 2, to: 4 });
    // The first refusal wins, reading from the left.
    assert_eq!(why("a[x].b.."), SelectorError::NotABracket { from: 2, to: 3 });
}

#[test]
fn an_ordinal_is_digits_only() {
    assert_eq!(segments("a[007]"), vec![Name("a".into()), Number(7)]);
    assert_eq!(
        segments("a[18446744073709551615]"),
        vec![Name("a".into()), Number(usize::MAX)]
    );
    assert!(Selector::parse("a[18446744073709551616]").is_err());
    assert_eq!(
        Selector::parse("orders[+1]").expect_err("refused"),
        SelectorError::NotABracket { from: 7, to: 9 }
    );
    assert!(Selector::parse("a[++5]").is_err());
    assert!(Selector::parse("a[ 5]").is_err());
    assert!(Selector::parse("a[5x]").is_err());
}

#[test]
fn keys_may_hold_what_names_may_not() {
    assert_eq!(
        segments("a['x.y[z']"),
        vec![Name("a".into()), Key("x.y[z".into())]
    );
    assert_eq!(segments("a['']"), vec![Name("a".into()), Key("".into())]);
    assert_eq!(segments("a['n']"), vec![Name("a".into()), Key("n".into())]);
    assert_eq!(segments("ä.ö"), vec![Name("ä".into()), Name("ö".into())]);
    assert_eq!(segments("[n]"), vec![Any]);
}

#[test]
fn an_accepted_selector_has_a_segment() {
    for good in ["a", "[0]", "['k']", "[n]", "a.b[1]['c'][n].d"] {
        assert!(!Selector::parse(good).expect("parses").segments().is_empty());
    }
}

#[test]
fn reach_goes_by_the_strongest_step() {
    let reach = |e: &str| Selector::parse(e).expect("parses").reach();
    assert_eq!(reach("a"), Reach::StreamPrefix);
    assert_eq!(reach("['k']"), Reach::StreamPrefix);
    assert_eq!(reach("[3]"), Reach::MaterializedSection);
    assert_eq!(reach("[n][3]"), Reach::StreamScan);
    assert_eq!(reach("[3][n]"), Reach::StreamScan);
}
