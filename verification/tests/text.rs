use extraction_gym::cost::{
    add_costs, max_cost, min_cost, mul_costs, sub_costs, Cost, INFINITY, MINUS_ONE, NEG_INFINITY,
    ONE,
};
use extraction_gym::extract::ilp::options::{
    time_limit_from_seconds, time_limit_seconds, IlpOptions, TimeLimit, UnknownWarmStart, WarmStart,
};
use extraction_gym::text::{
    chars_of, contains, eq_word, next_line, parse_decimal, parse_whole, starts_with, trim, words,
    Decimal,
};

fn number(s: &str) -> Option<Decimal> {
    parse_decimal(&chars_of(s))
}

fn whole(s: &str) -> Option<i32> {
    parse_whole(&chars_of(s))
}

#[test]
fn decimals_are_read_to_the_nearest_millionth() {
    assert_eq!(number("1.5"), Some(Decimal::Finite(1_500_000)));
    assert_eq!(number("-2"), Some(Decimal::Finite(-2_000_000)));
    assert_eq!(number("+.25"), Some(Decimal::Finite(250_000)));
    assert_eq!(number("4.5e-05"), Some(Decimal::Finite(45)));
    assert_eq!(number("12e3"), Some(Decimal::Finite(12_000 * ONE)));
    assert_eq!(number("0.0000005"), Some(Decimal::Finite(1)));
    assert_eq!(number("0.0000004"), Some(Decimal::Finite(0)));
    assert_eq!(number("inf"), Some(Decimal::Infinite { negative: false }));
    assert_eq!(number("-Infinity"), Some(Decimal::Infinite { negative: true }));
    assert_eq!(number("NaN"), Some(Decimal::NotANumber));
    assert_eq!(number("1e30"), Some(Decimal::TooLarge));
    assert_eq!(number(""), None);
    assert_eq!(number("."), None);
    assert_eq!(number("1.2.3"), None);
    assert_eq!(number("Large"), None);
}

#[test]
fn whole_numbers_are_read_if_they_fit() {
    assert_eq!(whole("42"), Some(42));
    assert_eq!(whole("-7"), Some(-7));
    assert_eq!(whole("+7"), Some(7));
    assert_eq!(whole("2147483647"), Some(i32::MAX));
    assert_eq!(whole("-2147483648"), Some(i32::MIN));
    assert_eq!(whole("2147483648"), None);
    assert_eq!(whole("-2147483649"), None);
    assert_eq!(whole("99999999999999999999999"), None);
    assert_eq!(whole("000000000000000000000000012"), Some(12));
    assert_eq!(whole(""), None);
    assert_eq!(whole("-"), None);
    assert_eq!(whole("1.0"), None);
    assert_eq!(whole(" 1"), None);
}

#[test]
fn text_is_taken_apart() {
    let s = chars_of("  ab\t cd \r\nef");
    let parts: Vec<String> = words(&s).iter().map(|w| w.iter().collect()).collect();
    assert_eq!(parts, vec!["ab", "cd", "ef"]);
    let trimmed: String = trim(&s).iter().collect();
    assert_eq!(trimmed, "ab\t cd \r\nef");
    let (line, next) = next_line(&s, 0);
    let line: String = line.iter().collect();
    assert_eq!(line, "  ab\t cd ");
    let (line, _) = next_line(&s, next);
    let line: String = line.iter().collect();
    assert_eq!(line, "ef");
    assert!(starts_with(&chars_of("abc"), &chars_of("ab")));
    assert!(!starts_with(&chars_of("a"), &chars_of("ab")));
    assert!(contains(&chars_of("xaby"), &chars_of("ab")));
    assert!(!contains(&chars_of("xay"), &chars_of("ab")));
    assert!(eq_word(&chars_of("InF"), &chars_of("inf")));
}

#[test]
fn sums_saturate_and_infinity_absorbs() {
    assert_eq!(add_costs(ONE, 2 * ONE), 3 * ONE);
    assert_eq!(add_costs(INFINITY, MINUS_ONE), INFINITY);
    assert_eq!(add_costs(INFINITY - 1, INFINITY - 1), INFINITY);
    assert_eq!(add_costs(NEG_INFINITY, MINUS_ONE), NEG_INFINITY);
    assert_eq!(sub_costs(ONE, 3 * ONE), -2 * ONE);
    assert_eq!(sub_costs(INFINITY, 5), INFINITY);
    assert_eq!(mul_costs(1_500_000, 2 * ONE), 3 * ONE);
    assert_eq!(mul_costs(-1, 1), -1);
    assert_eq!(mul_costs(INFINITY, INFINITY), INFINITY);
    assert_eq!(max_cost(1, 2), 2);
    assert_eq!(min_cost(1, 2), 1);
    let a: Cost = 7;
    assert!(a <= add_costs(3, a));
}

#[test]
fn warm_starts_have_names() {
    assert_eq!(WarmStart::parse(" GREEDY "), Ok(WarmStart::Greedy));
    assert_eq!(WarmStart::parse("off"), Ok(WarmStart::Off));
    assert_eq!(WarmStart::parse("maybe"), Err(UnknownWarmStart));
    for w in [WarmStart::Off, WarmStart::Initial, WarmStart::Greedy] {
        assert_eq!(WarmStart::parse(w.as_str()), Ok(w));
    }
    assert_eq!(WarmStart::Off.as_str(), "none");
    assert_eq!(WarmStart::default(), WarmStart::Initial);
}

#[test]
fn time_limits_are_rounded_up_to_seconds() {
    assert_eq!(time_limit_seconds(None), u32::MAX);
    assert_eq!(time_limit_seconds(Some(TimeLimit { secs: 2, nanos: 1 })), 3);
    assert_eq!(time_limit_seconds(Some(TimeLimit { secs: 2, nanos: 0 })), 2);
    assert_eq!(time_limit_seconds(Some(TimeLimit { secs: u64::MAX, nanos: 0 })), u32::MAX);
    for s in [0, 1, 17, u32::MAX - 1, u32::MAX] {
        assert_eq!(time_limit_seconds(time_limit_from_seconds(s)), s);
    }
    let options = IlpOptions::default();
    assert_eq!(options.time_limit_seconds(), 10);
    assert_eq!(options.threads, 1);
    assert_eq!(options.warm_start, WarmStart::Initial);
    let options = options
        .with_time_limit(TimeLimit { secs: 60, nanos: 0 })
        .with_warm_start(WarmStart::Greedy);
    assert_eq!(options.time_limit_seconds(), 60);
    assert_eq!(options.warm_start, WarmStart::Greedy);
}
