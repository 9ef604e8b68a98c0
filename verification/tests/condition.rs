use realgeopolitics::condition::{parse_condition, tokenize, Token};

fn number(text: &str) -> String {
    Token::Number(text.to_string()).describe()
}

#[test]
fn numbers_are_shown_as_floats_are_printed() {
    assert_eq!(number("50"), "Number(50.0)");
    assert_eq!(number("1.50"), "Number(1.5)");
    assert_eq!(number("050"), "Number(50.0)");
    assert_eq!(number("0"), "Number(0.0)");
    assert_eq!(number("000.000"), "Number(0.0)");
    assert_eq!(number(".5"), "Number(0.5)");
    assert_eq!(number("5."), "Number(5.0)");
    assert_eq!(number("123.456"), "Number(123.456)");
    assert_eq!(number("0.0001"), "Number(0.0001)");
    assert_eq!(number("0.00001"), "Number(1e-5)");
    assert_eq!(number("0.000015"), "Number(1.5e-5)");
    assert_eq!(number("10000000000000000"), "Number(1e16)");
    assert_eq!(number("1234567890123456"), "Number(1234567890123456.0)");
    assert_eq!(number("120000000000000000"), "Number(1.2e17)");
    for text in ["50", "1.50", "0.00001", "123.456", "10000000000000000"] {
        let value: f64 = text.parse().unwrap();
        assert_eq!(number(text), format!("Number({:?})", value));
    }
}

#[test]
fn unexpected_number_is_reported_as_a_float() {
    let error = parse_condition("50 > approval").expect_err("a number cannot start a comparison");
    assert_eq!(error.message(), "予期しないトークン Number(50.0) が出現しました");
}

#[test]
fn tokenize_accepts_only_condition_tokens() {
    for ok in ["approval >= 40 && (gdp < 1.5% || debt_ratio != 60)", "", "  \t", "a<=b"] {
        assert!(tokenize(ok).is_ok(), "{ok}");
    }
    for bad in ["a & b", "a | b", "approval = 5", "!x", "approval > -5", "gdp # 1", "1.2.3"] {
        assert!(tokenize(bad).is_err(), "{bad}");
    }
}
