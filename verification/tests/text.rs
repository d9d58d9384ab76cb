use engage::text::{push_decimal, push_padded, push_repeat};

#[test]
fn decimals() {
    let mut s = String::new();
    push_decimal(&mut s, 0);
    s.push(' ');
    push_decimal(&mut s, 42);
    s.push(' ');
    push_decimal(&mut s, u64::MAX);
    assert_eq!(s, "0 42 18446744073709551615");
}

#[test]
fn padding() {
    let mut s = String::from(">");
    push_repeat(&mut s, '-', 3);
    push_padded(&mut s, "ab", 5);
    push_padded(&mut s, "\u{e9}\u{e9}", 3);
    push_padded(&mut s, "long", 2);
    assert_eq!(s, ">---   ab \u{e9}\u{e9}long");
}
