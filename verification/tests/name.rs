use engage::error::ValidateName;
use engage::name::Name;

fn name(s: &str) -> Name {
    Name::from_str(s).expect("hard-coded value should be valid")
}

#[test]
fn valid_names() {
    assert_eq!(Name::validate("a"), Ok(()));
    assert_eq!(Name::validate("hello-world"), Ok(()));
    assert_eq!(Name::validate("0x1"), Ok(()));
    assert_eq!(Name::validate("a-"), Ok(()));
}

#[test]
fn empty_name() {
    assert_eq!(Name::validate(""), Err(ValidateName::Empty));
}

#[test]
fn invalid_start() {
    assert_eq!(Name::validate("-a"), Err(ValidateName::InvalidStart('-')));
    assert_eq!(Name::validate("Abc"), Err(ValidateName::InvalidStart('A')));
    assert_eq!(Name::validate("\u{e9}t\u{e9}"), Err(ValidateName::InvalidStart('\u{e9}')));
}

#[test]
fn invalid_continue() {
    assert_eq!(Name::validate("ab_c"), Err(ValidateName::InvalidContinue(2, '_')));
    assert_eq!(Name::validate("a b"), Err(ValidateName::InvalidContinue(1, ' ')));
    assert_eq!(Name::validate("abC"), Err(ValidateName::InvalidContinue(2, 'C')));
}

#[test]
fn from_str_keeps_text() {
    let n = name("hello-world");
    assert_eq!(n.as_str(), "hello-world");
    assert!(Name::from_str("Hello").is_err());
    assert!(matches!(Name::from_str(""), Err(ValidateName::Empty)));
}

#[test]
fn same_names() {
    assert!(name("a").same(&name("a")));
    assert!(!name("a").same(&name("b")));
    let c = name("abc").clone();
    assert_eq!(c.as_str(), "abc");
}
