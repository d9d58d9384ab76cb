use engage::report::{fmt_body, fmt_entry, fmt_header, Numbering};

#[test]
fn numbering_follows_the_chain_of_causes() {
    let mut n = Numbering::new();
    // Root error.
    let (sep, chain) = n.visit();
    assert!(!sep);
    assert_eq!(chain, vec![1]);
    assert_eq!(fmt_header(&chain), "Error #1");
    // Its two children.
    n.push();
    let (sep, chain) = n.visit();
    assert!(sep);
    assert_eq!(chain, vec![2, 1]);
    assert_eq!(fmt_header(&chain), "Error #2 (which caused #1)");
    n.push();
    let (_, chain) = n.visit();
    assert_eq!(chain, vec![3, 2, 1]);
    assert_eq!(fmt_header(&chain), "Error #3 (which caused #2, causing #1)");
    n.pop();
    let (_, chain) = n.visit();
    assert_eq!(chain, vec![4, 1]);
    n.pop();
    // A second root error.
    let (sep, chain) = n.visit();
    assert!(sep);
    assert_eq!(chain, vec![5]);
}

#[test]
fn body() {
    assert_eq!(fmt_body("it broke", None, None), "Description: it broke");
    assert_eq!(fmt_body("it broke", Some("fix it"), None), "Description: it broke\nHelp: fix it");
    assert_eq!(
        fmt_body("it broke", Some("fix it"), Some("again")),
        "Description: it broke\nHelp: fix it\nNote: again"
    );
    assert_eq!(fmt_body("x", None, Some("n")), "Description: x\nNote: n");
}

#[test]
fn numbering_gives_each_visit_the_next_number() {
    // A depth-first walk of: 1 (2 (3, 4), 5 (6)), 7.
    let mut n = Numbering::new();
    assert_eq!(n.visit().1, vec![1]);
    n.push();
    assert_eq!(n.visit().1, vec![2, 1]);
    n.push();
    assert_eq!(n.visit().1, vec![3, 2, 1]);
    assert_eq!(n.visit().1, vec![4, 2, 1]);
    n.pop();
    assert_eq!(n.visit().1, vec![5, 1]);
    n.push();
    assert_eq!(n.visit().1, vec![6, 5, 1]);
    n.pop();
    n.pop();
    assert_eq!(n.visit().1, vec![7]);
}

#[test]
fn entries_of_a_chain_of_causes() {
    let e = "empty string is not a valid name";
    let mut n = Numbering::new();
    let mut out = String::new();
    for depth in 0..3 {
        if depth > 0 {
            n.push();
        }
        let (sep, chain) = n.visit();
        out.push_str(&fmt_entry(sep, &chain, e, None, None));
    }
    assert_eq!(
        out,
        format!(
            "Error #1\nDescription: {e}\n\nError #2 (which caused #1)\nDescription: {e}\n\nError #3 (which caused #2, causing #1)\nDescription: {e}"
        )
    );
}

#[test]
fn entry_with_help_and_note() {
    assert_eq!(
        fmt_entry(true, &vec![4, 1], "d", Some("h"), Some("n")),
        "\n\nError #4 (which caused #1)\nDescription: d\nHelp: h\nNote: n"
    );
}
