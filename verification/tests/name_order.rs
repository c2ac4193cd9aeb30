use ethabi::name_order::{compare_names, NameOrder};

#[test]
fn equal_names_are_the_same() {
    assert_eq!(compare_names("", ""), NameOrder::Same);
    assert_eq!(compare_names("transfer", "transfer"), NameOrder::Same);
}

#[test]
fn prefix_comes_first() {
    assert_eq!(compare_names("", "a"), NameOrder::Before);
    assert_eq!(compare_names("a", ""), NameOrder::After);
    assert_eq!(compare_names("transfer", "transferFrom"), NameOrder::Before);
    assert_eq!(compare_names("transferFrom", "transfer"), NameOrder::After);
}

#[test]
fn first_difference_decides() {
    assert_eq!(compare_names("abc", "abd"), NameOrder::Before);
    assert_eq!(compare_names("abd", "abc"), NameOrder::After);
    assert_eq!(compare_names("b", "abc"), NameOrder::After);
    assert_eq!(compare_names("Z", "a"), NameOrder::Before);
}

#[test]
fn code_points_decide_beyond_ascii() {
    assert_eq!(compare_names("z", "\u{e9}"), NameOrder::Before);
    assert_eq!(compare_names("\u{e9}", "\u{4e2d}"), NameOrder::Before);
    assert_eq!(compare_names("\u{1f600}", "\u{ffff}"), NameOrder::After);
    assert_eq!(compare_names("a\u{e9}", "a\u{e9}"), NameOrder::Same);
}

#[test]
fn order_agrees_with_the_order_of_strings() {
    let names = ["", "a", "A", "ab", "b", "transfer", "Transfer", "\u{e9}", "z", "\u{1f600}", "zz"];
    for a in names {
        for b in names {
            let expected = if a < b {
                NameOrder::Before
            } else if a == b {
                NameOrder::Same
            } else {
                NameOrder::After
            };
            assert_eq!(compare_names(a, b), expected);
        }
    }
}
