use artist_works::order::{precedes, same_text};
use artist_works::sorting::sort_titles;

#[test]
fn capitals_come_before_small_letters() {
    assert!(precedes("Tenebrae Responsoria", "many madrigals"));
    assert!(!precedes("many madrigals", "Tenebrae Responsoria"));
}

#[test]
fn a_title_precedes_itself() {
    assert!(precedes("a salt cellar", "a salt cellar"));
    assert!(precedes("", ""));
}

#[test]
fn a_prefix_comes_first() {
    assert!(precedes("The", "The Musitians"));
    assert!(!precedes("The Musitians", "The"));
    assert!(precedes("", "a"));
    assert!(!precedes("a", ""));
}

#[test]
fn the_first_difference_decides() {
    assert!(precedes("The Calling of St. Matthew", "The Musitians"));
    assert!(!precedes("The Musitians", "The Calling of St. Matthew"));
    assert!(precedes("abc", "abd"));
    assert!(!precedes("abd", "abc"));
    assert!(precedes("ab", "b"));
}

#[test]
fn precedes_agrees_with_the_order_of_strings() {
    let samples = [
        "", "a", "A", "ab", "b", "z", "\u{7f}", "\u{80}", "\u{e9}", "\u{7ff}", "\u{800}",
        "\u{ffff}", "\u{10000}", "\u{10ffff}", "e\u{301}", "\u{4e16}\u{754c}",
    ];
    for a in samples.iter() {
        for b in samples.iter() {
            assert_eq!(precedes(a, b), a <= b);
        }
    }
}

#[test]
fn same_text_tells_equal_from_different() {
    assert!(same_text("Gesualdo", "Gesualdo"));
    assert!(same_text("", ""));
    assert!(!same_text("Gesualdo", "Gesualdi"));
    assert!(!same_text("Gesualdo", "Gesuald"));
    assert!(!same_text("", "a"));
    assert!(same_text("\u{e9}t\u{e9}", "\u{e9}t\u{e9}"));
    assert!(!same_text("\u{e9}", "e"));
}

#[test]
fn sort_titles_orders_a_list() {
    let mut works: Vec<String> = vec![
        "many madrigals".to_string(),
        "Tenebrae Responsoria".to_string(),
    ];
    sort_titles(&mut works);
    assert_eq!(works, vec!["Tenebrae Responsoria", "many madrigals"]);
}

#[test]
fn sort_titles_keeps_duplicates() {
    let mut works: Vec<String> = vec!["b", "a", "b", "a", "c", "a"]
        .into_iter()
        .map(|t| t.to_string())
        .collect();
    sort_titles(&mut works);
    assert_eq!(works, vec!["a", "a", "a", "b", "b", "c"]);
}

#[test]
fn sort_titles_on_empty_and_single_lists() {
    let mut none: Vec<String> = Vec::new();
    sort_titles(&mut none);
    assert!(none.is_empty());
    let mut one: Vec<String> = vec!["only".to_string()];
    sort_titles(&mut one);
    assert_eq!(one, vec!["only"]);
}

#[test]
fn sort_titles_leaves_a_sorted_list_unchanged() {
    let mut works: Vec<String> = vec!["A", "B", "a", "b"]
        .into_iter()
        .map(|t| t.to_string())
        .collect();
    let before = works.clone();
    sort_titles(&mut works);
    assert_eq!(works, before);
}

#[test]
fn sort_titles_reverses_a_descending_list() {
    let mut works: Vec<String> = vec!["e", "d", "c", "b", "a"]
        .into_iter()
        .map(|t| t.to_string())
        .collect();
    sort_titles(&mut works);
    assert_eq!(works, vec!["a", "b", "c", "d", "e"]);
}
