use artist_works::table::{sort_works, ArtistWorksTable, Table};

fn list(titles: &[&str]) -> Vec<String> {
    titles.iter().map(|t| t.to_string()).collect()
}

fn three_artists() -> Table {
    let mut table = Table::new();
    table.insert(
        "Gesualdo".to_string(),
        list(&["many madrigals", "Tenebrae Responsoria"]),
    );
    table.insert(
        "Caravaggio".to_string(),
        list(&["The Musitians", "The Calling of St. Matthew"]),
    );
    table.insert(
        "Cellini".to_string(),
        list(&["Peres with the head of Medusa", "a salt cellar"]),
    );
    table
}

#[test]
fn new_table_is_empty() {
    let table = ArtistWorksTable::new();
    assert_eq!(table.len(), 0);
    assert!(table.get("Gesualdo").is_none());
    assert_eq!(table.display(), "");
}

#[test]
fn first_work_before_and_after_sorting() {
    let mut table = three_artists();
    assert_eq!(table.get("Gesualdo").unwrap()[0], "many madrigals");
    sort_works(&mut table);
    assert_eq!(table.get("Gesualdo").unwrap()[0], "Tenebrae Responsoria");
}

#[test]
fn sorting_orders_every_list() {
    let mut table = three_artists();
    table.sort_all_works();
    assert_eq!(
        table.get("Gesualdo").unwrap(),
        &list(&["Tenebrae Responsoria", "many madrigals"])
    );
    assert_eq!(
        table.get("Caravaggio").unwrap(),
        &list(&["The Calling of St. Matthew", "The Musitians"])
    );
    assert_eq!(
        table.get("Cellini").unwrap(),
        &list(&["Peres with the head of Medusa", "a salt cellar"])
    );
    assert_eq!(table.len(), 3);
}

#[test]
fn display_shows_each_artist_with_its_works() {
    let table = three_artists();
    let expected = "works by Gesualdo:\n many madrigals\n Tenebrae Responsoria\n\
                    works by Caravaggio:\n The Musitians\n The Calling of St. Matthew\n\
                    works by Cellini:\n Peres with the head of Medusa\n a salt cellar\n";
    assert_eq!(table.display(), expected);
}

#[test]
fn display_follows_the_current_order_of_works() {
    let mut table = three_artists();
    table.sort_all_works();
    let expected = "works by Gesualdo:\n Tenebrae Responsoria\n many madrigals\n\
                    works by Caravaggio:\n The Calling of St. Matthew\n The Musitians\n\
                    works by Cellini:\n Peres with the head of Medusa\n a salt cellar\n";
    assert_eq!(table.display(), expected);
}

#[test]
fn display_leaves_the_table_as_it_was() {
    let table = three_artists();
    let first = table.display();
    let second = table.display();
    assert_eq!(first, second);
    assert_eq!(table.len(), 3);
    assert_eq!(table.get("Gesualdo").unwrap()[0], "many madrigals");
}

#[test]
fn display_of_an_artist_without_works_is_the_header() {
    let mut table = Table::new();
    table.insert("Anonymous".to_string(), Vec::new());
    assert_eq!(table.display(), "works by Anonymous:\n");
    table.sort_all_works();
    assert_eq!(table.display(), "works by Anonymous:\n");
    assert_eq!(table.get("Anonymous").unwrap().len(), 0);
}

#[test]
fn display_names_exactly_the_inserted_artists() {
    let table = three_artists();
    let text = table.display();
    let headers: Vec<&str> = text.lines().filter(|l| l.starts_with("works by ")).collect();
    let mut names: Vec<&str> = headers
        .iter()
        .map(|h| h.trim_start_matches("works by ").trim_end_matches(':'))
        .collect();
    names.sort();
    assert_eq!(names, vec!["Caravaggio", "Cellini", "Gesualdo"]);
    assert_eq!(text.lines().count(), 9);
}

#[test]
fn insert_with_a_used_key_replaces_the_works() {
    let mut table = Table::new();
    table.insert("Gesualdo".to_string(), list(&["many madrigals"]));
    table.insert("Cellini".to_string(), list(&["a salt cellar"]));
    table.insert("Gesualdo".to_string(), list(&["Tenebrae Responsoria"]));
    assert_eq!(table.len(), 2);
    assert_eq!(
        table.get("Gesualdo").unwrap(),
        &list(&["Tenebrae Responsoria"])
    );
    assert_eq!(table.get("Cellini").unwrap(), &list(&["a salt cellar"]));
    assert_eq!(
        table.display(),
        "works by Gesualdo:\n Tenebrae Responsoria\nworks by Cellini:\n a salt cellar\n"
    );
}

#[test]
fn get_of_an_unknown_artist_is_none() {
    let table = three_artists();
    assert!(table.get("Bach").is_none());
    assert!(table.get("").is_none());
    assert!(table.get("Gesualdo ").is_none());
    assert!(table.get("gesualdo").is_none());
}

#[test]
fn artists_that_differ_in_one_letter_are_distinct() {
    let mut table = Table::new();
    table.insert("Bach".to_string(), list(&["b"]));
    table.insert("Back".to_string(), list(&["k"]));
    table.insert("Bac".to_string(), list(&["c"]));
    assert_eq!(table.len(), 3);
    assert_eq!(table.get("Bach").unwrap(), &list(&["b"]));
    assert_eq!(table.get("Back").unwrap(), &list(&["k"]));
    assert_eq!(table.get("Bac").unwrap(), &list(&["c"]));
}

#[test]
fn sorting_twice_is_sorting_once() {
    let mut table = three_artists();
    table.sort_all_works();
    let once = table.display();
    table.sort_all_works();
    assert_eq!(table.display(), once);
    assert_eq!(
        table.get("Gesualdo").unwrap(),
        &list(&["Tenebrae Responsoria", "many madrigals"])
    );
}

#[test]
fn sorted_works_are_non_decreasing() {
    let mut table = Table::new();
    table.insert(
        "Mixed".to_string(),
        list(&["b", "a", "", "B", "ab", "a", "Zz", "\u{e9}t\u{e9}", "z", "\u{4e16}\u{754c}"]),
    );
    table.sort_all_works();
    let works = table.get("Mixed").unwrap();
    for pair in works.windows(2) {
        assert!(pair[0] <= pair[1]);
    }
    assert_eq!(
        works,
        &list(&["", "B", "Zz", "a", "a", "ab", "b", "z", "\u{e9}t\u{e9}", "\u{4e16}\u{754c}"])
    );
}

#[test]
fn sorting_keeps_titles_and_artists() {
    let mut table = Table::new();
    let gesualdo = list(&["many madrigals", "Tenebrae Responsoria", "many madrigals"]);
    let cellini = list(&["a salt cellar", "Peres with the head of Medusa"]);
    table.insert("Gesualdo".to_string(), gesualdo.clone());
    table.insert("Cellini".to_string(), cellini.clone());
    table.sort_all_works();
    assert_eq!(table.len(), 2);
    let mut expected = gesualdo;
    expected.sort();
    assert_eq!(table.get("Gesualdo").unwrap(), &expected);
    assert_eq!(expected.len(), 3);
    let mut expected = cellini;
    expected.sort();
    assert_eq!(table.get("Cellini").unwrap(), &expected);
    assert!(table.get("many madrigals").is_none());
}
