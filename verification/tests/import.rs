use forkstify::import::{import_message, listing, missing_cards, remote_name};

#[test]
fn the_remote_takes_the_owners_name() {
    assert_eq!(remote_name("git@github.com:untel/forkstify-catalog.git"), "untel");
    assert_eq!(remote_name("https://github.com/untel/forkstify-catalog"), "untel");
    assert_eq!(remote_name("https://github.com/untel/forkstify-catalog.git/"), "untel");
    assert_eq!(remote_name("truc"), "autre");
}

#[test]
fn an_odd_owner_makes_a_valid_remote() {
    assert_eq!(remote_name("https://host/un.tel/repo"), "un-tel");
}

#[test]
fn only_what_is_missing_comes_sorted() {
    let theirs: Vec<String> = vec!["cards/b.toml".into(), "cards/a.toml".into(), "cards/c.toml".into(), "cards/a.toml".into()];
    let ours: Vec<String> = vec!["cards/c.toml".into()];
    assert_eq!(missing_cards(&theirs, &ours), vec!["cards/a.toml", "cards/b.toml"]);
    assert!(missing_cards(&ours, &ours).is_empty());
}

#[test]
fn the_listing_stops_at_twelve() {
    let missing: Vec<String> = (0..14).map(|i| format!("cards/artist-{i:02}.toml")).collect();
    let lines = listing(&missing);
    assert_eq!(lines.len(), 13);
    assert_eq!(lines[0], "  artist-00");
    assert_eq!(lines[12], "  … and 2 more");
    assert_eq!(import_message(14, "untel"), "import: 14 cards from untel");
}
