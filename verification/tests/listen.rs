use forkstify::engine::{genre_tags, segment_of, shared_tags};
use forkstify::catalog::Card;
use forkstify::home::{age, Scope, Sort};
use forkstify::listen::{abridged_body, comfort_word, featuring, try_featuring};
use forkstify::webapi::urlencoding;

/// The confirmation shows two new cards and counts the rest; the edited
/// cards stay whole.
#[test]
fn the_confirmation_abridges_the_new_cards_only() {
    let body = "## New cards (4) — pipeline output, nothing to read\n\n- a · generated\n- b · generated\n- c · generated\n- d · generated\n\n## Edited cards (2) — please read\n\n- x +1 −0 · tops\n  source: listening\n- y +2 −1 · member\n\nForkstify: proposal 0.1.0\n";
    let lines = abridged_body(body);
    let text = lines.join("\n");
    assert!(text.contains("- a · generated\n- b · generated\n… 2 more, one line each"), "{text}");
    assert!(!text.contains("- c"), "{text}");
    assert!(text.contains("- x +1 −0 · tops\n  source: listening\n- y +2 −1 · member"), "{text}");
    assert!(text.ends_with("Forkstify: proposal 0.1.0"), "{text}");
}

#[test]
fn the_dial_has_words() {
    assert_eq!(comfort_word(5), "cocoon");
    assert_eq!(comfort_word(3), "balanced");
    assert_eq!(comfort_word(0), "exploration");
    assert_eq!(comfort_word(9), "exploration");
}

#[test]
fn a_title_credits_its_guests() {
    assert_eq!(featuring("Señorita feat. Khalid").as_deref(), Some("Khalid"));
    assert_eq!(featuring("Señorita (feat. Khalid)"), None);
    assert_eq!(featuring("Get Lucky ft. Pharrell Williams").as_deref(), Some("Pharrell Williams"));
    assert_eq!(featuring("Stay With Me").as_deref(), Some("Me"));
    assert_eq!(featuring("Stay"), None);
    assert_eq!(featuring("Dance with [Someone]").as_deref(), Some("Someone"));
    assert_eq!(try_featuring("Alone"), Some(None));
}

fn card(tags: &[&str]) -> Card {
    Card { name: "x".into(), tags: tags.iter().map(|t| t.to_string()).collect(), tops: vec![], doors: vec![], links: vec![] }
}

#[test]
fn countries_and_decades_are_no_genre() {
    let c = card(&["post-punk", "uk", "80s", "2010s", "s", "new wave", "UK"]);
    assert_eq!(genre_tags(&c), vec!["post-punk", "new wave"]);
    assert_eq!(shared_tags(&c, &card(&["uk", "post-punk"])), vec!["post-punk", "uk"]);
}

#[test]
fn the_last_segment_of_the_playlist() {
    let axis: Vec<(String, bool)> = vec![
        ("the-cure".into(), false),
        ("siouxsie".into(), true),
        ("nobody".into(), false),
        ("joy-division".into(), false),
        ("siouxsie".into(), false),
        ("bauhaus".into(), false),
    ];
    let known: Vec<bool> = axis.iter().map(|(s, _)| s != "nobody").collect();
    assert_eq!(segment_of(&axis, &known), vec!["siouxsie", "joy-division", "bauhaus"]);
    let plain: Vec<(String, bool)> = vec![("the-cure".into(), false), ("siouxsie".into(), false)];
    assert_eq!(segment_of(&plain, &vec![true, true]), vec!["the-cure", "siouxsie"]);
}

#[test]
fn how_long_ago_in_a_few_characters() {
    assert_eq!(age(None), "never");
    assert_eq!(age(Some(0)), "today");
    assert_eq!(age(Some(1)), "yday");
    assert_eq!(age(Some(9)), "-9d");
    assert_eq!(age(Some(30)), "-4w");
    assert_eq!(age(Some(90)), "-3mo");
    assert_eq!(age(Some(800)), "-2y");
    assert_eq!(age(Some(-2)), "--2d");
    assert!(Sort::Familiarity.next().next().next() == Sort::Familiarity);
    assert_eq!(Sort::LastPlayed.label(), "last played");
    assert!(Scope::Liked.next() == Scope::All);
    assert_eq!(Scope::All.label(), "all");
}

#[test]
fn a_query_is_percent_encoded() {
    assert_eq!(urlencoding("Sigur Rós"), "Sigur%20R%C3%B3s");
    assert_eq!(urlencoding("a-b_c.d~e"), "a-b_c.d~e");
}

use forkstify::keys::Cmd;
use forkstify::listen::{colon_command, drawn_note, keeps_overlay, on_link_key, overlay_scroll, Colon, LinkPending, LinkStep};

#[test]
fn a_long_block_scrolls_within_its_bounds() {
    assert_eq!(overlay_scroll(&Cmd::Down, 3, 10), Some(4));
    assert_eq!(overlay_scroll(&Cmd::Down, 10, 10), Some(10));
    assert_eq!(overlay_scroll(&Cmd::Up, 0, 10), Some(0));
    assert_eq!(overlay_scroll(&Cmd::Unknown("j".into()), 2, 10), Some(3));
    assert_eq!(overlay_scroll(&Cmd::Unknown("k".into()), 2, 10), Some(1));
    assert_eq!(overlay_scroll(&Cmd::Bottom, 2, 10), Some(10));
    assert_eq!(overlay_scroll(&Cmd::Top, 7, 10), Some(0));
    assert_eq!(overlay_scroll(&Cmd::Unknown("x".into()), 2, 10), None);
    assert_eq!(overlay_scroll(&Cmd::Quit, 2, 10), None);
}

#[test]
fn the_block_falls_at_the_next_gesture_but_the_helper_and_a_colon_line() {
    assert!(keeps_overlay(&Cmd::Pending("f".into()), false));
    assert!(keeps_overlay(&Cmd::Help(None), false));
    assert!(keeps_overlay(&Cmd::Typing(Some(":catalog".into())), false));
    assert!(!keeps_overlay(&Cmd::Typing(Some("/bowie".into())), false));
    assert!(keeps_overlay(&Cmd::Down, false));
    assert!(!keeps_overlay(&Cmd::Down, true));
    assert!(!keeps_overlay(&Cmd::Quit, false));
}

fn link(drawn: bool) -> LinkPending {
    LinkPending {
        from_slug: "the-cure".into(),
        from_name: "The Cure".into(),
        to_slug: "low".into(),
        to_name: "Low".into(),
        proximity: 3,
        drawn,
    }
}

#[test]
fn a_connection_waits_for_its_closeness() {
    let mut pending = link(false);
    assert!(matches!(on_link_key(&mut pending, &Cmd::Digit(4)), LinkStep::Write(4)));
    assert!(matches!(on_link_key(&mut pending, &Cmd::Next), LinkStep::Moved));
    assert!(matches!(on_link_key(&mut pending, &Cmd::Next), LinkStep::Moved));
    assert!(matches!(on_link_key(&mut pending, &Cmd::Next), LinkStep::Moved));
    assert_eq!(pending.proximity, 5);
    assert!(matches!(on_link_key(&mut pending, &Cmd::Auto), LinkStep::Write(5)));
    for _ in 0..6 {
        on_link_key(&mut pending, &Cmd::Prev);
    }
    assert_eq!(pending.proximity, 1);
    match on_link_key(&mut pending, &Cmd::Escape) {
        LinkStep::Dropped(said) => assert_eq!(said, "(connection dropped, nothing drawn)"),
        _ => panic!("esc drops the question"),
    }
    match on_link_key(&mut pending, &Cmd::Digit(7)) {
        LinkStep::Hint(said) => assert_eq!(said, "(h l move, a digit jumps · ⏎ · x · esc)"),
        _ => panic!("a digit out of range says the keys"),
    }
    let mut drawn = link(true);
    assert!(matches!(on_link_key(&mut drawn, &Cmd::Remove), LinkStep::Undraw));
    match on_link_key(&mut drawn, &Cmd::Escape) {
        LinkStep::Dropped(said) => assert_eq!(said, "(connection left as it was)"),
        _ => panic!("esc leaves a drawn connection"),
    }
}

#[test]
fn the_question_says_which_end_is_which() {
    assert_eq!(
        link(false).question(),
        "→ The Cure → Low — how close? 3 · h l move · 1 farthest, a distant echo … 5 closest, almost the same universe · ⏎ draws it · esc draws nothing"
    );
    assert!(link(true).question().ends_with("⏎ sets it · x undraws · esc leaves it"));
    assert_eq!(drawn_note(true, "Low", 4), "yours → Low — closeness 4");
    assert_eq!(drawn_note(false, "Low", 2), "yours ← Low — closeness 2, drawn from there");
}

#[test]
fn a_colon_line_names_its_command() {
    assert!(matches!(colon_command("size 4"), Colon::Size(4)));
    assert!(matches!(colon_command("size 12"), Colon::SizeBad));
    assert!(matches!(colon_command("size x"), Colon::SizeBad));
    assert!(matches!(colon_command("size"), Colon::SizeShow));
    assert!(matches!(colon_command("comfort 5"), Colon::Comfort(5)));
    assert!(matches!(colon_command("comfort 6"), Colon::ComfortBad));
    assert!(matches!(colon_command("  comfort  "), Colon::ComfortShow));
    match colon_command("wander  Cat   Power ") {
        Colon::Wander(name) => assert_eq!(name, "Cat Power"),
        _ => panic!("wander names its artist"),
    }
    match colon_command("wander") {
        Colon::Wander(name) => assert_eq!(name, ""),
        _ => panic!("wander alone wanders far"),
    }
    match colon_command(" search david bowie ") {
        Colon::Search(text) => assert_eq!(text, "david bowie"),
        _ => panic!(":search fills the modal"),
    }
    match colon_command("generate Cat Power") {
        Colon::Generate(rest) => assert_eq!(rest, " Cat Power"),
        _ => panic!(":generate takes the rest"),
    }
    assert!(matches!(colon_command("generate"), Colon::GenerateUsage));
    assert!(matches!(colon_command("push"), Colon::Sync));
    assert!(matches!(colon_command("catalog"), Colon::CatalogStatus));
    assert!(matches!(colon_command("catalog propose"), Colon::CatalogGesture('p')));
    match colon_command("catalog fork git@github.com:me/forkstify-catalog.git") {
        Colon::CatalogFork(Some(url)) => assert_eq!(url, "git@github.com:me/forkstify-catalog.git"),
        _ => panic!(":catalog fork takes a url"),
    }
    assert!(matches!(colon_command("catalog fork"), Colon::CatalogFork(None)));
    match colon_command("catalog pull") {
        Colon::CatalogOther(word) => assert_eq!(word, "pull"),
        _ => panic!("an unknown catalog word is said"),
    }
    match colon_command("teleport now") {
        Colon::Unknown(word) => assert_eq!(word, "teleport"),
        _ => panic!("an unknown command is said"),
    }
    assert!(matches!(colon_command("   "), Colon::Nothing));
}
