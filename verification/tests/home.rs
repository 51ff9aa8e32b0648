use forkstify::engine::Comfort;
use forkstify::home::{choices_of, collection, entries, CardLine, Choice, Door, Entry, Home, LastSession, Outcome, RankedLine, Scope, Sort};
use forkstify::keys::Cmd;

fn listing() -> Vec<(Option<String>, String)> {
    vec![
        (Some("the-cure".to_string()), "The Cure".to_string()),
        (None, "Kanye West".to_string()),
        (Some("low".to_string()), "Low".to_string()),
    ]
}

fn choices() -> Vec<Choice> {
    vec![
        Choice::Artist("the-cure".to_string()),
        Choice::Track { slug: "low".to_string(), title: "Words".to_string() },
    ]
}

fn key(home: &mut Home, cmd: Cmd, comfort: &mut Comfort, live: bool) -> Outcome {
    home.on_cmd(cmd, &listing(), &choices(), comfort, live, None)
}

#[test]
fn a_digit_starts_its_entry() {
    let mut home = Home::default();
    let mut comfort = Comfort::new(3);
    match key(&mut home, Cmd::Digit(2), &mut comfort, false) {
        Outcome::Start(Choice::Track { slug, title }) => assert_eq!((slug.as_str(), title.as_str()), ("low", "Words")),
        _ => panic!("the second entry starts"),
    }
    assert!(matches!(key(&mut home, Cmd::Digit(7), &mut comfort, false), Outcome::Stay));
    assert_eq!(home.take_said().as_deref(), Some("(no entry 7)"));
    assert_eq!(home.take_said(), None);
}

#[test]
fn enter_starts_the_highlighted_line_or_lets_the_session_draw() {
    let mut home = Home::default();
    let mut comfort = Comfort::new(3);
    assert!(matches!(key(&mut home, Cmd::Auto, &mut comfort, false), Outcome::Draw));
    key(&mut home, Cmd::Down, &mut comfort, false);
    assert_eq!(home.cursor, Some(0));
    match key(&mut home, Cmd::Auto, &mut comfort, false) {
        Outcome::Start(Choice::Artist(slug)) => assert_eq!(slug, "the-cure"),
        _ => panic!("the highlighted artist starts"),
    }
    key(&mut home, Cmd::Down, &mut comfort, false);
    // no card: the session generates one
    match key(&mut home, Cmd::Auto, &mut comfort, false) {
        Outcome::Generate(name) => assert_eq!(name, "Kanye West"),
        _ => panic!("an artist without a card is generated"),
    }
}

#[test]
fn the_cursor_stays_on_a_line() {
    let mut home = Home::default();
    let mut comfort = Comfort::new(3);
    key(&mut home, Cmd::Up, &mut comfort, false);
    assert_eq!(home.cursor, Some(0));
    for _ in 0..5 {
        key(&mut home, Cmd::Down, &mut comfort, false);
    }
    assert_eq!(home.cursor, Some(2));
    key(&mut home, Cmd::Top, &mut comfort, false);
    assert_eq!(home.cursor, Some(0));
    key(&mut home, Cmd::Bottom, &mut comfort, false);
    assert_eq!(home.cursor, Some(2));
}

#[test]
fn a_taste_gesture_is_the_sessions_then_the_cursor_stays_on_a_line() {
    let mut home = Home::default();
    let mut comfort = Comfort::new(3);
    assert!(matches!(key(&mut home, Cmd::Artist('l'), &mut comfort, false), Outcome::Stay));
    assert_eq!(home.take_said().as_deref(), Some("(nothing highlighted — ↑↓ to choose)"));
    key(&mut home, Cmd::Bottom, &mut comfort, false);
    key(&mut home, Cmd::Up, &mut comfort, false);
    match key(&mut home, Cmd::Artist('b'), &mut comfort, false) {
        Outcome::Taste { key, slug, name } => {
            assert_eq!(key, 'b');
            // no card: the slug the card would have
            assert_eq!(slug, "kanye-west");
            assert_eq!(name, "Kanye West");
        }
        _ => panic!("a ban is the session's"),
    }
    home.after_taste("⊘ Kanye West — never again".to_string(), 1);
    assert_eq!(home.cursor, Some(0));
    assert_eq!(home.take_said().as_deref(), Some("⊘ Kanye West — never again"));
    home.after_taste(String::new(), 0);
    assert_eq!(home.cursor, None);
}

#[test]
fn the_other_artist_gestures_go_to_the_session() {
    let mut home = Home::default();
    let mut comfort = Comfort::new(3);
    key(&mut home, Cmd::Top, &mut comfort, false);
    match key(&mut home, Cmd::Artist('d'), &mut comfort, false) {
        Outcome::Explore { slug, name } => assert_eq!((slug.as_str(), name.as_str()), ("the-cure", "The Cure")),
        _ => panic!("ad opens the discography"),
    }
    key(&mut home, Cmd::Down, &mut comfort, false);
    match key(&mut home, Cmd::Artist('g'), &mut comfort, false) {
        Outcome::Artist { key, slug, name } => {
            assert_eq!(key, 'g');
            assert_eq!(slug, None);
            assert_eq!(name, "Kanye West");
        }
        _ => panic!("ag is the session's"),
    }
}

#[test]
fn esc_clears_the_filter_then_the_cursor_then_goes_back() {
    let mut home = Home::default();
    let mut comfort = Comfort::new(3);
    key(&mut home, Cmd::Search("  cure ".to_string()), &mut comfort, true);
    assert_eq!(home.filter, "cure");
    assert_eq!(home.cursor, Some(0));
    assert!(matches!(key(&mut home, Cmd::Escape, &mut comfort, true), Outcome::Stay));
    assert_eq!(home.filter, "");
    assert_eq!(home.cursor, None);
    assert!(matches!(key(&mut home, Cmd::Escape, &mut comfort, true), Outcome::Back));
    // with no session to go back to, esc does nothing more
    assert!(matches!(key(&mut home, Cmd::Escape, &mut comfort, false), Outcome::Stay));
}

#[test]
fn the_comfort_and_the_command_line() {
    let mut home = Home::default();
    let mut comfort = Comfort::new(3);
    key(&mut home, Cmd::Comfort(5), &mut comfort, false);
    assert_eq!(comfort.value(), 5);
    assert_eq!(home.take_said().as_deref(), Some("comfort 5 — cocoon"));
    key(&mut home, Cmd::Colon("comfort 1".to_string()), &mut comfort, false);
    assert_eq!(comfort.value(), 1);
    key(&mut home, Cmd::Colon("comfort 9".to_string()), &mut comfort, false);
    assert_eq!(comfort.value(), 1);
    match key(&mut home, Cmd::Colon(" search  low  ".to_string()), &mut comfort, false) {
        Outcome::Find(text) => assert_eq!(text, "low"),
        _ => panic!(":search fills the modal"),
    }
    match key(&mut home, Cmd::Colon("search".to_string()), &mut comfort, false) {
        Outcome::Find(text) => assert_eq!(text, ""),
        _ => panic!(":search alone opens it empty"),
    }
    match key(&mut home, Cmd::Colon("generate Cat Power".to_string()), &mut comfort, false) {
        Outcome::Generate(name) => assert_eq!(name, "Cat Power"),
        _ => panic!(":generate brings an artist in"),
    }
    assert!(matches!(key(&mut home, Cmd::Colon("generate".to_string()), &mut comfort, false), Outcome::Stay));
}

#[test]
fn typing_shows_at_the_bottom_and_an_unknown_sequence_says_so() {
    let mut home = Home::default();
    let mut comfort = Comfort::new(3);
    key(&mut home, Cmd::Pending("a".to_string()), &mut comfort, false);
    assert_eq!(home.typed, "a");
    key(&mut home, Cmd::Unknown("az".to_string()), &mut comfort, false);
    assert_eq!(home.typed, "");
    assert_eq!(home.take_said().as_deref(), Some("(unknown: az)"));
    key(&mut home, Cmd::Sort, &mut comfort, false);
    assert!(home.sort == Sort::Alphabetical);
    key(&mut home, Cmd::Filter, &mut comfort, false);
    assert!(home.scope == Scope::All);
}

#[test]
fn resume_goes_back_to_the_session_or_restarts_the_last_journey() {
    let mut home = Home::default();
    let mut comfort = Comfort::new(3);
    assert!(matches!(home.on_cmd(Cmd::Resume, &listing(), &choices(), &mut comfort, true, None), Outcome::Back));
    assert!(matches!(home.on_cmd(Cmd::Resume, &listing(), &choices(), &mut comfort, false, None), Outcome::Stay));
    assert_eq!(home.take_said().as_deref(), Some("(no journey to resume)"));
    let last = LastSession {
        slug: "low".to_string(),
        name: "Low".to_string(),
        title: "Words".to_string(),
        at: "2026-09-05".to_string(),
    };
    match home.on_cmd(Cmd::Resume, &listing(), &choices(), &mut comfort, false, Some(last)) {
        Outcome::Start(Choice::Track { slug, title }) => assert_eq!((slug.as_str(), title.as_str()), ("low", "Words")),
        _ => panic!("the last journey starts again"),
    }
}

fn cards() -> Vec<CardLine> {
    vec![
        CardLine { slug: "the-cure".into(), name: "The Cure".into(), familiarity: 4, days: Some(2), liked: true },
        CardLine { slug: "low".into(), name: "Low".into(), familiarity: 1, days: Some(200), liked: false },
    ]
}

fn ranked() -> Vec<RankedLine> {
    vec![
        RankedLine { name: "Kanye West".into(), familiarity: 3, liked: true },
        // the ranking says it otherwise: one row, not two
        RankedLine { name: "the cure".into(), familiarity: 5, liked: true },
        RankedLine { name: "LOW".into(), familiarity: 5, liked: true },
    ]
}

fn names(rows: &[(Option<String>, forkstify::home::CollectionRow)]) -> Vec<&str> {
    rows.iter().map(|(_, row)| row.name.as_str()).collect()
}

#[test]
fn the_collection_lists_the_catalog_and_the_ranking_once() {
    let all = collection(&cards(), &ranked(), Sort::Familiarity, Scope::All, "");
    assert_eq!(names(&all), vec!["The Cure", "Kanye West", "Low"]);
    assert_eq!(all[1].0, None);
    assert!(!all[1].1.carded);
    assert_eq!(all[0].0.as_deref(), Some("the-cure"));
    assert_eq!(all[0].1.age, "-2d");
    assert!(all[2].1.neglected);
    assert_eq!(all[2].1.age, "-6mo");
    assert_eq!(all[1].1.age, "never");
}

#[test]
fn the_collection_sorts_scopes_and_filters() {
    let liked = collection(&cards(), &ranked(), Sort::Familiarity, Scope::Liked, "");
    assert_eq!(names(&liked), vec!["The Cure", "Kanye West"]);
    let alpha = collection(&cards(), &ranked(), Sort::Alphabetical, Scope::All, "");
    assert_eq!(names(&alpha), vec!["Kanye West", "Low", "The Cure"]);
    let recent = collection(&cards(), &ranked(), Sort::LastPlayed, Scope::All, "");
    assert_eq!(names(&recent), vec!["The Cure", "Low", "Kanye West"]);
    let found = collection(&cards(), &ranked(), Sort::Familiarity, Scope::All, "CU");
    assert_eq!(names(&found), vec!["The Cure"]);
}

fn door(slug: &str, name: &str, played: bool, percent: u32) -> Door {
    Door { slug: slug.into(), name: name.into(), tops: vec![format!("{name} — one"), format!("{name} — two")], played, percent }
}

/// The cocoon puts the regulars first, the exploration the neglected.
#[test]
fn the_cocoon_puts_the_regulars_first() {
    let familiar = vec![door("air", "Air", false, 0), door("idles", "IDLES", false, 0)];
    let titles = |comfort: u8| -> Vec<String> {
        entries(&familiar, None, &Vec::new(), Comfort::new(comfort)).into_iter().map(|(t, _)| t).collect()
    };
    assert_eq!(titles(5)[0], "your regulars");
    assert_eq!(titles(3)[0], "your regulars");
    assert_eq!(titles(1)[0], "never played");
    assert_eq!(titles(0)[0], "never played");
}

#[test]
fn the_doors_say_why_they_are_there() {
    let familiar = vec![
        door("the-cure", "The Cure", true, 87),
        door("low", "Low", true, 40),
        door("air", "Air", true, 12),
        door("idles", "IDLES", false, 0),
    ];
    let blocks = entries(&familiar, None, &Vec::new(), Comfort::new(3));
    let (title, regulars) = &blocks[0];
    assert_eq!(title, "your regulars");
    // two regulars, then a track of the most familiar
    assert_eq!(regulars.len(), 3);
    assert_eq!(regulars[0].reason, "familiarity 87%");
    assert_eq!(regulars[0].preview.len(), 2);
    assert_eq!(regulars[1].label, "Low");
    match &regulars[2].choice {
        Choice::Track { slug, title } => assert_eq!((slug.as_str(), title.as_str()), ("the-cure", "The Cure — one")),
        _ => panic!("a track seeds too"),
    }
    assert_eq!(regulars[2].artist.as_deref(), Some("The Cure"));
    let (title, never) = &blocks[1];
    assert_eq!(title, "never played");
    assert_eq!(never.len(), 1);
    assert_eq!(never[0].reason, "in the catalog, never played");
    assert_eq!(never[0].preview.len(), 1);

    // a liked track whose artist has no card shows no track door
    let blocks = entries(&familiar, Some(("kanye-west".into(), "Stronger".into(), None)), &Vec::new(), Comfort::new(3));
    assert_eq!(blocks[0].1.len(), 2);
    // the neglected, as long as they have a card
    let neglected = vec![("nobody".to_string(), 9), ("air".to_string(), 7)];
    let blocks = entries(&familiar, Some(("low".into(), "Words".into(), Some("Low".into()))), &neglected, Comfort::new(0));
    assert_eq!(blocks[0].0, "neglected");
    assert_eq!(blocks[0].1.len(), 1);
    assert_eq!(blocks[0].1[0].reason, "last played 7 months ago");
    assert_eq!(blocks[1].1[2].label, "Words");
}

fn entry_of(choice: Choice) -> Entry {
    Entry { choice, label: String::new(), artist: None, reason: String::new(), preview: vec![] }
}

#[test]
fn the_digits_number_the_doors_of_the_blocks_in_order() {
    let blocks = vec![
        ("regulars".to_string(), vec![entry_of(Choice::Artist("a".into())), entry_of(Choice::Artist("b".into()))]),
        ("empty".to_string(), vec![]),
        ("neglected".to_string(), vec![entry_of(Choice::Track { slug: "c".into(), title: "t".into() })]),
    ];
    let choices = choices_of(&blocks);
    assert_eq!(choices.len(), 3);
    assert!(matches!(&choices[1], Choice::Artist(s) if s == "b"));
    assert!(matches!(&choices[2], Choice::Track { slug, title } if slug == "c" && title == "t"));
}
