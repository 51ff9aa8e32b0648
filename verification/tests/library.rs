use forkstify::library::{
    card_finder, coverage, main_artist, owner_word, path, sort_playlists, Library, PlaylistInfo, FORMAT,
};

fn library() -> Library {
    let mut library = Library { format: FORMAT, harvested: String::new(), playlists: Vec::new(), artists: Vec::new() };
    let i = library.entry("1", "Calexico");
    library.artists[i].liked_tracks = 66;
    let i = library.entry("1", "Calexico");
    library.artists[i].liked_albums = 4;
    let i = library.entry("1", "Calexico");
    library.artists[i].playlist_tracks = 6;
    let i = library.entry("2", "Guilhem Valayé");
    library.artists[i].followed = true;
    let i = library.entry("3", "Odezenne");
    library.artists[i].liked_tracks = 41;
    let i = library.entry("3", "Odezenne");
    library.artists[i].liked_albums = 10;
    library.rescore();
    library
}

/// The formula, unchanged: tracks ×1, albums ×3, followed +8, playlist
/// tracks ×1.
#[test]
fn the_ranking_keeps_the_formula() {
    let library = library();
    assert_eq!(library.artists[0].name, "Calexico");
    assert_eq!(library.artists[0].score, 66 + 12 + 6);
    assert_eq!(library.artists[0].sources, 3);
    assert_eq!(library.artists[1].name, "Odezenne");
    assert_eq!(library.artists[1].score, 41 + 30);
    assert_eq!(library.artists[2].score, 8);
    assert!(library.artists[2].liked());
}

/// Coverage: the tiers, the top fifty, and who is worth generating — above
/// the floor, without a card, best first.
#[test]
fn coverage_names_who_to_generate() {
    let library = library();
    let known: Vec<bool> = library.artists.iter().map(|a| a.name == "Calexico").collect();
    let coverage = coverage(&library, &known);
    assert_eq!(coverage.top, (1, 3));
    assert_eq!(coverage.tiers[0], ("score ≥ 20".to_string(), 1, 2));
    assert_eq!(coverage.tiers[2], ("score 5–9".to_string(), 0, 1));
    assert_eq!(coverage.missing, vec![("Odezenne".to_string(), 71), ("Guilhem Valayé".to_string(), 8)]);
    assert_eq!(coverage.missing_total, 2);
}

#[test]
fn the_main_artist_only() {
    let track = vec![(Some("a".to_string()), Some("Bosh".to_string())), (Some("b".to_string()), Some("Guest".to_string()))];
    assert_eq!(main_artist(&track), Some(("a".to_string(), "Bosh".to_string())));
    assert_eq!(main_artist(&vec![]), None);
}

#[test]
fn the_totals_add_up() {
    let library = library();
    assert_eq!(library.liked_tracks(), 107);
    assert_eq!(library.liked_albums(), 14);
    assert_eq!(library.followed(), 1);
    assert_eq!(library.playlist_tracks(), 6);
}

#[test]
fn a_card_is_found_by_slug_or_by_name() {
    let finder = card_finder(&vec!["kanye-west".into()], &vec!["Ye".into()]);
    assert!(finder.has_card("Kanye West"));
    assert!(finder.has_card("Ye"));
    assert!(!finder.has_card("Drake"));
    assert_eq!(path("/cat"), "/cat/learned/library.toml");
}

#[test]
fn the_listeners_playlists_come_first() {
    let info = |name: &str, owner: &str| PlaylistInfo { id: name.into(), name: name.into(), tracks: 1, owner: owner.into() };
    let sorted = sort_playlists(vec![info("Zed", "spotify"), info("b", "you"), info("x", "someone else"), info("A", "you")]);
    let names: Vec<&str> = sorted.iter().map(|p| p.name.as_str()).collect();
    assert_eq!(names, vec!["A", "b", "x", "Zed"]);
    assert_eq!(owner_word("me", "me"), "you");
    assert_eq!(owner_word("spotify", "me"), "spotify");
    assert_eq!(owner_word("other", "me"), "someone else");
}
