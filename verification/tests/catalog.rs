use forkstify::catalog::{proximity, search_names, Link};
use forkstify::config::{comfort_from, Catalogue, Journey, Playback};
use forkstify::explore::{contains, Filter};

fn link(kind: &str, own: Option<u8>) -> Link {
    Link { to: "x".into(), kind: kind.into(), note: None, proximity: own }
}

#[test]
fn a_proximity_resolves_in_cascade() {
    let grid: Vec<(String, u8)> = vec![("similar".into(), 2)];
    assert_eq!(proximity(&link("member", Some(1)), &grid), 1);
    assert_eq!(proximity(&link("similar", None), &grid), 2);
    assert_eq!(proximity(&link("member", None), &grid), 5);
    assert_eq!(proximity(&link("influence", None), &grid), 2);
    assert_eq!(proximity(&link("whatever", None), &grid), 3);
}

#[test]
fn the_search_puts_short_names_first() {
    let cards: Vec<(String, String)> = vec![
        ("the-cure".into(), "The Cure".into()),
        ("cure".into(), "Cure".into()),
        ("curtis".into(), "Curtis Mayfield".into()),
    ];
    assert_eq!(search_names(&cards, "CUR", 10), vec!["cure", "the-cure", "curtis"]);
    assert_eq!(search_names(&cards, "cure", 1), vec!["cure"]);
    assert!(search_names(&cards, "zz", 10).is_empty());
}

#[test]
fn a_remembered_comfort_is_a_number_up_to_five() {
    assert_eq!(comfort_from("4\n", 3), 4);
    assert_eq!(comfort_from("0", 3), 0);
    assert_eq!(comfort_from("7", 3), 3);
    assert_eq!(comfort_from("many", 2), 2);
    assert_eq!(Journey::default().comfort, 3);
    assert!(Playback::default().prefer_studio);
    assert!(Catalogue::default().path.is_empty());
}

#[test]
fn the_filter_goes_around() {
    assert!(Filter::All.next() == Filter::Tops);
    assert!(Filter::All.next().next().next().next() == Filter::All);
    assert_eq!(Filter::Tops.word(), "♪ tops");
    assert_eq!(Filter::Banned.word(), "⊘ banned");
    assert!(contains("Metal Heart", "HEART"));
    assert!(!contains("Metal Heart", "soul"));
}

use forkstify::discography::TailTrack;
use forkstify::explore::{at, card_top, clamp, go_bottom, go_top, move_by, one_per_title, orphan_tops, rows, Cursor, Row, Sort};

fn tail_track(title: &str, album: &str, year: &str, single: bool) -> TailTrack {
    TailTrack {
        title: title.into(),
        uri: format!("spotify:track:{title}"),
        album: album.into(),
        released: year.into(),
        number: 1,
        duration_ms: 1,
        single,
    }
}

#[test]
fn one_song_shows_once() {
    let raw = vec![
        tail_track("Metal Heart", "Single", "2008", true),
        tail_track("Metal Heart - 2015 Remaster", "Jukebox", "2008", false),
        tail_track("Cross Bones Style", "Moon Pix", "1998", false),
        tail_track("Metal Heart", "Moon Pix", "1998", false),
    ];
    assert_eq!(one_per_title(&raw), vec![3, 2]);
    let tops: Vec<String> = vec!["Metal Heart".into(), "Song to Bobby".into()];
    assert_eq!(card_top(&tops, "Metal Heart - 2015 Remaster").as_deref(), Some("Metal Heart"));
    assert_eq!(orphan_tops(&tops, &vec!["Metal Heart".into()]), vec!["Song to Bobby"]);
}

#[test]
fn the_cursor_walks_the_lines() {
    let order = vec![2, 0];
    let cursor = Cursor { album: 0, track: None };
    let lines = rows(&order, &vec![1, 0], false, cursor);
    assert!(lines == vec![Row::Album(2), Row::Album(0), Row::Track(0, 1), Row::Track(0, 0)]);
    assert!(at(cursor, Row::Album(0)));
    let down = move_by(&lines, cursor, 1);
    assert!(down == Cursor { album: 0, track: Some(1) });
    assert!(move_by(&lines, cursor, -10) == Cursor { album: 2, track: None });
    assert!(move_by(&lines, cursor, 10) == Cursor { album: 0, track: Some(0) });
    assert!(go_top(&lines, down) == Cursor { album: 2, track: None });
    assert!(go_bottom(&lines, down) == Cursor { album: 0, track: Some(0) });
    let folded = rows(&order, &vec![1, 0], true, cursor);
    assert_eq!(folded.len(), 2);
    assert!(clamp(&folded, &order, Cursor { album: 0, track: Some(1) }) == Cursor { album: 2, track: None });
    assert!(clamp(&vec![], &order, cursor) == Cursor { album: 0, track: None });
    assert!(Sort::Chrono.toggled() == Sort::Plays);
    assert_eq!(Sort::Plays.word(), "my plays first");
}

use forkstify::explore::{adds, commit_line, filter_notice, pending_on, removes, search, undo, written, Pending};

fn pending(add: bool, title: &str) -> Pending {
    Pending { add, title: title.to_string(), why: "1 plays".to_string() }
}

#[test]
fn what_is_prepared_is_said_then_written() {
    let mut batch = vec![pending(true, "Metal Heart")];
    assert_eq!(adds(&batch), vec!["Metal Heart"]);
    assert!(removes(&batch).is_empty());
    assert_eq!(commit_line("Cat Power", &batch), "Cat Power — tops: +1 −0");
    assert_eq!(undo(&mut batch), "↺ ♪+ Metal Heart — undone");
    assert!(batch.is_empty());
    assert_eq!(undo(&mut batch), "(nothing to undo)");
    batch.push(pending(true, "Metal Heart"));
    // the same song under another spelling is the same correction
    assert_eq!(pending_on(&batch, "Metal Heart - 2015 Remaster"), Some(0));
    assert_eq!(pending_on(&batch, "Sea Of Love"), None);
    let tops = vec!["Cross Bones Style".to_string(), "Song to Bobby".to_string()];
    assert_eq!(written(&tops, &batch), vec!["Cross Bones Style", "Song to Bobby", "Metal Heart"]);
}

#[test]
fn a_removal_takes_every_spelling_and_an_addition_is_not_doubled() {
    let tops = vec!["Heroes".to_string(), "Heroes - 2017 Remaster".to_string(), "Ashes to Ashes".to_string()];
    let batch = vec![pending(false, "Heroes"), pending(true, "Ashes to Ashes"), pending(true, "Lazarus")];
    assert_eq!(written(&tops, &batch), vec!["Ashes to Ashes", "Lazarus"]);
    assert_eq!(commit_line("David Bowie", &batch), "David Bowie — tops: +2 −1");
}

#[test]
fn the_screen_says_its_filter_and_its_search() {
    assert_eq!(search("  moon "), ("moon".to_string(), "filter: \"moon\"".to_string()));
    assert_eq!(search("   "), (String::new(), "filter cleared".to_string()));
    assert_eq!(filter_notice(Filter::Tops.next()), "filter: ♥ liked");
}

use forkstify::explore::{build, chrono_order, chrono_tracks, counts, visible_album, visible_track};

fn cat_power_tail() -> Vec<TailTrack> {
    let track = |title: &str, album: &str, year: &str, number: u32, single: bool| TailTrack {
        title: title.into(),
        uri: format!("spotify:track:{title}"),
        album: album.into(),
        released: year.into(),
        number,
        duration_ms: 200_000,
        single,
    };
    vec![
        track("Cross Bones Style", "Moon Pix", "1998-09-22", 1, false),
        track("Metal Heart", "Moon Pix", "1998-09-22", 2, false),
        track("Colors and the Kids", "Moon Pix", "1998-09-22", 4, false),
        // the same song, as a single and remastered: it must not make two
        // lines
        track("Metal Heart - 2015 Remaster", "Metal Heart", "2015", 1, true),
        track("Sea Of Love", "The Covers Record", "2000", 1, false),
    ]
}

fn cat_power_tops() -> Vec<String> {
    vec!["Cross Bones Style".to_string(), "Song to Bobby".to_string()]
}

#[test]
fn une_chanson_ne_parait_qu_une_fois() {
    let albums = build(&cat_power_tail(), &cat_power_tops(), &Vec::new());
    let titles: Vec<&str> = albums.iter().flat_map(|a| a.tracks.iter()).map(|t| t.title.as_str()).collect();
    assert_eq!(titles.iter().filter(|t| t.starts_with("Metal Heart")).count(), 1);
    // and the album version is kept, not the single
    assert!(titles.contains(&"Metal Heart"));
}

#[test]
fn les_albums_sont_dans_l_ordre_et_les_tops_marques() {
    let albums = build(&cat_power_tail(), &cat_power_tops(), &Vec::new());
    let order = chrono_order(&albums, Filter::All, "");
    assert_eq!(albums[order[0]].title, "Moon Pix");
    assert_eq!(albums[order[1]].title, "The Covers Record");
    let moon = &albums[order[0]];
    assert!(moon.tracks.iter().find(|t| t.title == "Cross Bones Style").unwrap().is_top());
    assert!(!moon.tracks.iter().find(|t| t.title == "Metal Heart").unwrap().is_top());
    assert_eq!(moon.tops(), 1);
}

/// A top of the card the discography does not return does not vanish.
#[test]
fn un_top_hors_discographie_tombe_en_fin_de_liste() {
    let albums = build(&cat_power_tail(), &cat_power_tops(), &Vec::new());
    let last = albums.last().expect("un album");
    assert!(last.orphan);
    assert_eq!(last.tracks[0].title, "Song to Bobby");
    let order = chrono_order(&albums, Filter::All, "");
    assert_eq!(order.last().copied(), Some(albums.len() - 1));
}

#[test]
fn le_filtre_ne_garde_que_les_tops() {
    let albums = build(&cat_power_tail(), &cat_power_tops(), &Vec::new());
    for album in &albums {
        for track in &album.tracks {
            if visible_track(Filter::Tops, "", track) {
                assert!(track.is_top());
            }
        }
    }
    // the covers carry no top: the album does not show under the filter
    let covers = albums.iter().find(|a| a.title == "The Covers Record").unwrap();
    assert!(!visible_album(Filter::Tops, "", covers));
    // an album whose name holds the search opens in full
    assert!(visible_album(Filter::All, "moon", &albums[0]));
    assert!(!visible_track(Filter::All, "moon", &albums[0].tracks[0]));
}

#[test]
fn what_the_listening_knows_marks_the_tracks() {
    let stats = vec![("Metal Heart - 2015 Remaster".to_string(), Some(3), true, false)];
    let albums = build(&cat_power_tail(), &cat_power_tops(), &stats);
    let heart = albums[0].tracks.iter().find(|t| t.title == "Metal Heart").unwrap();
    assert!(heart.liked);
    assert_eq!(heart.days, Some(3));
    assert!(visible_track(Filter::Liked, "heart", heart));
    assert_eq!(albums[0].liked(), 1);
    assert_eq!(albums[0].banned(), 0);
}

#[test]
fn l_ecran_dit_ou_vont_les_ecoutes() {
    let albums = build(&cat_power_tail(), &cat_power_tops(), &Vec::new());
    let summary = counts(&albums);
    assert_eq!(summary.albums, 2);
    assert_eq!(summary.tops, 2, "un top d'album et un orphelin");
    assert_eq!(summary.titles, 5, "quatre titres et le top orphelin");
    assert_eq!(summary.tail, 3);
}

/// The cursor is an identity: folding must not lose it.
#[test]
fn le_curseur_survit_au_pliage() {
    let albums = build(&cat_power_tail(), &cat_power_tops(), &Vec::new());
    let order = chrono_order(&albums, Filter::All, "");
    let start = Cursor { album: 0, track: None };
    let open = chrono_tracks(&albums[start.album], Filter::All, "");
    assert_eq!(open, vec![0, 1, 2]);
    let lines = rows(&order, &open, false, start);
    let moved = move_by(&lines, start, 1);
    let open = chrono_tracks(&albums[moved.album], Filter::All, "");
    let cursor = clamp(&rows(&order, &open, false, moved), &order, moved);
    assert_eq!(cursor.track, Some(0));
    // h folds everything: the cursor goes up to its album
    let folded = Cursor { album: cursor.album, track: None };
    assert_eq!(rows(&order, &open, true, folded).len(), order.len(), "tout est plié");
    assert!(rows(&order, &open, false, folded).len() > order.len());
}
