use forkstify::learned::{from_iso, is_false, is_zero_u32, iso, merge_flag, quote, today, today_iso, mark_entry, fits_as_day, day_of, merge_taste, Artist, Learned, Top};

#[test]
fn dates_round_trip() {
    for day in [0, 1, 19_000, 20_700, 25_000, -1, -700] {
        assert_eq!(from_iso(&iso(day)), Some(day), "jour {day}");
    }
    assert_eq!(iso(0), "1970-01-01");
    assert_eq!(from_iso("2026-09-05").map(iso).as_deref(), Some("2026-09-05"));
}

#[test]
fn a_date_that_is_not_one_reads_as_nothing() {
    assert_eq!(from_iso("2026-13-01"), None);
    assert_eq!(from_iso("2026-09"), None);
    assert_eq!(from_iso("hier"), None);
    assert_eq!(from_iso("2026-09-05T10:00"), None);
    assert_eq!(iso(-719_528), "0000-01-01");
    assert_eq!(iso(-719_529), "-001-12-31");
    assert_eq!(iso(2_932_896), "9999-12-31");
}

#[test]
fn a_flag_set_on_either_side_holds() {
    assert!(merge_flag(false, true, false));
    assert!(merge_flag(false, false, true));
    assert!(!merge_flag(true, false, true));
    assert!(!merge_flag(false, false, false));
    assert_eq!(merge_flag(true, false, false), merge_flag(true, false, false));
}

#[test]
fn today_is_a_date() {
    let day = today();
    assert!(day > 19_000);
    assert_eq!(from_iso(&today_iso()), Some(day));
    assert_eq!(quote("A \"b\""), "\"A \\\"b\\\"\"");
    assert!(is_false(&false) && !is_false(&true));
    assert!(is_zero_u32(&0) && !is_zero_u32(&1));
}

#[test]
fn the_opposite_gesture_cancels_the_previous_one() {
    let mut learned = Learned::blank();
    learned.skip_track("the-cure", "A Forest");
    learned.skip_track("the-cure", "A Forest");
    assert_eq!(learned.skipped("the-cure", "A Forest"), 2);
    learned.like_track("the-cure", "A Forest");
    assert_eq!(learned.skipped("the-cure", "A Forest"), 0);
    assert_eq!(learned.liked_tracks("the-cure"), vec!["A Forest"]);
    learned.skip_track("the-cure", "A Forest");
    assert!(learned.liked_tracks("the-cure").is_empty());
}

#[test]
fn an_unlike_takes_the_like_back_and_only_that() {
    let mut learned = Learned::blank();
    // nothing was said of it: nothing is written
    learned.unlike_track("the-cure", "A Forest");
    assert_eq!(learned.known(), 0);
    learned.skip_track("the-cure", "A Forest");
    learned.like_track("the-cure", "A Forest");
    learned.ban_track("the-cure", "A Forest");
    learned.unlike_track("the-cure", "A Forest");
    assert!(!learned.track_liked("the-cure", "A Forest"));
    assert!(learned.track_banned("the-cure", "A Forest"));
    assert_eq!(learned.skipped("the-cure", "A Forest"), 0);
}

#[test]
fn a_ban_holds_and_touches_nothing_else() {
    let mut learned = Learned::blank();
    learned.like_track("the-cure", "Push");
    learned.ban_track("the-cure", "A Forest");
    learned.like_track("the-cure", "A Forest");
    assert!(learned.track_banned("the-cure", "A Forest"));
    assert!(!learned.track_banned("the-cure", "Push"));
    assert!(!learned.artist_is_banned("the-cure"));
    learned.ban_artist("low");
    learned.ban_track("low", "Words");
    assert!(learned.artist_is_banned("low"));
    assert_eq!(learned.banned_artists(), vec!["low"]);
    assert_eq!(learned.banned_tracks(), vec!["A Forest", "Words"]);
    // a liked track that is banned is no seed
    assert_eq!(learned.liked_anywhere(), vec![("the-cure".to_string(), "Push".to_string())]);
}

#[test]
fn the_liked_tracks_come_sorted_by_title() {
    let mut learned = Learned::blank();
    learned.like_track("the-cure", "Lullaby");
    learned.like_track("the-cure", "A Forest");
    learned.like_track("the-cure", "Push");
    learned.skip_track("the-cure", "Lullaby");
    assert_eq!(learned.liked_tracks("the-cure"), vec!["A Forest", "Push"]);
    assert!(learned.track_liked("the-cure", "Push"));
    assert!(!learned.track_liked("the-cure", "Lullaby"));
    assert!(learned.liked_tracks("low").is_empty());
    assert_eq!(learned.known(), 1);
}

#[test]
fn a_mark_says_who_what_and_when() {
    assert_eq!(
        mark_entry("Cat Power", "Metal \"Heart\"", 0),
        "[[mark]]\nartist = \"Cat Power\"\ntitle = \"Metal \\\"Heart\\\"\"\nat = \"1970-01-01\"\n\n"
    );
}

fn top(liked: bool, skipped: u32, blacklisted: bool) -> Top {
    Top { liked, skipped, blacklisted }
}

fn artist(blacklisted: bool, tops: Vec<(&str, Top)>) -> Artist {
    Artist {
        blacklisted,
        unliked: false,
        tops: tops.into_iter().map(|(title, t)| (title.to_string(), t)).collect(),
    }
}

#[test]
fn a_ban_on_one_side_wins_in_the_taste() {
    let base = artist(false, vec![("A Forest", top(false, 0, false))]);
    let ours = artist(false, vec![("A Forest", top(false, 0, false))]);
    let theirs = artist(true, vec![("A Forest", top(false, 0, true))]);
    let merged = merge_taste(&base, &ours, &theirs);
    assert!(merged.blacklisted);
    assert_eq!(merged.tops, vec![("A Forest".to_string(), top(false, 0, true))]);
}

#[test]
fn a_track_new_on_one_side_comes_in_as_it_is() {
    let base = artist(false, vec![("A Forest", top(false, 0, false))]);
    let ours = artist(false, vec![("A Forest", top(false, 0, false)), ("Push", top(false, 1, false))]);
    let theirs = artist(false, vec![("A Forest", top(false, 0, false)), ("Lullaby", top(true, 0, false))]);
    let merged = merge_taste(&base, &ours, &theirs);
    let titles: Vec<&str> = merged.tops.iter().map(|(title, _)| title.as_str()).collect();
    assert_eq!(titles, vec!["A Forest", "Lullaby", "Push"]);
    assert_eq!(merged.tops[1].1, top(true, 0, false));
    assert_eq!(merged.tops[2].1, top(false, 1, false));
    // without an ancestor, both sides come in
    let merged = merge_taste(&Artist::default(), &ours, &theirs);
    assert_eq!(merged.tops.len(), 3);
}

#[test]
fn the_skips_of_two_machines_add_up() {
    let base = artist(false, vec![("A Forest", top(true, 1, false))]);
    let ours = artist(false, vec![("A Forest", top(true, 3, false))]);
    let theirs = artist(false, vec![("A Forest", top(false, 2, false))]);
    let merged = merge_taste(&base, &ours, &theirs);
    // two skips here, one there; the like was taken back on one side
    assert_eq!(merged.tops, vec![("A Forest".to_string(), top(false, 4, false))]);
}

#[test]
fn a_date_too_far_is_told_before_it_is_read() {
    assert!(fits_as_day("2026-09-05"));
    assert!(fits_as_day("not a date"));
    assert!(fits_as_day("2026-13-01"));
    assert!(!fits_as_day("9223372036854775807-03-01"));
    // a leading minus splits off an empty year: no date at all
    assert!(fits_as_day("-9223372036854775808-01-01"));
    assert!(!fits_as_day("9223372036854775807-01-01"));
}

#[test]
fn a_day_is_the_whole_days_of_the_seconds() {
    assert_eq!(day_of(0), 0);
    assert_eq!(day_of(86_399), 0);
    assert_eq!(day_of(86_400), 1);
    assert_eq!(day_of(1_757_030_400), 20_336);
    // before the epoch, rounded toward it
    assert_eq!(day_of(-1), 0);
    assert_eq!(day_of(-86_400), -1);
    assert_eq!(day_of(-86_401), -1);
}

#[test]
fn a_real_date_reads_and_writes_back_as_itself() {
    for text in ["0000-01-01", "1900-02-28", "2000-02-29", "2024-02-29", "1970-01-01", "9999-12-31", "0400-03-01"] {
        assert!(fits_as_day(text));
        assert_eq!(from_iso(text).map(iso).as_deref(), Some(text), "{text}");
    }
}

#[test]
fn the_ends_of_the_four_digit_years_round_trip() {
    assert_eq!(iso(-719_528), "0000-01-01");
    assert_eq!(iso(2_932_896), "9999-12-31");
    for day in [-719_528, -719_469, 2_932_896] {
        assert_eq!(from_iso(&iso(day)), Some(day), "day {day}");
    }
}
