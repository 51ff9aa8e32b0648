use forkstify::edit::{array_span, insert_into_array, quoted};

const CARD: &str = "format = 1\nname = \"The Cure\"\nmbid = \"abc\"\n\ntags = [\"post-punk\"]\n\ntops = [\n  \"A Forest\",\n  \"Lullaby\",\n]\n\nlinks = [\n  { to = \"joy-division\", type = \"scene\" },\n]\n";

#[test]
fn an_insertion_touches_nothing_else() {
    let out = insert_into_array(CARD, "tops", "  \"Push\",");
    assert!(out.contains("format = 1"));
    assert!(out.contains("mbid = \"abc\""));
    assert!(out.contains("  \"A Forest\",\n  \"Lullaby\",\n  \"Push\",\n]"));
    assert!(out.contains("{ to = \"joy-division\", type = \"scene\" },"));
}

#[test]
fn a_missing_array_is_created_at_the_end_of_the_card() {
    let out = insert_into_array(CARD, "doors", "  { track = \"A Forest\" },");
    assert!(out.trim_end().ends_with("doors = [\n  { track = \"A Forest\" },\n]"));
    assert!(out.contains("tops = ["));
}

#[test]
fn the_bounds_of_the_right_array() {
    let (from, to) = array_span(CARD, "tops").expect("tops");
    assert!(CARD[from..to].contains("A Forest"));
    assert!(!CARD[from..to].contains("joy-division"));
}

#[test]
fn quotes_are_escaped() {
    assert_eq!(quoted("A \"Forest\""), "\"A \\\"Forest\\\"\"");
}

fn strings(value: &toml::Value, key: &str) -> Vec<String> {
    value
        .get(key)
        .and_then(|v| v.as_array())
        .map(|a| a.iter().filter_map(|x| x.as_str().map(String::from)).collect())
        .unwrap_or_default()
}

/// The real risk of a textual patch: producing a TOML nobody can read back.
/// After every insertion, the card must still load as a card.
#[test]
fn the_card_stays_readable_after_each_edit() {
    let mut text = CARD.to_string();
    text = insert_into_array(&text, "tops", "  \"Push\",");
    text = insert_into_array(
        &text,
        "doors",
        &forkstify::edit::door_line("A Forest", &vec!["post-punk".into(), "atmospherique".into()], "2026-09-06"),
    );
    text = insert_into_array(&text, "links", "  { to = \"siouxsie\", type = \"member\" },");

    let card: toml::Value = toml::from_str(&text).expect("the card must still parse");
    assert_eq!(card.get("name").and_then(|v| v.as_str()), Some("The Cure"));
    let tops = strings(&card, "tops");
    assert!(tops.contains(&"Push".to_string()));
    assert!(tops.contains(&"A Forest".to_string()));
    let doors = card.get("doors").and_then(|v| v.as_array()).expect("doors");
    assert_eq!(doors.len(), 1);
    assert_eq!(doors[0].get("track").and_then(|v| v.as_str()), Some("A Forest"));
    assert_eq!(strings(&doors[0], "to"), vec!["post-punk", "atmospherique"]);
    let links = card.get("links").and_then(|v| v.as_array()).expect("links");
    assert_eq!(links.len(), 2);
    assert!(links.iter().any(|l| l.get("to").and_then(|v| v.as_str()) == Some("siouxsie")
        && l.get("type").and_then(|v| v.as_str()) == Some("member")));
}

/// A title with quotes or an apostrophe must not break the card.
#[test]
fn a_tricky_title_still_goes_through() {
    let text = insert_into_array(CARD, "tops", &format!("  {},", quoted("L'\"autre\" titre")));
    let card: toml::Value = toml::from_str(&text).expect("lisible");
    assert!(strings(&card, "tops").contains(&"L'\"autre\" titre".to_string()));
}

use forkstify::edit::set_tops;

#[test]
fn promoting_then_removing_in_one_batch_leaves_it_out() {
    let adds = vec!["Push".to_string()];
    let removes = vec!["Push".to_string()];
    // the card has no Push: nothing to write, and nothing is written
    match set_tops(Ok(CARD.to_string()), "/cat", "the-cure", "The Cure", &adds, &removes) {
        Err(why) => assert_eq!(why, "the card's tops already said so"),
        Ok(_) => panic!("the title must stay out"),
    }
    // the card has it: it leaves, and does not come back
    let with_push = CARD.replace("  \"Lullaby\",\n", "  \"Lullaby\",\n  \"Push\",\n");
    let (text, edit) = set_tops(Ok(with_push), "/cat", "the-cure", "The Cure", &adds, &removes).unwrap();
    assert!(!text.contains("\"Push\""));
    assert!(text.contains("  \"A Forest\",\n  \"Lullaby\",\n]"));
    assert_eq!(edit.summary, "The Cure — tops: +0 −1");
    // an addition alone still goes in
    let (text, edit) = set_tops(Ok(CARD.to_string()), "/cat", "the-cure", "The Cure", &adds, &Vec::new()).unwrap();
    assert!(text.contains("  \"Push\",\n"));
    assert_eq!(edit.summary, "The Cure — tops: +1 −0");
}
