use forkstify::catalog::{Card, Link};
use forkstify::neighbors::{card_of, current_source, graph_neighbors, label, missing_neighbors, plain_source, Source};

fn link(to: &str, kind: &str, proximity: Option<u8>) -> Link {
    Link { to: to.into(), kind: kind.into(), note: None, proximity }
}

fn card(name: &str, tags: &[&str], links: Vec<Link>) -> Card {
    Card {
        name: name.into(),
        tags: tags.iter().map(|t| t.to_string()).collect(),
        tops: vec![],
        doors: vec![],
        links,
    }
}

#[test]
fn the_graph_gives_the_closest_link_per_artist_closest_first() {
    let cards = vec![
        (
            "the-cure".to_string(),
            card("The Cure", &["post-punk", "uk"], vec![link("joy-division", "similar", None), link("siouxsie", "scene", None), link("nowhere", "member", None)]),
        ),
        ("joy-division".to_string(), card("Joy Division", &["post-punk"], vec![])),
        ("siouxsie".to_string(), card("Siouxsie", &["post-punk"], vec![link("the-cure", "member", None)])),
        ("bauhaus".to_string(), card("Bauhaus", &["goth"], vec![link("the-cure", "scene", Some(3))])),
        ("banned".to_string(), card("Banned", &[], vec![link("the-cure", "member", None)])),
    ];
    let r = graph_neighbors(&cards, "the-cure", &vec!["banned".to_string()], &vec![]);
    let slugs: Vec<(&str, u8)> = r.iter().map(|(s, p, _)| (s.as_str(), *p)).collect();
    assert_eq!(slugs, vec![("siouxsie", 5), ("joy-division", 4), ("bauhaus", 3)]);
    assert_eq!(r[0].2, "shared members · shared tags: post-punk");
    assert_eq!(r[2].2, "same scene");
    assert_eq!(label("influence"), "influence");
    assert_eq!(label("remix"), "remix");
}

#[test]
fn the_links_to_no_card_are_gaps_closest_first() {
    let cards = vec![
        ("the-cure".to_string(), card("The Cure", &[], vec![link("the-smiths", "scene", None), link("robert-smith", "member", None), link("joy-division", "similar", None)])),
        ("joy-division".to_string(), card("Joy Division", &[], vec![link("new-order", "family", None), link("the-smiths", "similar", None)])),
    ];
    let context = vec!["the-cure".to_string(), "joy-division".to_string()];
    let r = missing_neighbors(&cards, &context, &vec!["new-order".to_string()], &vec![]);
    let got: Vec<(&str, u8, &str)> = r.iter().map(|m| (m.slug.as_str(), m.proximity, m.kind.as_str())).collect();
    assert_eq!(got, vec![("robert-smith", 5, "member"), ("the-smiths", 4, "similar")]);
    assert_eq!(r[0].name, "Robert Smith");
    assert_eq!(r[1].why, "similar · around Joy Division");
    assert!(!r[0].pending);
}

#[test]
fn a_stop_finds_its_card_and_its_glyph() {
    let mut cure = card("The Cure", &[], vec![]);
    cure.tops = vec!["A Forest".to_string()];
    let cards = vec![("the-cure".to_string(), cure), ("kanye-west".to_string(), card("Ye", &[], vec![]))];
    assert_eq!(card_of(&cards, "the-cure", "x").as_deref(), Some("the-cure"));
    assert_eq!(card_of(&cards, "", "Kanye West").as_deref(), Some("kanye-west"));
    assert_eq!(card_of(&cards, "", "Nobody"), None);
    let tail = vec!["Lullaby (Remastered)".to_string()];
    assert_eq!(plain_source(&cards, &tail, "the-cure", "A Forest"), Source::Top);
    assert_eq!(plain_source(&cards, &tail, "the-cure", "Lullaby - Live"), Source::Tail);
    assert_eq!(plain_source(&cards, &tail, "the-cure", "Close to Me"), Source::Outside);
    assert_eq!(plain_source(&cards, &tail, "nobody", "Close to Me"), Source::Offmap);
    assert_eq!(current_source(true, Source::Door, &cards, &tail, "the-cure", "A Forest"), Source::Liked);
    assert_eq!(current_source(false, Source::Door, &cards, &tail, "the-cure", "A Forest"), Source::Door);
    assert_eq!(current_source(false, Source::Top, &cards, &tail, "the-cure", "Close to Me"), Source::Outside);
}
