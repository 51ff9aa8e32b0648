use forkstify::generate::{
    clean_top, compose, compose_tags, decade, deezer_tops, draft, forgotten, id_after, is_mbid, match_key, pretty,
    slugify, tops_can_be_cut, try_draft, Facts, Known, Link, NO_LINKS, NO_TOPS,
};

#[test]
fn un_mbid_se_reconnait_a_sa_forme() {
    assert!(is_mbid("db6107e1-f692-453a-ab0e-4566faaba298"));
    assert!(!is_mbid("Oai Star"));
    assert!(!is_mbid("db6107e1f692453aab0e4566faaba298"));
    assert!(!is_mbid("db6107e1-f692-453a-ab0e-4566faaba29g"));
}

#[test]
fn le_slug_suit_la_regle_du_catalogue() {
    assert_eq!(slugify("Jacques Brel"), "jacques-brel");
    assert_eq!(slugify("Destiny's Child"), "destiny-s-child");
    assert_eq!(slugify("Hall & Oates"), "hall-and-oates");
    assert_eq!(slugify("Françoise Hardy"), "francoise-hardy");
    assert_eq!(slugify("Sigur Rós"), "sigur-ros");
}

#[test]
fn deux_orthographes_du_meme_artiste_ont_la_meme_cle() {
    assert_eq!(match_key("the-gun-club"), match_key("gun-club"));
    assert_eq!(match_key("j-p-nataf"), match_key("jp-nataf"));
    assert_eq!(match_key(&slugify("Hall & Oates")), match_key(&slugify("Hall and Oates")));
    assert_ne!(match_key("the-cure"), match_key("cure-the-band"));
}

#[test]
fn seul_le_suffixe_de_remasterisation_tombe() {
    assert_eq!(clean_top("Vesoul (2011 Remaster)"), "Vesoul");
    assert_eq!(clean_top("Heroes - 2017 Remaster"), "Heroes");
    assert_eq!(clean_top("Amsterdam (Live, Olympia / 1964)"), "Amsterdam (Live, Olympia / 1964)");
    assert_eq!(clean_top("Ne me quitte pas"), "Ne me quitte pas");
}

#[test]
fn la_decennie_est_celle_du_debut() {
    assert_eq!(decade(Some("1977-06-01")).as_deref(), Some("70s"));
    assert_eq!(decade(Some("2004")).as_deref(), Some("2000s"));
    assert_eq!(decade(None), None);
    assert_eq!(decade(Some("inconnu")), None);
}

fn facts_of(name: &str) -> Facts {
    Facts {
        name: name.to_string(),
        kind: Some("Group".to_string()),
        country: Some("GB".to_string()),
        area: Some("Crawley".to_string()),
        begin: Some("1976-04".to_string()),
        end: None,
        genres: vec!["Post-Punk".to_string(), "New Wave".to_string()],
        relations: Vec::new(),
        spotify: Some("7bu3H8JO7d0UbMoVzbo70s".to_string()),
        deezer: None,
    }
}

fn strings(value: &toml::Value, key: &str) -> Vec<String> {
    value
        .get(key)
        .and_then(|v| v.as_array())
        .map(|a| a.iter().filter_map(|x| x.as_str().map(String::from)).collect())
        .unwrap_or_default()
}

/// The risk of writing by hand: a text the catalog's loader cannot read.
#[test]
fn la_fiche_composee_se_relit_comme_une_fiche() {
    let facts = facts_of("The Cure");
    let tags = compose_tags(&facts);
    let links = vec![
        Link { to: "siouxsie".into(), kind: "member".into(), note: Some("member (1979–1980)".into()) },
        Link { to: "joy-division".into(), kind: "similar".into(), note: None },
    ];
    let text = compose("The Cure", "abc", &facts, &tags, &vec!["A Forest".into()], &links);
    let card: toml::Value = toml::from_str(&text).expect("lisible");
    assert_eq!(card.get("name").and_then(|v| v.as_str()), Some("The Cure"));
    assert_eq!(card.get("generated").and_then(|v| v.as_bool()), Some(true));
    assert_eq!(card.get("spotify").and_then(|v| v.as_str()), Some("7bu3H8JO7d0UbMoVzbo70s"));
    assert_eq!(strings(&card, "tops"), vec!["A Forest"]);
    assert_eq!(card.get("links").and_then(|v| v.as_array()).map(|a| a.len()), Some(2));
    assert_eq!(strings(&card, "tags"), vec!["post-punk", "new-wave", "uk", "70s"]);
}

/// A title with quotes must not break the card — Deezer gives some.
#[test]
fn un_titre_retors_ne_casse_pas_la_fiche() {
    let facts = facts_of("Nirvana");
    let text = compose("Nirvana", "abc", &facts, &vec![], &vec!["Smells Like \"Teen\" Spirit".into()], &vec![]);
    let card: toml::Value = toml::from_str(&text).expect("lisible");
    assert_eq!(strings(&card, "tops"), vec!["Smells Like \"Teen\" Spirit"]);
}

/// A person has no decade of forming: `begin` is a birth.
#[test]
fn une_personne_n_a_pas_de_tag_de_decennie() {
    let mut facts = facts_of("Jacques Brel");
    facts.kind = Some("Person".to_string());
    facts.country = Some("BE".to_string());
    facts.begin = Some("1929-04-08".to_string());
    assert_eq!(compose_tags(&facts), vec!["post-punk", "new-wave", "be"]);
}

#[test]
fn les_identifiants_se_lisent_dans_les_urls() {
    assert_eq!(
        id_after("https://open.spotify.com/artist/4RN2vlFWepLa46qQIU2PHs", "open.spotify.com/artist/", false).as_deref(),
        Some("4RN2vlFWepLa46qQIU2PHs")
    );
    assert_eq!(id_after("https://www.deezer.com/artist/1039", "/artist/", true).as_deref(), Some("1039"));
    assert_eq!(id_after("https://fr.wikipedia.org/wiki/Brel", "/artist/", true), None);
}

#[test]
fn a_slug_reads_back_as_a_name() {
    assert_eq!(pretty("georges-moustaki"), "Georges Moustaki");
    assert_eq!(pretty("the--cure"), "The  Cure");
}

fn titles(ts: &[&str]) -> Vec<String> {
    ts.iter().map(|t| t.to_string()).collect()
}

#[test]
fn deezer_titles_become_five_clean_tops() {
    let raw = titles(&[
        "Boys Don't Cry (2004 Remaster)",
        "boys don't cry",
        "A Forest",
        "Lullaby - 2010 Remaster",
        "Just Like Heaven",
        "LULLABY",
        "Friday I'm in Love",
        "Pictures of You",
    ]);
    assert_eq!(
        deezer_tops(&raw),
        titles(&["Boys Don't Cry", "A Forest", "Lullaby", "Just Like Heaven", "Friday I'm in Love"])
    );
}

#[test]
fn a_draft_keeps_five_tops_and_says_what_it_lacks() {
    let known = Known::of(&titles(&["joy-division"]));
    let raw = titles(&["A", "B", "C", "a", "D", "E", "F"]);
    let d = draft("the-cure", "abc", Ok(Some(facts_of("The Cure"))), "The Cure".into(), false, raw, vec![], &known)
        .expect("drafted");
    assert_eq!(d.slug, "the-cure");
    assert_eq!(d.name, "The Cure");
    assert_eq!(d.tops, 5);
    assert_eq!(d.links, 0);
    assert_eq!(d.caveats, vec![NO_LINKS.to_string()]);
    let card: toml::Value = toml::from_str(&d.toml).expect("lisible");
    assert_eq!(strings(&card, "tops"), titles(&["A", "B", "C", "D", "E"]));

    let d = draft(
        "the-cure",
        "abc",
        Ok(Some(facts_of("The Cure"))),
        "The Cure".into(),
        false,
        vec![],
        titles(&["Joy Division", "The Cure"]),
        &known,
    )
    .expect("drafted");
    assert_eq!(d.tops, 0);
    assert_eq!(d.links, 1);
    assert_eq!(d.caveats, vec![NO_TOPS.to_string()]);
}

#[test]
fn musicbrainz_decides_whether_a_card_is_drafted() {
    let known = Known::of(&vec![]);
    let by_hand_unknown = draft("x", "id-1", Ok(None), "X".into(), true, vec![], vec![], &known);
    assert_eq!(by_hand_unknown.err().as_deref(), Some("MusicBrainz does not know the id id-1"));
    let searched_unknown = draft("x", "id-1", Ok(None), "X".into(), false, vec![], vec![], &known);
    assert_eq!(searched_unknown.err(), Some(forgotten("id-1")));
    let searched_failed = draft("x", "id-1", Err("timeout".into()), "X".into(), false, vec![], vec![], &known);
    assert_eq!(searched_failed.err().as_deref(), Some("timeout"));
    let d = draft("x", "id-1", Err("timeout".into()), "Xavier".into(), true, titles(&["Song"]), vec![], &known)
        .expect("a minimal card");
    assert_eq!(d.name, "Xavier");
    assert_eq!(d.tops, 1);
    assert_eq!(d.caveats, vec!["timeout: minimal card, to review".to_string(), NO_LINKS.to_string()]);
    let card: toml::Value = toml::from_str(&d.toml).expect("lisible");
    assert_eq!(card.get("name").and_then(|v| v.as_str()), Some("Xavier"));
    assert_eq!(card.get("mbid").and_then(|v| v.as_str()), Some("id-1"));
}

#[test]
fn a_draft_is_refused_only_on_titles_that_cannot_be_cut() {
    let known = Known::of(&vec![]);
    let r = try_draft("x", "id-1", Ok(Some(facts_of("X"))), "X".into(), false, titles(&["Song"]), vec![], &known);
    assert!(matches!(r, Some(Ok(_))));
    assert!(tops_can_be_cut(&titles(&["Vesoul (2011 Remaster)"])));
}

#[test]
fn an_ampersand_spelled_out_slugs_alike() {
    for name in ["Hall & Oates", "Simon & Garfunkel", "Earth, Wind & Fire", "A & B & C", "&", " & "] {
        assert_eq!(slugify(&name.replace(" & ", " and ")), slugify(name), "{name}");
    }
}
