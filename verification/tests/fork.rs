use forkstify::fork::{
    ahead_behind, card_summary, conflict_reason, conflict_side, numstat_counts, proposal_head, sections_of,
    short_repo, slug_of, sort_by_name, update_word, Change, Diff, Side, Status, update_start, merge_decision,
    resume_gate, resume_from, propose_gate, opens_browser, fork_gate, UpdateStart, MergeDecision,
};

#[test]
fn a_card_diff_names_its_sections() {
    let diff = "\
--- a/cards/the-cure.toml
+++ b/cards/the-cure.toml
@@ -12,2 +12,3 @@
-  \"A Forest\",
+  \"A Forest\",
+  \"Lullaby\",
@@ -20 +21 @@
+  { to = \"siouxsie\", type = \"member\", note = \"linked while listening, 2026-09-06\" },
-description = \"old\"
+description = \"new\"
";
    let (sections, notes) = sections_of(diff);
    assert_eq!(sections.into_iter().collect::<Vec<_>>(), vec!["description", "member", "tops"]);
    assert_eq!(notes, vec!["linked while listening, 2026-09-06"]);
}

#[test]
fn a_new_card_sums_up_in_a_line() {
    let card = "format = 1\nname = \"Codeine\"\nmbid = \"x\"\ngenerated = true\n\ntags = [\"slowcore\", \"us\", \"90s\"]\n\nlinks = [\n  { to = \"duster\", type = \"similar\" },\n  { to = \"low\", type = \"similar\" },\n]\n";
    let (name, generated, summary) = card_summary(card);
    assert_eq!(name, "Codeine");
    assert!(generated);
    assert_eq!(summary, "slowcore, us · 2 similar");
}

fn change(slug: &str, name: &str, generated: bool, summary: &str, added: usize, removed: usize, sections: &str, note: &str) -> Change {
    Change {
        slug: slug.into(),
        name: name.into(),
        generated,
        summary: summary.into(),
        added,
        removed,
        sections: sections.into(),
        note: note.into(),
    }
}

/// The pull request is written for the maintainers upstream: the new cards to skim, the
/// edited ones to read, the trailer last.
#[test]
fn the_proposal_reads_in_two_lists() {
    let diff = Diff {
        base: "upstream/main".into(),
        new: vec![change("codeine", "Codeine", true, "slowcore · 4 similar", 0, 0, "", "")],
        edited: vec![change("the-cure", "The Cure", false, "", 3, 1, "member, tops", "listening, 09/2026")],
        removed: 0,
        updated: None,
    };
    let trailer = "Forkstify: proposal 0.1.0";
    assert_eq!(diff.title(), "Propose 2 cards (1 generated, 1 edited)");
    let body = diff.body(trailer);
    assert!(body.starts_with("## New cards (1) — pipeline output, nothing to read\n\n- codeine · generated · slowcore · 4 similar\n"), "{body}");
    assert!(body.contains("## Edited cards (1) — please read\n\n- the-cure +3 −1 · member, tops\n  source: listening, 09/2026\n"), "{body}");
    assert!(body.trim_end().ends_with(trailer), "{body}");
    let lines = diff.lines(10);
    assert!(lines[1].contains("+ 1 new · ~ 1 edited · 0 removed"), "{:?}", lines);
    assert!(lines.iter().any(|l| l.contains("~ The Cure") && l.contains("+3 −1") && l.contains("member, tops")), "{:?}", lines);
}

#[test]
fn a_remote_reads_as_owner_slash_repo() {
    assert_eq!(short_repo("git@github.com:kbyjoel/forkstify-catalog.git"), "kbyjoel/forkstify-catalog");
    assert_eq!(short_repo("https://github.com/aropixel/forkstify-catalog"), "aropixel/forkstify-catalog");
}

#[test]
fn an_empty_diff_says_so() {
    let diff = Diff { base: "upstream/main".into(), new: vec![], edited: vec![], removed: 0, updated: None };
    assert!(diff.is_empty());
    assert_eq!(diff.lines(10), vec!["nothing beyond upstream/main — the catalog is the reference's"]);
}

#[test]
fn the_overlay_caps_the_new_cards() {
    let diff = Diff {
        base: "upstream/main".into(),
        new: vec![
            change("a", "A", true, "x", 0, 0, "", ""),
            change("b", "B", false, "y", 0, 0, "", ""),
            change("c", "C", true, "", 0, 0, "", ""),
        ],
        edited: vec![],
        removed: 2,
        updated: Some("2026-09-20".into()),
    };
    let lines = diff.lines(2);
    assert_eq!(lines[0], "3 card(s) beyond the reference · updated on 2026-09-20");
    assert_eq!(lines[1], "+ 3 new · ~ 0 edited · 2 removed");
    assert_eq!(lines[4], format!("  + {:<24} {:<10} {}", "A", "generated", "x"));
    assert_eq!(lines[5], format!("  + {:<24} {:<10} {}", "B", "written", "y"));
    assert_eq!(lines[6], "  … 1 more");
    assert_eq!(lines.len(), 7);
    assert_eq!(diff.title(), "Propose 3 cards (2 generated, 1 written)");
    assert!(diff.body("t").contains("2 card(s) removed.\n\n"));
}

#[test]
fn a_path_names_its_card() {
    assert_eq!(slug_of("cards/the-cure.toml"), "the-cure");
    assert_eq!(slug_of("the-cure"), "the-cure");
}

#[test]
fn what_git_prints_is_read() {
    assert_eq!(numstat_counts("3\t1\tcards/the-cure.toml"), (3, 1));
    assert_eq!(numstat_counts("-\t-\tbinary"), (0, 0));
    assert_eq!(ahead_behind("2\t5\n"), (2, 5));
    assert_eq!(ahead_behind("oops"), (0, 0));
}

#[test]
fn a_stopped_merge_settles_what_it_can() {
    assert!(matches!(conflict_side("vectors/vectors.jsonl"), Side::Theirs));
    assert!(matches!(conflict_side("CONTRIBUTING.md"), Side::Theirs));
    assert!(matches!(conflict_side("learned/artists/the-cure.toml"), Side::Ours));
    assert!(matches!(conflict_side("cards/the-cure.toml"), Side::Card));
    assert_eq!(
        conflict_reason(&vec!["tops".into()], &vec![]),
        "upstream changed the tops · you changed the the same lines"
    );
}

#[test]
fn the_update_says_what_came() {
    assert_eq!(update_word(0, true, ""), "up to date with the reference");
    assert_eq!(update_word(2, true, ""), "2 card(s) from the reference · index regenerated");
    assert_eq!(update_word(1, false, " · later"), "1 card(s) from the reference · later");
    assert_eq!(proposal_head("git@github.com:kbyjoel/forkstify-catalog.git"), "kbyjoel:proposal");
}

#[test]
fn changes_sort_by_name_and_keep_their_order() {
    let sorted = sort_by_name(vec![
        change("b", "Beta", false, "", 0, 0, "", ""),
        change("a1", "Alpha", false, "", 0, 0, "", ""),
        change("a2", "Alpha", false, "", 0, 0, "", ""),
    ]);
    let slugs: Vec<&str> = sorted.iter().map(|c| c.slug.as_str()).collect();
    assert_eq!(slugs, vec!["a1", "a2", "b"]);
}

#[test]
fn the_state_in_one_line() {
    let status = Status {
        origin: Some("kbyjoel/forkstify-catalog".into()),
        upstream: Some("aropixel/forkstify-catalog".into()),
        local: false,
        ahead: 2,
        behind: 1,
        updated: None,
        cards: 316,
        extra: 4,
        merging: false,
        pending: false,
    };
    let lines = status.lines();
    assert_eq!(lines[0], "⇅ kbyjoel/forkstify-catalog · 2 ahead · 1 behind · never updated from the reference");
    assert_eq!(lines[4], "  cards     316 — 4 beyond the reference");
    assert_eq!(lines.len(), 7);
}

#[test]
fn the_git_steps_decide_what_comes_next() {
    assert!(matches!(update_start(true, true), UpdateStart::Pull));
    assert!(matches!(update_start(false, true), UpdateStart::Resume));
    assert!(matches!(update_start(false, false), UpdateStart::Merge));
    assert!(matches!(merge_decision(None, &vec![]), MergeDecision::Finish));
    assert!(matches!(merge_decision(Some("boom".into()), &vec![]), MergeDecision::Failed(e) if e == "merge: boom"));
    let paths = vec![
        "vectors/index.bin".to_string(),
        "learned/artists/x.toml".to_string(),
        "cards/the-cure.toml".to_string(),
        "README.md".to_string(),
    ];
    match merge_decision(Some("conflict".into()), &paths) {
        MergeDecision::Resolve { theirs, ours, cards } => {
            assert_eq!(theirs, vec!["vectors/index.bin".to_string(), "README.md".to_string()]);
            assert_eq!(ours, vec!["learned/artists/x.toml".to_string()]);
            assert_eq!(cards, vec!["cards/the-cure.toml".to_string()]);
        }
        _ => panic!("stopped on cards"),
    }
    assert_eq!(resume_gate(2).as_deref(), Some("2 card(s) still unmerged — git add them once resolved"));
    assert_eq!(resume_gate(0), None);
    assert_eq!(resume_from("  abc123\n"), Ok("abc123".to_string()));
    assert_eq!(resume_from(""), Err("nothing to resume".to_string()));
    assert_eq!(
        propose_gate(true, None, None),
        Err("local mode — nothing to propose from: :catalog fork <url> first".to_string())
    );
    assert_eq!(propose_gate(false, Some("u".into()), None), Err("no origin remote".to_string()));
    assert_eq!(propose_gate(false, Some("u".into()), Some("o".into())), Ok(("u".to_string(), "o".to_string())));
    assert!(opens_browser(false, &None));
    assert!(!opens_browser(false, &Some("url".into())));
    assert_eq!(fork_gate(false, None, false), Err("this catalog is a fork already".to_string()));
    assert_eq!(fork_gate(true, Some("ref".into()), false), Ok(Some("ref".to_string())));
    assert_eq!(fork_gate(true, Some("ref".into()), true), Ok(None));
}
