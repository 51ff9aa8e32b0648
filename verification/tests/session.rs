use forkstify::fork::{Change, Diff, Proposal, Update};
use forkstify::keys::{Cmd, When};
use forkstify::session::{
    artist_gesture, prompt_of, seed_facts, seed_last, conflict_lines, diff_title, CardNews, dial_step, finder_enter, generated_line, ArtistMove, DialAction, job_step, listening_step, Action, FinderAction, FinderState, Hit, JobAction, JobDone, Notice,
    Playback, Resolution, Session, Stop,
};

fn listening() -> Session {
    Session {
        home: false,
        live: true,
        finder_open: false,
        explore_open: false,
        dial: None,
        comfort: 3,
        overlay: false,
        overlay_scroll: 0,
        overlay_max: 0,
        help_open: false,
        proposal_pending: false,
        link_pending: false,
        seed_offered: false,
        seed_fresh: false,
        selection: None,
        past: 2,
        axis: 5,
    }
}

#[test]
fn a_digit_takes_a_branch_at_the_end_of_the_current_one() {
    let (_, acts) = listening_step(&listening(), Cmd::Digit(2));
    assert!(matches!(
        acts.as_slice(),
        [Action::ClearNotices, Action::ClearTyped, Action::Choose(2, When::EndOfBranch), Action::OpenExploreIfAsked]
    ));
    let (_, acts) = listening_step(&listening(), Cmd::Fork { branch: 1, when: When::Now });
    assert!(matches!(acts[2], Action::Choose(1, When::Now)));
}

#[test]
fn enter_plays_the_selection_or_chooses_for_me() {
    let mut s = listening();
    s.selection = Some(4);
    let (t, acts) = listening_step(&s, Cmd::Auto);
    assert_eq!(t.selection, None);
    assert!(matches!(acts[2], Action::PlayAt(4)));
    let (_, acts) = listening_step(&listening(), Cmd::Auto);
    assert!(matches!(acts[2], Action::AutoAdvance));
}

#[test]
fn the_selection_starts_on_the_current_track_and_stays_on_the_axis() {
    let (t, _) = listening_step(&listening(), Cmd::Up);
    assert_eq!(t.selection, Some(1));
    let mut s = listening();
    s.selection = Some(4);
    let (t, _) = listening_step(&s, Cmd::Down);
    assert_eq!(t.selection, Some(4));
    let (t, _) = listening_step(&listening(), Cmd::Bottom);
    assert_eq!(t.selection, Some(4));
}

#[test]
fn the_layers_take_the_key_first() {
    let mut s = listening();
    s.finder_open = true;
    s.dial = Some(2);
    assert!(matches!(listening_step(&s, Cmd::Digit(1)).1.as_slice(), [Action::FinderKey(Cmd::Digit(1))]));
    let mut s = listening();
    s.dial = Some(2);
    assert!(matches!(listening_step(&s, Cmd::Up).1.as_slice(), [Action::ClearNotices, Action::DialKey(Cmd::Up)]));
    let mut s = listening();
    s.home = true;
    assert!(matches!(listening_step(&s, Cmd::Digit(1)).1.as_slice(), [Action::HomeCmd(Cmd::Digit(1))]));
    let mut s = listening();
    s.link_pending = true;
    assert!(matches!(listening_step(&s, Cmd::Digit(3)).1.as_slice(), [Action::ClearNotices, Action::LinkKey(_)]));
}

#[test]
fn a_long_overlay_scrolls_instead_of_moving_the_axis() {
    let mut s = listening();
    s.overlay = true;
    s.overlay_max = 3;
    s.overlay_scroll = 3;
    let (t, acts) = listening_step(&s, Cmd::Down);
    assert_eq!(t.overlay_scroll, 3);
    assert!(acts.is_empty());
    let (t, _) = listening_step(&s, Cmd::Unknown("k".into()));
    assert_eq!(t.overlay_scroll, 2);
    let (t, _) = listening_step(&s, Cmd::Digit(1));
    assert!(!t.overlay);
}

#[test]
fn a_proposal_opens_only_on_y() {
    let mut s = listening();
    s.proposal_pending = true;
    s.overlay = true;
    let (t, acts) = listening_step(&s, Cmd::Unknown("y".into()));
    assert!(!t.proposal_pending && !t.overlay);
    assert!(matches!(acts.as_slice(), [Action::CreatePullRequest]));
    let (_, acts) = listening_step(&s, Cmd::Next);
    assert!(matches!(acts.as_slice(), [Action::Say(Notice::NothingSent)]));
    let (t, _) = listening_step(&s, Cmd::Pending("f".into()));
    assert!(t.proposal_pending);
}

#[test]
fn a_fresh_seed_is_taken_by_enter_only() {
    let mut s = listening();
    s.seed_offered = true;
    s.seed_fresh = true;
    let (t, acts) = listening_step(&s, Cmd::Auto);
    assert!(!t.seed_offered);
    assert!(matches!(acts.as_slice(), [Action::ClearNotices, Action::StartSeed]));
    let (t, acts) = listening_step(&s, Cmd::Next);
    assert!(!t.seed_offered);
    assert!(matches!(acts[2], Action::Next));
}

#[test]
fn the_comfort_dial_opens_on_the_comfort_there_is() {
    let (t, acts) = listening_step(&listening(), Cmd::ComfortMode);
    assert_eq!(t.dial, Some(3));
    assert!(matches!(acts[2], Action::Say(Notice::DialOpen)));
    let (_, acts) = listening_step(&listening(), Cmd::Unknown("zz".into()));
    assert!(matches!(&acts[2], Action::Say(Notice::Unknown(seq)) if seq == "zz"));
}

fn stop(title: &str, artist: &str) -> Stop {
    Stop { slug: "the-cure".into(), artist: artist.into(), title: title.into() }
}

fn waiting() -> Playback {
    Playback {
        loading: true,
        current: Some(stop("A Forest", "The Cure")),
        queue: vec![stop("Lullaby", "The Cure")],
        web_ok: true,
        asked: Some("brel".into()),
        catalog_busy: true,
    }
}

fn resolved(title: &str, result: Resolution) -> JobDone {
    JobDone::Resolved { title: title.into(), artist: "The Cure".into(), result }
}

#[test]
fn a_lookup_for_another_track_changes_nothing() {
    let (p, acts) = job_step(waiting(), resolved("Lullaby", Resolution::Absent));
    assert!(acts.is_empty());
    assert!(p.loading && p.current.is_some());
}

#[test]
fn an_absent_track_is_said_and_skipped() {
    let (p, acts) = job_step(waiting(), resolved("A Forest", Resolution::Absent));
    assert!(!p.loading && p.current.is_none() && p.web_ok);
    assert!(matches!(acts.as_slice(), [JobAction::Skipped { absent: true, .. }, JobAction::Next]));
    let (_, acts) = job_step(
        waiting(),
        resolved("A Forest", Resolution::Track { uri: "spotify:track:x".into(), readable: true }),
    );
    assert!(matches!(&acts[0], JobAction::Play(uri) if uri == "spotify:track:x"));
}

#[test]
fn a_failed_lookup_puts_the_track_back_and_waits() {
    let (p, acts) = job_step(waiting(), resolved("A Forest", Resolution::Failed("offline".into())));
    assert!(!p.web_ok && p.current.is_none());
    assert_eq!(p.queue.len(), 2);
    assert_eq!(p.queue[0].title, "A Forest");
    assert!(matches!(&acts[0], JobAction::Blocked(why) if why == "offline"));
}

#[test]
fn only_the_answer_to_the_current_query_reaches_the_modal() {
    let (_, acts) = job_step(waiting(), JobDone::Searched { query: "bre".into(), rows: Ok(vec![]) });
    assert!(acts.is_empty());
    let (_, acts) = job_step(waiting(), JobDone::Searched { query: "brel".into(), rows: Ok(vec!["x".into()]) });
    assert!(matches!(&acts[0], JobAction::ShowFound(Ok(rows)) if rows.len() == 1));
}

fn finder(row: Option<Hit>) -> FinderState {
    FinderState {
        row,
        insert: None,
        link_from: None,
        drawn: vec![],
        home: false,
        queue_len: 3,
        card_name: None,
    }
}

fn off_catalog() -> Hit {
    Hit::Track {
        title: "Amsterdam".into(),
        artist: "Jacques Brel".into(),
        uri: "spotify:track:y".into(),
        slug: None,
        spotify: Some("id".into()),
    }
}

#[test]
fn enter_from_the_home_starts_a_journey_or_brings_the_artist_in() {
    let mut f = finder(Some(Hit::Artist("the-cure".into())));
    f.home = true;
    assert!(matches!(finder_enter(f), FinderAction::StartArtist(s) if s == "the-cure"));
    let mut f = finder(Some(off_catalog()));
    f.home = true;
    assert!(matches!(finder_enter(f), FinderAction::GenerateAndPlay { slug, .. } if slug == "jacques-brel"));
    assert!(matches!(finder_enter(finder(None)), FinderAction::Nothing));
}

#[test]
fn an_insertion_is_held_within_the_queue() {
    let mut f = finder(Some(off_catalog()));
    f.insert = Some(9);
    match finder_enter(f) {
        FinderAction::Insert { at, generate: Some((slug, artist, _)) } => {
            assert_eq!(at, 3);
            assert_eq!(slug, "jacques-brel");
            assert_eq!(artist, "Jacques Brel");
        }
        _ => panic!("an insertion"),
    }
    assert!(matches!(finder_enter(finder(Some(off_catalog()))), FinderAction::Queue));
}

#[test]
fn a_connection_asks_how_close_or_reopens_the_one_drawn() {
    let mut f = finder(Some(Hit::Artist("joy-division".into())));
    f.link_from = Some(("the-cure".into(), "The Cure".into()));
    match finder_enter(f) {
        FinderAction::Ask { to_slug, to_name, proximity, .. } => {
            assert_eq!(to_slug, "joy-division");
            assert_eq!(to_name, "joy division");
            assert_eq!(proximity, 4);
        }
        _ => panic!("a question"),
    }
    let mut f = finder(Some(Hit::Artist("joy-division".into())));
    f.drawn = vec![("the-cure".into(), "joy-division".into(), 2)];
    assert!(matches!(finder_enter(f), FinderAction::Reopen { proximity: 2, .. }));
}

#[test]
fn the_home_answers_the_moves_of_what_plays_underneath() {
    let mut s = listening();
    s.home = true;
    assert!(matches!(listening_step(&s, Cmd::Next).1.as_slice(), [Action::Next]));
    assert!(matches!(listening_step(&s, Cmd::Artist('l')).1.as_slice(), [Action::HomeCmd(_), Action::Recompute]));
    assert!(matches!(listening_step(&s, Cmd::Digit(2)).1.as_slice(), [Action::HomeCmd(Cmd::Digit(2))]));
    assert!(matches!(
        listening_step(&s, Cmd::Fork { branch: 1, when: When::Now }).1.as_slice(),
        [Action::Say(Notice::ListeningKeys)]
    ));
    s.live = false;
    assert!(matches!(listening_step(&s, Cmd::Prev).1.as_slice(), [Action::Say(Notice::NothingPlaying)]));
    assert!(matches!(listening_step(&s, Cmd::Track('i')).1.as_slice(), [Action::Say(Notice::NothingToInsert)]));
    s.help_open = true;
    s.overlay = true;
    let (t, acts) = listening_step(&s, Cmd::Escape);
    assert!(acts.is_empty() && !t.help_open && !t.overlay);
}

#[test]
fn an_artist_without_a_card_is_given_one_on_ad_only() {
    assert!(matches!(
        artist_gesture('d', None, "Jacques Brel".into()),
        ArtistMove::GenerateCard(slug, name) if slug == "jacques-brel" && name == "Jacques Brel"
    ));
    assert!(matches!(artist_gesture('l', None, "X".into()), ArtistMove::NoCard(n) if n == "X"));
    assert!(matches!(artist_gesture('g', None, "X".into()), ArtistMove::Act('g', None, _)));
    assert!(matches!(artist_gesture('l', Some("x".into()), "X".into()), ArtistMove::Act('l', Some(_), _)));
}

#[test]
fn a_harvest_feeds_the_tail_and_the_track_waiting_on_it() {
    let job = JobDone::Harvested { slug: "the-cure".into(), name: "The Cure".into(), count: Ok(0), quiet: false, shown: false };
    let (_, acts) = job_step(waiting(), job);
    assert!(matches!(
        acts.as_slice(),
        [JobAction::Harvested(_), JobAction::KeepTail, JobAction::PlayFromTail, JobAction::HarvestSaid { count: Ok(0), .. }]
    ));
    let job = JobDone::Harvested { slug: "brel".into(), name: "Brel".into(), count: Err("offline".into()), quiet: true, shown: false };
    let (_, acts) = job_step(waiting(), job);
    assert!(matches!(acts.as_slice(), [JobAction::Harvested(s)] if s == "brel"));
    let job = JobDone::Harvested { slug: "brel".into(), name: "Brel".into(), count: Ok(12), quiet: true, shown: true };
    let (_, acts) = job_step(waiting(), job);
    assert!(matches!(acts.as_slice(), [JobAction::Harvested(_), JobAction::KeepTail, JobAction::ReloadExplore(Ok(12))]));
}

#[test]
fn a_failed_generation_is_said_and_its_gap_marked_again() {
    let (_, acts) = job_step(waiting(), JobDone::GenerationFailed { slug: "jacques-brel".into(), why: "timeout".into() });
    assert!(matches!(
        acts.as_slice(),
        [JobAction::Generated(s), JobAction::MarkPending, JobAction::GenerationSaid { why, .. }] if s == "jacques-brel" && why == "timeout"
    ));
    let (_, acts) = job_step(waiting(), JobDone::PullRequest(Ok("https://x/1".into())));
    assert!(matches!(&acts[0], JobAction::PullRequestSaid(Ok(url)) if url == "https://x/1"));
}

#[test]
fn the_dial_moves_a_notch_confirms_or_cancels() {
    let mut s = listening();
    s.dial = Some(3);
    s.comfort = 5;
    let (t, acts) = dial_step(&s, &Cmd::Up);
    assert_eq!(t.comfort, 5);
    assert!(matches!(acts.as_slice(), [DialAction::Said { value: 5, set: false }]));
    let (t, _) = dial_step(&s, &Cmd::Down);
    assert_eq!(t.comfort, 4);
    let (t, acts) = dial_step(&s, &Cmd::Auto);
    assert_eq!(t.dial, None);
    assert!(matches!(
        acts.as_slice(),
        [DialAction::Remember(5), DialAction::Recompute, DialAction::Said { value: 5, set: true }]
    ));
    let (t, acts) = dial_step(&s, &Cmd::Escape);
    assert_eq!((t.comfort, t.dial), (3, None));
    assert!(acts.is_empty());
    assert!(matches!(dial_step(&s, &Cmd::Quit).1.as_slice(), [DialAction::Quit]));
}

#[test]
fn a_generated_card_is_announced_with_what_it_holds() {
    assert_eq!(
        generated_line("The Cure", None, 5, 2, &vec![], None, false),
        "✓ The Cure — generated card: 5 top(s), 2 link(s) · vector computed"
    );
    assert_eq!(
        generated_line(
            "The Cure",
            Some("Cure"),
            0,
            0,
            &vec!["no tops: Deezer does not know this artist".to_string(), "no links".to_string()],
            Some("no model"),
            true,
        ),
        "✓ The Cure — card regenerated (was Cure): 0 top(s), 0 link(s) (no tops: Deezer does not know this artist · no links) · no vector (no model): navigating by the graph · learned of the old artist dropped"
    );
}

fn news() -> CardNews {
    CardNews { name: "Jacques Brel".into(), replaced: None, tops: 5, links: 2, caveats: vec![], no_vector: None }
}

#[test]
fn a_drafted_card_is_vectorized_then_adopted_and_announced() {
    let (_, acts) = job_step(waiting(), JobDone::Drafted { slug: "jacques-brel".into(), name: "Jacques Brel".into(), model_cached: false });
    assert!(matches!(acts.as_slice(), [JobAction::ModelDownloading(n), JobAction::Vectorize(s)] if n == "Jacques Brel" && s == "jacques-brel"));
    let (_, acts) = job_step(waiting(), JobDone::Adopted { slug: "jacques-brel".into(), card: news(), result: Ok(true) });
    assert!(matches!(
        acts.as_slice(),
        [JobAction::Generated(_), JobAction::GapFilled(_), JobAction::Announce { dropped: true, .. }, JobAction::AttachStops(_), JobAction::AfterCard { name, .. }]
            if name == "Jacques Brel"
    ));
    let (_, acts) = job_step(waiting(), JobDone::Adopted { slug: "jacques-brel".into(), card: news(), result: Err("disk full".into()) });
    assert!(matches!(acts.as_slice(), [JobAction::Generated(_), JobAction::MarkPending, JobAction::AdoptionSaid { why, .. }] if why == "disk full"));
    let (_, acts) = job_step(waiting(), JobDone::Existing { slug: "x".into(), name: "X".into() });
    assert!(matches!(acts.as_slice(), [JobAction::AfterCard { .. }]));
}

fn proposal(existing: Option<&str>, through_gh: bool) -> Proposal {
    Proposal {
        title: "t".into(),
        body: "b".into(),
        count: 1,
        head: "me:proposal".into(),
        upstream: "ref/cards".into(),
        existing: existing.map(String::from),
        through_gh,
        account: None,
    }
}

#[test]
fn the_catalog_jobs_free_the_catalog_and_say_what_came() {
    let (p, acts) = job_step(waiting(), JobDone::Proposed(Ok(proposal(Some("https://x/2"), true))));
    assert!(!p.catalog_busy);
    assert!(matches!(&acts[0], JobAction::ProposalUpdated(url) if url == "https://x/2"));
    let (_, acts) = job_step(waiting(), JobDone::Proposed(Ok(proposal(None, false))));
    assert!(matches!(acts.as_slice(), [JobAction::ProposalInBrowser(_)]));
    let (_, acts) = job_step(waiting(), JobDone::Proposed(Ok(proposal(None, true))));
    assert!(matches!(acts.as_slice(), [JobAction::AskProposal(_)]));
    let update = Update { cards: 2, conflicts: vec![], word: "2 cards".into() };
    let (_, acts) = job_step(waiting(), JobDone::Updated(Ok(update)));
    assert!(matches!(acts.as_slice(), [JobAction::ClearConflicts, JobAction::ReloadCatalog, JobAction::UpdateSaid(w)] if w == "2 cards"));
    let update = Update { cards: 2, conflicts: vec![("brel".into(), "tops".into())], word: String::new() };
    assert_eq!(
        conflict_lines(&update),
        vec![
            "conflict on cards/ — the merge is stopped, the hand is yours".to_string(),
            String::new(),
            "  ⊘ brel — tops".to_string(),
            String::new(),
            "the other cards are merged and wait in the index. nothing lost, nothing overwritten — the learned is not concerned.".to_string(),
            String::new(),
            "  o         open the first card — git add once resolved".to_string(),
            "  :catalog  resume — the merge completes, the index regenerates".to_string(),
            "  git merge --abort, by hand, to give it up".to_string(),
        ]
    );
    let (_, acts) = job_step(waiting(), JobDone::Updated(Ok(update)));
    assert!(matches!(acts.as_slice(), [JobAction::ShowConflicts(_)]));
    let diff = Diff { base: "main".into(), new: vec![], edited: vec![], removed: 0, updated: None };
    assert_eq!(diff_title(&diff), "C diff — nothing beyond the reference");
    let change = Change {
        slug: "x".into(),
        name: "X".into(),
        generated: true,
        summary: String::new(),
        added: 0,
        removed: 0,
        sections: String::new(),
        note: String::new(),
    };
    let diff = Diff { base: "main".into(), new: vec![change], edited: vec![], removed: 0, updated: None };
    assert_eq!(diff_title(&diff), "C diff — 1 card(s) beyond the reference");
    let (_, acts) = job_step(waiting(), JobDone::Diffed(Err("no git".into())));
    assert!(matches!(&acts[0], JobAction::DiffSaid(w) if w == "no git"));
}

#[test]
fn the_seed_block_and_the_prompt_say_what_there_is() {
    assert_eq!(seed_facts(1, 5), "1 link · 5 tops");
    assert_eq!(seed_facts(0, 2), "0 link · 2 tops");
    assert_eq!(seed_last(None), "never played");
    assert!(seed_last(Some(0)).starts_with("last played "));
    assert_eq!(prompt_of("", 0), "[1-1 branch · h/l · p · space = the keys · q]");
    assert_eq!(prompt_of("", 4), "[1-4 branch · h/l · p · space = the keys · q]");
    assert_eq!(prompt_of("fg", 4), "fg");
}
