//! The listening session's decisions: what a key does, and what a finished
//! job changes. Each step takes the session as it stands and what happened,
//! and gives the session after it and what is to be done, in order; the
//! loop that reads the keys, awaits the jobs and plays the sound performs
//! the actions.
use vstd::prelude::*;
use crate::keys::{Cmd, When};
use crate::listen::{keeps_overlay, keeps_overlay_of, overlay_scroll, scroll_to};
use crate::text::{chars_of, decimal, decimal_of, join, join_of, push_all, push_str, same_str, string_of, views};
use crate::edit::strings;
use crate::fork::{Diff, Proposal, Update};
use crate::generate::{asked_name, asked_of, slug_of_name, slugify};

verus! {

/// Where the session stands, as far as a key can tell.
#[derive(Clone, Copy)]
pub struct Session {
    /// The home is on screen (the listening may go on underneath).
    pub home: bool,
    /// A journey plays (underneath the home, maybe).
    pub live: bool,
    /// The search modal is open.
    pub finder_open: bool,
    /// The discography modal is open.
    pub explore_open: bool,
    /// While the comfort dial is open: the comfort it was opened on.
    pub dial: Option<u8>,
    /// The comfort zone, 0 (the unknown) to 5 (the known).
    pub comfort: u8,
    /// A block is laid over the screen.
    pub overlay: bool,
    pub overlay_scroll: usize,
    /// How far the block can scroll on this screen.
    pub overlay_max: usize,
    /// The block is the key helper.
    pub help_open: bool,
    /// A pushed proposal waits for its answer.
    pub proposal_pending: bool,
    /// A connection waits for its closeness.
    pub link_pending: bool,
    /// A fresh card offered itself as a seed, and whether the offer still
    /// stands.
    pub seed_offered: bool,
    pub seed_fresh: bool,
    /// The highlighted line of the axis.
    pub selection: Option<usize>,
    /// How many tracks of the axis are played.
    pub past: usize,
    /// How long the axis is: played, playing, to come.
    pub axis: usize,
}

/// What the session says, on a key that asks for nothing it can do.
pub enum Notice {
    /// A proposal answered with another key than `y`.
    NothingSent,
    /// The comfort dial opened.
    DialOpen,
    /// The branches were drawn again.
    OtherBranches,
    /// `/` while listening: searching is `:search`.
    SearchHere(String),
    /// `r` while listening.
    ResumeHere,
    /// `b` while listening.
    BrowseHere,
    /// `s` while listening.
    SortHere,
    /// A key of the discography modal, outside of it.
    ModalKeys,
    /// A sequence that means nothing.
    Unknown(String),
    /// `ti` at the home with nothing playing.
    NothingToInsert,
    /// `n` or `p` at the home with nothing playing.
    NothingPlaying,
    /// A key of the branches, the encores or the queue, at the home.
    ListeningKeys,
}

/// What is to be done, in order.
pub enum Action {
    /// The search modal takes the key.
    FinderKey(Cmd),
    /// The discography modal takes the key.
    ExploreKey(Cmd),
    /// The comfort dial takes the key.
    DialKey(Cmd),
    /// The waiting connection takes the key.
    LinkKey(Cmd),
    /// The home takes the key.
    HomeCmd(Cmd),
    /// The notices on screen are cleared.
    ClearNotices,
    /// Open the pull request of the pending proposal.
    CreatePullRequest,
    /// A gesture of the catalog namespace.
    CatalogGesture(char),
    /// Open the first card in conflict.
    OpenConflict,
    /// Start the journey from the seed offered.
    StartSeed,
    /// Show the half-typed sequence and follow it.
    Pending(String),
    /// Show the line being typed and follow it; `None` when it closes.
    Typing(Option<String>),
    /// Forget what was typed.
    ClearTyped,
    /// Follow the half-typed sequence, without showing it.
    FollowTyping(String),
    /// Follow the line being typed, without showing it.
    FollowLine(String),
    /// Say it.
    Say(Notice),
    /// Remember the journey and clear the screen for the home.
    LeaveForHome,
    /// Play the line at this index of the axis.
    PlayAt(usize),
    /// Choose for me.
    AutoAdvance,
    /// Take the highlighted line out of the queue.
    DropSelected,
    /// Move the highlighted line one step down (or up) the queue.
    MoveSelected(bool),
    /// Set the comfort zone, as `:comfort n` does.
    Comfort(u8),
    /// Take branch n, when.
    Choose(usize, When),
    /// Generate the card of gap n.
    GenerateGap(usize),
    /// Show the branches on offer.
    Preview,
    /// Draw the branches again.
    Recompute,
    /// Back up one branch.
    ForkUndo,
    /// More of the artist playing: count tracks, when.
    Encore(usize, When),
    Next,
    Back,
    Render,
    TogglePause,
    /// The key helper, on the namespace half-typed.
    Help(Option<char>),
    TrackKey(char),
    ArtistKey(char),
    Wander,
    /// Run a `:` line.
    RunColon(String),
    /// Open the discography if a key asked for it.
    OpenExploreIfAsked,
}

/// The selection moved a step along the axis: from the current track when
/// there is none, held within the axis.
pub open spec fn moved_selection(s: Session, down: bool) -> Option<usize> {
    if s.axis == 0 {
        s.selection
    } else {
        let here: int = match s.selection { Some(i) => i as int, None => s.past as int };
        let to: int = if down { here + 1 } else { here - 1 };
        let last: int = s.axis - 1;
        Some((if to < 0 { 0 } else if to > last { last } else { to }) as usize)
    }
}

/// The keys of the listening itself, once the modals, the dial, the
/// overlay, the proposal, the catalog and the connection have let it
/// through.
pub open spec fn listening_keys(s: Session, cmd: Cmd) -> (Session, Seq<Action>) {
    match cmd {
        Cmd::Quit => (Session { home: true, ..s }, seq![Action::LeaveForHome, Action::OpenExploreIfAsked]),
        Cmd::Auto => match s.selection {
            Some(i) => (Session { selection: None, ..s }, seq![Action::PlayAt(i), Action::OpenExploreIfAsked]),
            None => (s, seq![Action::AutoAdvance, Action::OpenExploreIfAsked]),
        },
        Cmd::Up => (Session { selection: moved_selection(s, false), ..s }, seq![Action::OpenExploreIfAsked]),
        Cmd::Down => (Session { selection: moved_selection(s, true), ..s }, seq![Action::OpenExploreIfAsked]),
        Cmd::Top => (Session { selection: Some(0), ..s }, seq![Action::OpenExploreIfAsked]),
        Cmd::Bottom => (
            Session { selection: Some((if s.axis > 0 { s.axis - 1 } else { 0 }) as usize), ..s },
            seq![Action::OpenExploreIfAsked],
        ),
        Cmd::Escape => (Session { selection: None, overlay: false, ..s }, seq![Action::OpenExploreIfAsked]),
        Cmd::Remove => (s, seq![Action::DropSelected, Action::OpenExploreIfAsked]),
        Cmd::MoveDown => (s, seq![Action::MoveSelected(true), Action::OpenExploreIfAsked]),
        Cmd::MoveUp => (s, seq![Action::MoveSelected(false), Action::OpenExploreIfAsked]),
        Cmd::ComfortMode => (
            Session { dial: Some(s.comfort), ..s },
            seq![Action::Say(Notice::DialOpen), Action::OpenExploreIfAsked],
        ),
        Cmd::Comfort(n) => (s, seq![Action::Comfort(n), Action::OpenExploreIfAsked]),
        Cmd::Digit(n) => (s, seq![Action::Choose(n, When::EndOfBranch), Action::OpenExploreIfAsked]),
        Cmd::Fork { branch, when } => (s, seq![Action::Choose(branch, when), Action::OpenExploreIfAsked]),
        Cmd::ForkGenerate(n) => (s, seq![Action::GenerateGap(n), Action::OpenExploreIfAsked]),
        Cmd::Peek => (s, seq![Action::Preview, Action::OpenExploreIfAsked]),
        Cmd::Reroll => (
            s,
            seq![Action::Recompute, Action::Say(Notice::OtherBranches), Action::Preview, Action::OpenExploreIfAsked],
        ),
        Cmd::ForkUndo => (s, seq![Action::ForkUndo, Action::OpenExploreIfAsked]),
        Cmd::Encore { count, when } => (s, seq![Action::Encore(count, when), Action::OpenExploreIfAsked]),
        Cmd::Next => (s, seq![Action::Next, Action::OpenExploreIfAsked]),
        Cmd::Prev => (s, seq![Action::Back, Action::Render, Action::OpenExploreIfAsked]),
        Cmd::PlayPause => (s, seq![Action::TogglePause, Action::OpenExploreIfAsked]),
        Cmd::Help(ns) => if s.help_open && ns is None {
            (Session { overlay: false, help_open: false, ..s }, seq![Action::OpenExploreIfAsked])
        } else {
            (Session { help_open: true, ..s }, seq![Action::Help(ns), Action::OpenExploreIfAsked])
        },
        Cmd::Search(q) => (s, seq![Action::Say(Notice::SearchHere(q)), Action::OpenExploreIfAsked]),
        Cmd::Track(k) => (s, seq![Action::TrackKey(k), Action::OpenExploreIfAsked]),
        Cmd::Artist(k) => (s, seq![Action::ArtistKey(k), Action::OpenExploreIfAsked]),
        Cmd::Wander => (s, seq![Action::Wander, Action::OpenExploreIfAsked]),
        Cmd::Resume => (s, seq![Action::Say(Notice::ResumeHere), Action::OpenExploreIfAsked]),
        Cmd::Browse => (s, seq![Action::Say(Notice::BrowseHere), Action::OpenExploreIfAsked]),
        Cmd::Sort => (s, seq![Action::Say(Notice::SortHere), Action::OpenExploreIfAsked]),
        Cmd::Enqueue | Cmd::Filter | Cmd::AlbumTop | Cmd::Undo => (
            s,
            seq![Action::Say(Notice::ModalKeys), Action::OpenExploreIfAsked],
        ),
        Cmd::Colon(text) => (s, seq![Action::RunColon(text)]),
        _ => (s, seq![Action::OpenExploreIfAsked]),
    }
}

/// Once past the layers: what is typed only shows, and a fresh seed offer
/// is taken by enter and dropped by anything else.
pub open spec fn typed_or_keys(s: Session, cmd: Cmd) -> (Session, Seq<Action>) {
    match cmd {
        Cmd::Pending(seq) => (s, seq![Action::Pending(seq)]),
        Cmd::Typing(line) => (s, seq![Action::Typing(line)]),
        Cmd::Unknown(seq) => (s, seq![Action::ClearTyped, Action::Say(Notice::Unknown(seq))]),
        _ => {
            let (t, acts) = listening_keys(s, cmd);
            (t, seq![Action::ClearTyped] + acts)
        },
    }
}

/// The listening screen's part: the notices clear, the overlay falls unless
/// the key keeps it, the seed offer is answered, then the key.
pub open spec fn listening_screen(s: Session, cmd: Cmd) -> (Session, Seq<Action>) {
    let kept = if keeps_overlay_of(cmd, s.help_open) {
        s
    } else {
        Session { overlay: false, overlay_scroll: 0, help_open: false, ..s }
    };
    if kept.seed_offered && kept.seed_fresh && cmd is Auto {
        (Session { seed_offered: false, ..kept }, seq![Action::ClearNotices, Action::StartSeed])
    } else {
        let t = Session { seed_offered: false, ..kept };
        let (u, acts) = typed_or_keys(t, cmd);
        (u, seq![Action::ClearNotices] + acts)
    }
}

/// The keys the home answers before its own table: the pause, the key
/// helper, what is typed, `:` lines, the tracks and the moves of what plays
/// underneath, the dial. An artist measure taken there draws the branches
/// again, when a journey plays.
pub open spec fn home_of(s: Session, cmd: Cmd) -> (Session, Seq<Action>) {
    let kept = if keeps_overlay_of(cmd, s.help_open) {
        s
    } else {
        Session { overlay: false, overlay_scroll: 0, help_open: false, ..s }
    };
    match cmd {
        Cmd::PlayPause => (s, seq![Action::TogglePause]),
        Cmd::Help(ns) => if kept.help_open && ns is None {
            (Session { overlay: false, help_open: false, ..kept }, seq![])
        } else {
            (Session { help_open: true, ..kept }, seq![Action::Help(ns)])
        },
        Cmd::Escape => if s.help_open { (kept, seq![]) } else { (kept, seq![Action::HomeCmd(cmd)]) },
        Cmd::Colon(text) => (kept, seq![Action::RunColon(text)]),
        Cmd::Pending(seq) => (kept, seq![Action::FollowTyping(seq), Action::HomeCmd(cmd)]),
        Cmd::Typing(Some(line)) => (kept, seq![Action::FollowLine(line), Action::HomeCmd(cmd)]),
        Cmd::Track(k) => if k == 'i' && !s.live {
            (kept, seq![Action::Say(Notice::NothingToInsert)])
        } else {
            (kept, seq![Action::TrackKey(k)])
        },
        Cmd::Next => if s.live { (kept, seq![Action::Next]) } else { (kept, seq![Action::Say(Notice::NothingPlaying)]) },
        Cmd::Prev => if s.live { (kept, seq![Action::Back]) } else { (kept, seq![Action::Say(Notice::NothingPlaying)]) },
        Cmd::Fork { .. } | Cmd::ForkGenerate(_) | Cmd::Peek | Cmd::Reroll | Cmd::ForkUndo | Cmd::Wander
        | Cmd::Encore { .. } | Cmd::MoveDown | Cmd::MoveUp => (kept, seq![Action::Say(Notice::ListeningKeys)]),
        Cmd::ComfortMode => (Session { dial: Some(s.comfort), ..kept }, seq![Action::Say(Notice::DialOpen)]),
        Cmd::Artist(_) => if s.live {
            (kept, seq![Action::HomeCmd(cmd), Action::Recompute])
        } else {
            (kept, seq![Action::HomeCmd(cmd)])
        },
        _ => (kept, seq![Action::HomeCmd(cmd)]),
    }
}

/// What a key does while listening (and the layers every screen shares):
/// the search modal, then the discography, then the comfort dial take it
/// first; a long overlay scrolls; a pending proposal takes its answer; the
/// catalog keys and `o` work anywhere; a waiting connection takes the key;
/// the home has its own; then the listening's keys.
pub open spec fn listening_of(s: Session, cmd: Cmd) -> (Session, Seq<Action>) {
    if s.finder_open {
        (s, seq![Action::FinderKey(cmd)])
    } else if s.explore_open && s.dial is None {
        (s, seq![Action::ExploreKey(cmd)])
    } else if s.dial is Some {
        (s, seq![Action::ClearNotices, Action::DialKey(cmd)])
    } else if s.overlay && !s.help_open && scroll_to(cmd, s.overlay_scroll, s.overlay_max) is Some {
        (Session { overlay_scroll: scroll_to(cmd, s.overlay_scroll, s.overlay_max)->0, ..s }, seq![])
    } else if s.proposal_pending && !(cmd is Pending || cmd is Typing || cmd is Help) {
        let t = Session { proposal_pending: false, overlay: false, ..s };
        if cmd matches Cmd::Unknown(q) && q@ == "y"@ {
            (t, seq![Action::CreatePullRequest])
        } else {
            (t, seq![Action::Say(Notice::NothingSent)])
        }
    } else {
        match cmd {
            Cmd::Catalog(k) => (Session { overlay: false, help_open: false, ..s }, seq![Action::CatalogGesture(k)]),
            Cmd::Open => (Session { overlay: false, ..s }, seq![Action::OpenConflict]),
            _ => if s.link_pending {
                (s, seq![Action::ClearNotices, Action::LinkKey(cmd)])
            } else if s.home {
                home_of(s, cmd)
            } else {
                listening_screen(s, cmd)
            },
        }
    }
}

fn moved(s: &Session, down: bool) -> (r: Option<usize>)
    ensures
        r == moved_selection(*s, down),
{
    if s.axis == 0 {
        return s.selection;
    }
    let here = match s.selection {
        Some(i) => i,
        None => s.past,
    };
    let last = s.axis - 1;
    if down {
        Some(if here >= last { last } else { here + 1 })
    } else {
        Some(if here == 0 { 0 } else if here - 1 > last { last } else { here - 1 })
    }
}

fn selection_keys(s: Session, cmd: Cmd) -> (r: (Session, Vec<Action>))
    requires
        cmd is Quit || cmd is Auto || cmd is Up || cmd is Down || cmd is Top || cmd is Bottom || cmd is Escape
            || cmd is ComfortMode || cmd is Help,
    ensures
        (r.0, r.1@) == listening_keys(s, cmd),
{
    let mut t = s;
    match cmd {
        Cmd::Quit => {
            t.home = true;
            (t, vec![Action::LeaveForHome, Action::OpenExploreIfAsked])
        },
        Cmd::Auto => match s.selection {
            Some(i) => {
                t.selection = None;
                (t, vec![Action::PlayAt(i), Action::OpenExploreIfAsked])
            },
            None => (t, vec![Action::AutoAdvance, Action::OpenExploreIfAsked]),
        },
        Cmd::Up => {
            t.selection = moved(&s, false);
            (t, vec![Action::OpenExploreIfAsked])
        },
        Cmd::Down => {
            t.selection = moved(&s, true);
            (t, vec![Action::OpenExploreIfAsked])
        },
        Cmd::Top => {
            t.selection = Some(0);
            (t, vec![Action::OpenExploreIfAsked])
        },
        Cmd::Bottom => {
            t.selection = Some(if s.axis > 0 { s.axis - 1 } else { 0 });
            (t, vec![Action::OpenExploreIfAsked])
        },
        Cmd::Escape => {
            t.selection = None;
            t.overlay = false;
            (t, vec![Action::OpenExploreIfAsked])
        },
        Cmd::ComfortMode => {
            t.dial = Some(s.comfort);
            (t, vec![Action::Say(Notice::DialOpen), Action::OpenExploreIfAsked])
        },
        Cmd::Help(ns) => {
            if s.help_open && ns.is_none() {
                t.overlay = false;
                t.help_open = false;
                (t, vec![Action::OpenExploreIfAsked])
            } else {
                t.help_open = true;
                (t, vec![Action::Help(ns), Action::OpenExploreIfAsked])
            }
        },
        _ => (t, vec![]),
    }
}

fn listening_keys_step(s: Session, cmd: Cmd) -> (r: (Session, Vec<Action>))
    ensures
        (r.0, r.1@) == listening_keys(s, cmd),
{
    let own = match &cmd {
        Cmd::Quit | Cmd::Auto | Cmd::Up | Cmd::Down | Cmd::Top | Cmd::Bottom | Cmd::Escape | Cmd::ComfortMode
        | Cmd::Help(_) => true,
        _ => false,
    };
    if own {
        return selection_keys(s, cmd);
    }
    let acts: Vec<Action> = match cmd {
        Cmd::Remove => vec![Action::DropSelected, Action::OpenExploreIfAsked],
        Cmd::MoveDown => vec![Action::MoveSelected(true), Action::OpenExploreIfAsked],
        Cmd::MoveUp => vec![Action::MoveSelected(false), Action::OpenExploreIfAsked],
        Cmd::Comfort(n) => vec![Action::Comfort(n), Action::OpenExploreIfAsked],
        Cmd::Digit(n) => vec![Action::Choose(n, When::EndOfBranch), Action::OpenExploreIfAsked],
        Cmd::Fork { branch, when } => vec![Action::Choose(branch, when), Action::OpenExploreIfAsked],
        Cmd::ForkGenerate(n) => vec![Action::GenerateGap(n), Action::OpenExploreIfAsked],
        Cmd::Peek => vec![Action::Preview, Action::OpenExploreIfAsked],
        Cmd::Reroll => vec![
            Action::Recompute,
            Action::Say(Notice::OtherBranches),
            Action::Preview,
            Action::OpenExploreIfAsked,
        ],
        Cmd::ForkUndo => vec![Action::ForkUndo, Action::OpenExploreIfAsked],
        Cmd::Encore { count, when } => vec![Action::Encore(count, when), Action::OpenExploreIfAsked],
        Cmd::Next => vec![Action::Next, Action::OpenExploreIfAsked],
        Cmd::Prev => vec![Action::Back, Action::Render, Action::OpenExploreIfAsked],
        Cmd::PlayPause => vec![Action::TogglePause, Action::OpenExploreIfAsked],
        Cmd::Search(q) => vec![Action::Say(Notice::SearchHere(q)), Action::OpenExploreIfAsked],
        Cmd::Track(k) => vec![Action::TrackKey(k), Action::OpenExploreIfAsked],
        Cmd::Artist(k) => vec![Action::ArtistKey(k), Action::OpenExploreIfAsked],
        Cmd::Wander => vec![Action::Wander, Action::OpenExploreIfAsked],
        Cmd::Resume => vec![Action::Say(Notice::ResumeHere), Action::OpenExploreIfAsked],
        Cmd::Browse => vec![Action::Say(Notice::BrowseHere), Action::OpenExploreIfAsked],
        Cmd::Sort => vec![Action::Say(Notice::SortHere), Action::OpenExploreIfAsked],
        Cmd::Enqueue | Cmd::Filter | Cmd::AlbumTop | Cmd::Undo => vec![
            Action::Say(Notice::ModalKeys),
            Action::OpenExploreIfAsked,
        ],
        Cmd::Colon(text) => vec![Action::RunColon(text)],
        _ => vec![Action::OpenExploreIfAsked],
    };
    (s, acts)
}

fn home_step(s: Session, cmd: Cmd) -> (r: (Session, Vec<Action>))
    ensures
        (r.0, r.1@) == home_of(s, cmd),
{
    let mut kept = s;
    if !keeps_overlay(&cmd, s.help_open) {
        kept.overlay = false;
        kept.overlay_scroll = 0;
        kept.help_open = false;
    }
    match cmd {
        Cmd::PlayPause => (s, vec![Action::TogglePause]),
        Cmd::Help(ns) => {
            if kept.help_open && ns.is_none() {
                kept.overlay = false;
                kept.help_open = false;
                (kept, vec![])
            } else {
                kept.help_open = true;
                (kept, vec![Action::Help(ns)])
            }
        },
        Cmd::Escape => {
            if s.help_open {
                (kept, vec![])
            } else {
                (kept, vec![Action::HomeCmd(Cmd::Escape)])
            }
        },
        Cmd::Colon(text) => (kept, vec![Action::RunColon(text)]),
        Cmd::Pending(seq) => {
            let follow = seq.clone();
            (kept, vec![Action::FollowTyping(follow), Action::HomeCmd(Cmd::Pending(seq))])
        },
        Cmd::Typing(Some(line)) => {
            let follow = line.clone();
            (kept, vec![Action::FollowLine(follow), Action::HomeCmd(Cmd::Typing(Some(line)))])
        },
        Cmd::Track(k) => {
            if k == 'i' && !s.live {
                (kept, vec![Action::Say(Notice::NothingToInsert)])
            } else {
                (kept, vec![Action::TrackKey(k)])
            }
        },
        Cmd::Next => {
            if s.live {
                (kept, vec![Action::Next])
            } else {
                (kept, vec![Action::Say(Notice::NothingPlaying)])
            }
        },
        Cmd::Prev => {
            if s.live {
                (kept, vec![Action::Back])
            } else {
                (kept, vec![Action::Say(Notice::NothingPlaying)])
            }
        },
        Cmd::Fork { .. } | Cmd::ForkGenerate(_) | Cmd::Peek | Cmd::Reroll | Cmd::ForkUndo | Cmd::Wander
        | Cmd::Encore { .. } | Cmd::MoveDown | Cmd::MoveUp => (kept, vec![Action::Say(Notice::ListeningKeys)]),
        Cmd::ComfortMode => {
            kept.dial = Some(s.comfort);
            (kept, vec![Action::Say(Notice::DialOpen)])
        },
        Cmd::Artist(k) => {
            if s.live {
                (kept, vec![Action::HomeCmd(Cmd::Artist(k)), Action::Recompute])
            } else {
                (kept, vec![Action::HomeCmd(Cmd::Artist(k))])
            }
        },
        other => (kept, vec![Action::HomeCmd(other)]),
    }
}

/// What an `a` gesture on the home's highlighted line comes to.
pub enum ArtistMove {
    /// `ad` on an artist without a card: arriving at them means making the
    /// card (slug, name), then their discography.
    GenerateCard(String, String),
    /// Another gesture that needs a card the artist does not have.
    NoCard(String),
    /// The gesture, done on the artist as when listening.
    Act(char, Option<String>, String),
}

/// What an `a` gesture the home handed back comes to: `ad` without a card
/// makes one; any other but `ag` (which needs none) is refused without one.
pub fn artist_gesture(key: char, slug: Option<String>, name: String) -> (r: ArtistMove)
    ensures
        key == 'd' && slug is None ==> (r matches ArtistMove::GenerateCard(g, n) && g@ == slug_of_name(name@) && n == name),
        key != 'd' && key != 'g' && slug is None ==> r == ArtistMove::NoCard(name),
        slug is Some || key == 'g' ==> r == ArtistMove::Act(key, slug, name),
{
    if key == 'd' && slug.is_none() {
        ArtistMove::GenerateCard(slugify(name.as_str()), name)
    } else if key != 'g' && slug.is_none() {
        ArtistMove::NoCard(name)
    } else {
        ArtistMove::Act(key, slug, name)
    }
}

/// What a key does while listening, and on the layers every screen shares.
#[verifier::rlimit(60)]
pub fn listening_step(s: &Session, cmd: Cmd) -> (r: (Session, Vec<Action>))
    ensures
        (r.0, r.1@) == listening_of(*s, cmd),
{
    let s = *s;
    if s.finder_open {
        return (s, vec![Action::FinderKey(cmd)]);
    }
    if s.explore_open && s.dial.is_none() {
        return (s, vec![Action::ExploreKey(cmd)]);
    }
    if s.dial.is_some() {
        return (s, vec![Action::ClearNotices, Action::DialKey(cmd)]);
    }
    if s.overlay && !s.help_open {
        if let Some(to) = overlay_scroll(&cmd, s.overlay_scroll, s.overlay_max) {
            let mut t = s;
            t.overlay_scroll = to;
            return (t, Vec::new());
        }
    }
    let shows_only = match &cmd {
        Cmd::Pending(_) | Cmd::Typing(_) | Cmd::Help(_) => true,
        _ => false,
    };
    if s.proposal_pending && !shows_only {
        let mut t = s;
        t.proposal_pending = false;
        t.overlay = false;
        let yes = match &cmd {
            Cmd::Unknown(q) => same_str(q.as_str(), "y"),
            _ => false,
        };
        return (t, if yes { vec![Action::CreatePullRequest] } else { vec![Action::Say(Notice::NothingSent)] });
    }
    match cmd {
        Cmd::Catalog(k) => {
            let mut t = s;
            t.overlay = false;
            t.help_open = false;
            return (t, vec![Action::CatalogGesture(k)]);
        },
        Cmd::Open => {
            let mut t = s;
            t.overlay = false;
            return (t, vec![Action::OpenConflict]);
        },
        _ => {},
    }
    if s.link_pending {
        return (s, vec![Action::ClearNotices, Action::LinkKey(cmd)]);
    }
    if s.home {
        return home_step(s, cmd);
    }
    let mut t = s;
    if !keeps_overlay(&cmd, s.help_open) {
        t.overlay = false;
        t.overlay_scroll = 0;
        t.help_open = false;
    }
    let is_auto = match &cmd {
        Cmd::Auto => true,
        _ => false,
    };
    if t.seed_offered && t.seed_fresh && is_auto {
        t.seed_offered = false;
        return (t, vec![Action::ClearNotices, Action::StartSeed]);
    }
    t.seed_offered = false;
    let mut acts: Vec<Action> = vec![Action::ClearNotices];
    match cmd {
        Cmd::Pending(seq) => {
            acts.push(Action::Pending(seq));
            (t, acts)
        },
        Cmd::Typing(line) => {
            acts.push(Action::Typing(line));
            (t, acts)
        },
        Cmd::Unknown(seq) => {
            acts.push(Action::ClearTyped);
            acts.push(Action::Say(Notice::Unknown(seq)));
            (t, acts)
        },
        other => {
            acts.push(Action::ClearTyped);
            let (u, mut rest) = listening_keys_step(t, other);
            let ghost head = acts@;
            let ghost tail = rest@;
            acts.append(&mut rest);
            assert(acts@ =~= head + tail);
            (u, acts)
        },
    }
}


// ---------------------------------------------------------------------------
// The jobs that come back.

/// A stop of the axis, as a job about it names it.
pub struct Stop {
    pub slug: String,
    pub artist: String,
    pub title: String,
}

/// What the sound needs to know of the session.
pub struct Playback {
    /// A track is shown and waits for its lookup.
    pub loading: bool,
    pub current: Option<Stop>,
    pub queue: Vec<Stop>,
    /// The web api answered last time it was asked.
    pub web_ok: bool,
    /// While the search modal is open: the query its Spotify job was sent for.
    pub asked: Option<String>,
    /// A catalog job (diff, proposal, update) runs.
    pub catalog_busy: bool,
}

pub struct PlaybackView {
    pub loading: bool,
    pub current: Option<Stop>,
    pub queue: Seq<Stop>,
    pub web_ok: bool,
    pub asked: Option<String>,
    pub catalog_busy: bool,
}

impl View for Playback {
    type V = PlaybackView;

    open spec fn view(&self) -> PlaybackView {
        PlaybackView {
            loading: self.loading,
            current: self.current,
            queue: self.queue@,
            web_ok: self.web_ok,
            asked: self.asked,
            catalog_busy: self.catalog_busy,
        }
    }
}

/// What the lookup of a track gave.
pub enum Resolution {
    /// Its uri, and whether the player can read it.
    Track { uri: String, readable: bool },
    /// Spotify has no such track.
    Absent,
    /// The lookup never went through.
    Failed(String),
}

/// A job that finished behind the keyboard.
pub enum JobDone {
    /// The lookup of a track.
    Resolved { title: String, artist: String, result: Resolution },
    /// Spotify's answer to the search modal's query, as rows to show.
    Searched { query: String, rows: Result<Vec<String>, String> },
    /// The discography of `slug` (its card named `name`) was asked for: how
    /// many tracks came, or why none did. `quiet` when nobody waits to be
    /// told; `shown` when the discography modal shows this artist.
    Harvested { slug: String, name: String, count: Result<usize, String>, quiet: bool, shown: bool },
    /// The card of `slug` could not be generated.
    GenerationFailed { slug: String, why: String },
    /// The pull request was opened (its address), or why not.
    PullRequest(Result<String, String>),
    /// The card of `slug` (named `name`) was drafted; `model_cached` when
    /// the model that computes its vector is already on disk.
    Drafted { slug: String, name: String, model_cached: bool },
    /// The card drafted was adopted into the catalog, or why not; what its
    /// announcement says comes with it.
    Adopted { slug: String, card: CardNews, result: Result<bool, String> },
    /// The card of `slug` was already in the catalog.
    Existing { slug: String, name: String },
    /// What the catalog has beyond the reference, or why it is not known.
    Diffed(Result<Diff, String>),
    /// The proposal was pushed, or why not.
    Proposed(Result<Proposal, String>),
    /// The reference was merged in, or why not.
    Updated(Result<Update, String>),
}

/// What is said of a card once adopted: its name, the card it replaced, its
/// tops and links, the draft's caveats, why there is no vector if there is
/// none.
pub struct CardNews {
    pub name: String,
    pub replaced: Option<String>,
    pub tops: usize,
    pub links: usize,
    pub caveats: Vec<String>,
    pub no_vector: Option<String>,
}

/// What a finished job asks for.
pub enum JobAction {
    /// Play this uri.
    Play(String),
    /// Say the track was skipped, and why: unreadable, or absent.
    Skipped { title: String, artist: String, absent: bool },
    /// Go on to the next track.
    Next,
    /// The lookup failed: say why, and wait.
    Blocked(String),
    /// Show Spotify's rows in the search modal.
    ShowFound(Result<Vec<String>, String>),
    /// The harvest of this artist is over.
    Harvested(String),
    /// The tracks that came join the artist's tail.
    KeepTail,
    /// The track shown waits on this harvest: play it from the tail, or
    /// look it up by its title.
    PlayFromTail,
    /// The discography modal shows this artist: reload it, or say why not.
    ReloadExplore(Result<usize, String>),
    /// Say the discography of this artist came: so many tracks (0 means the
    /// card's Spotify id may be wrong), or why it did not.
    HarvestSaid { name: String, count: Result<usize, String> },
    /// The generation of this card is over.
    Generated(String),
    /// The gaps of the catalog are marked again.
    MarkPending,
    /// Say the card of this slug (read back as a name) failed, and why.
    GenerationSaid { slug: String, why: String },
    /// Say the pull request was opened, or why not.
    PullRequestSaid(Result<String, String>),
    /// Say the model is being downloaded before the vector of this card.
    ModelDownloading(String),
    /// Compute the vector of the card drafted, behind.
    Vectorize(String),
    /// Say the card could not be adopted, and why.
    AdoptionSaid { name: String, why: String },
    /// The card exists now: the link that asked for it is no gap anymore.
    GapFilled(String),
    /// Announce the card adopted ([`generated_line`]); `dropped` when what
    /// was learned of the old artist went with it.
    Announce { card: CardNews, dropped: bool },
    /// The stops already on the axis for this artist join its card.
    AttachStops(String),
    /// Do what the card was asked for.
    AfterCard { slug: String, name: String },
    /// Lay the diff over the screen ([`diff_title`], `Diff::lines`).
    ShowDiff(Diff),
    /// Say why the diff failed.
    DiffSaid(String),
    /// The pull request already open was updated by the push: its address.
    ProposalUpdated(String),
    /// `gh` is not there: the comparison page opened in the browser.
    ProposalInBrowser(Proposal),
    /// Lay the proposal over the screen and wait for `y`.
    AskProposal(Proposal),
    /// Say why the proposal failed.
    ProposeSaid(String),
    /// The cards in conflict are none anymore.
    ClearConflicts,
    /// Reload the catalog: the reference brought cards.
    ReloadCatalog,
    /// Say what the update did (its word).
    UpdateSaid(String),
    /// The merge stopped on cards: remember them and lay them over the
    /// screen.
    ShowConflicts(Update),
    /// Say why the update failed.
    UpdateFailed(String),
}

/// Is the lookup about the track shown and waiting?
pub open spec fn waits_for(p: PlaybackView, title: String, artist: String) -> bool {
    &&& p.loading
    &&& p.current matches Some(c) && c.title@ == title@ && c.artist@ == artist@
}

/// What a finished job changes. A lookup that is not the track waiting (a
/// prefetch, a track already skipped) changes nothing; for the one waiting,
/// the web api counts as answering unless it failed, a readable uri plays,
/// an unreadable or absent one is said and skipped, and a failure puts the
/// track back at the head of the queue and waits. Spotify's rows reach the
/// search modal only if they answer its current query.
pub open spec fn job_of(p: PlaybackView, job: JobDone) -> (PlaybackView, Seq<JobAction>) {
    match job {
        JobDone::Resolved { title, artist, result } => if !waits_for(p, title, artist) {
            (p, seq![])
        } else {
            let q = PlaybackView { loading: false, web_ok: !(result is Failed), ..p };
            match result {
                Resolution::Track { uri, readable } => if readable {
                    (q, seq![JobAction::Play(uri)])
                } else {
                    (
                        PlaybackView { current: None, ..q },
                        seq![JobAction::Skipped { title, artist, absent: false }, JobAction::Next],
                    )
                },
                Resolution::Absent => (
                    PlaybackView { current: None, ..q },
                    seq![JobAction::Skipped { title, artist, absent: true }, JobAction::Next],
                ),
                Resolution::Failed(why) => (
                    PlaybackView { current: None, queue: seq![p.current->0] + p.queue, ..q },
                    seq![JobAction::Blocked(why)],
                ),
            }
        },
        JobDone::Searched { query, rows } => match p.asked {
            Some(a) => if a@ == query@ { (p, seq![JobAction::ShowFound(rows)]) } else { (p, seq![]) },
            None => (p, seq![]),
        },
        JobDone::Harvested { slug, name, count, quiet, shown } => {
            let keep: Seq<JobAction> = if count is Ok { seq![JobAction::KeepTail] } else { seq![] };
            let waiting = p.loading && (p.current matches Some(c) && c.slug@ == slug@);
            let play: Seq<JobAction> = if waiting { seq![JobAction::PlayFromTail] } else { seq![] };
            let said: Seq<JobAction> = if shown {
                seq![JobAction::ReloadExplore(count)]
            } else if quiet {
                seq![]
            } else {
                seq![JobAction::HarvestSaid { name, count }]
            };
            (p, seq![JobAction::Harvested(slug)] + keep + play + said)
        },
        JobDone::GenerationFailed { slug, why } => (
            p,
            seq![JobAction::Generated(slug), JobAction::MarkPending, JobAction::GenerationSaid { slug, why }],
        ),
        JobDone::PullRequest(result) => (p, seq![JobAction::PullRequestSaid(result)]),
        JobDone::Drafted { slug, name, model_cached } => (
            p,
            if model_cached {
                seq![JobAction::Vectorize(slug)]
            } else {
                seq![JobAction::ModelDownloading(name), JobAction::Vectorize(slug)]
            },
        ),
        JobDone::Adopted { slug, card, result } => match result {
            Err(why) => (
                p,
                seq![JobAction::Generated(slug), JobAction::MarkPending, JobAction::AdoptionSaid { name: card.name, why }],
            ),
            Ok(dropped) => (
                p,
                seq![
                    JobAction::Generated(slug),
                    JobAction::GapFilled(slug),
                    JobAction::Announce { card, dropped },
                    JobAction::AttachStops(slug),
                    JobAction::AfterCard { slug, name: card.name },
                ],
            ),
        },
        JobDone::Existing { slug, name } => (p, seq![JobAction::AfterCard { slug, name }]),
        JobDone::Diffed(result) => (
            PlaybackView { catalog_busy: false, ..p },
            match result {
                Ok(diff) => seq![JobAction::ShowDiff(diff)],
                Err(why) => seq![JobAction::DiffSaid(why)],
            },
        ),
        JobDone::Proposed(result) => (
            PlaybackView { catalog_busy: false, ..p },
            match result {
                Ok(proposal) => match proposal.existing {
                    Some(url) => seq![JobAction::ProposalUpdated(url)],
                    None => if proposal.through_gh {
                        seq![JobAction::AskProposal(proposal)]
                    } else {
                        seq![JobAction::ProposalInBrowser(proposal)]
                    },
                },
                Err(why) => seq![JobAction::ProposeSaid(why)],
            },
        ),
        JobDone::Updated(result) => (
            PlaybackView { catalog_busy: false, ..p },
            match result {
                Ok(update) => if update.conflicts@.len() == 0 {
                    if update.cards > 0 {
                        seq![JobAction::ClearConflicts, JobAction::ReloadCatalog, JobAction::UpdateSaid(update.word)]
                    } else {
                        seq![JobAction::ClearConflicts, JobAction::UpdateSaid(update.word)]
                    }
                } else {
                    seq![JobAction::ShowConflicts(update)]
                },
                Err(why) => seq![JobAction::UpdateFailed(why)],
            },
        ),
    }
}

/// The jobs that follow a card's generation and the catalog's.
fn later_step(p: Playback, job: JobDone) -> (r: (Playback, Vec<JobAction>))
    requires
        !(job is Resolved || job is Searched || job is Harvested || job is GenerationFailed || job is PullRequest),
    ensures
        (r.0@, r.1@) == job_of(p@, job),
{
    let mut p = p;
    match job {
        JobDone::Drafted { slug, name, model_cached } => {
            if model_cached {
                (p, vec![JobAction::Vectorize(slug)])
            } else {
                (p, vec![JobAction::ModelDownloading(name), JobAction::Vectorize(slug)])
            }
        },
        JobDone::Adopted { slug, card, result } => match result {
            Err(why) => {
                let name = card.name;
                (p, vec![JobAction::Generated(slug), JobAction::MarkPending, JobAction::AdoptionSaid { name, why }])
            },
            Ok(dropped) => {
                let (s1, s2, s3) = (slug.clone(), slug.clone(), slug.clone());
                let name = card.name.clone();
                (
                    p,
                    vec![
                        JobAction::Generated(s1),
                        JobAction::GapFilled(s2),
                        JobAction::Announce { card, dropped },
                        JobAction::AttachStops(s3),
                        JobAction::AfterCard { slug, name },
                    ],
                )
            },
        },
        JobDone::Existing { slug, name } => (p, vec![JobAction::AfterCard { slug, name }]),
        JobDone::Diffed(result) => {
            p.catalog_busy = false;
            match result {
                Ok(diff) => (p, vec![JobAction::ShowDiff(diff)]),
                Err(why) => (p, vec![JobAction::DiffSaid(why)]),
            }
        },
        JobDone::Proposed(result) => {
            p.catalog_busy = false;
            match result {
                Ok(proposal) => {
                    let through = proposal.through_gh;
                    match &proposal.existing {
                        Some(url) => {
                            let url = url.clone();
                            (p, vec![JobAction::ProposalUpdated(url)])
                        },
                        None => {
                            if through {
                                (p, vec![JobAction::AskProposal(proposal)])
                            } else {
                                (p, vec![JobAction::ProposalInBrowser(proposal)])
                            }
                        },
                    }
                },
                Err(why) => (p, vec![JobAction::ProposeSaid(why)]),
            }
        },
        JobDone::Updated(result) => {
            p.catalog_busy = false;
            match result {
                Ok(update) => {
                    if update.conflicts.len() == 0 {
                        let cards = update.cards;
                        let word = update.word;
                        if cards > 0 {
                            (p, vec![JobAction::ClearConflicts, JobAction::ReloadCatalog, JobAction::UpdateSaid(word)])
                        } else {
                            (p, vec![JobAction::ClearConflicts, JobAction::UpdateSaid(word)])
                        }
                    } else {
                        (p, vec![JobAction::ShowConflicts(update)])
                    }
                },
                Err(why) => (p, vec![JobAction::UpdateFailed(why)]),
            }
        },
        _ => (p, vec![]),
    }
}

/// What a finished job changes, and what it asks for.
pub fn job_step(p: Playback, job: JobDone) -> (r: (Playback, Vec<JobAction>))
    ensures
        (r.0@, r.1@) == job_of(p@, job),
{
    let mut p = p;
    match job {
        JobDone::Resolved { title, artist, result } => {
            let waiting = p.loading && match &p.current {
                Some(c) => same_str(c.title.as_str(), title.as_str()) && same_str(c.artist.as_str(), artist.as_str()),
                None => false,
            };
            if !waiting {
                return (p, Vec::new());
            }
            p.loading = false;
            p.web_ok = match &result {
                Resolution::Failed(_) => false,
                _ => true,
            };
            match result {
                Resolution::Track { uri, readable } => {
                    if readable {
                        (p, vec![JobAction::Play(uri)])
                    } else {
                        p.current = None;
                        (p, vec![JobAction::Skipped { title, artist, absent: false }, JobAction::Next])
                    }
                },
                Resolution::Absent => {
                    p.current = None;
                    (p, vec![JobAction::Skipped { title, artist, absent: true }, JobAction::Next])
                },
                Resolution::Failed(why) => {
                    let ghost before = p.queue@;
                    if let Some(stop) = p.current.take() {
                        p.queue.insert(0, stop);
                        assert(p.queue@ =~= seq![stop] + before);
                    }
                    (p, vec![JobAction::Blocked(why)])
                },
            }
        },
        JobDone::Searched { query, rows } => {
            let answers = match &p.asked {
                Some(a) => same_str(a.as_str(), query.as_str()),
                None => false,
            };
            if answers {
                (p, vec![JobAction::ShowFound(rows)])
            } else {
                (p, Vec::new())
            }
        },
        JobDone::Harvested { slug, name, count, quiet, shown } => {
            let waiting = p.loading && match &p.current {
                Some(c) => same_str(c.slug.as_str(), slug.as_str()),
                None => false,
            };
            let mut acts: Vec<JobAction> = vec![JobAction::Harvested(slug)];
            if count.is_ok() {
                acts.push(JobAction::KeepTail);
            }
            if waiting {
                acts.push(JobAction::PlayFromTail);
            }
            if shown {
                acts.push(JobAction::ReloadExplore(count));
            } else if !quiet {
                acts.push(JobAction::HarvestSaid { name, count });
            }
            (p, acts)
        },
        JobDone::GenerationFailed { slug, why } => {
            let slug2 = slug.clone();
            (p, vec![JobAction::Generated(slug), JobAction::MarkPending, JobAction::GenerationSaid { slug: slug2, why }])
        },
        JobDone::PullRequest(result) => (p, vec![JobAction::PullRequestSaid(result)]),
        other => later_step(p, other),
    }
}


// ---------------------------------------------------------------------------
// Enter in the search modal.

/// A row of the search modal.
pub enum Hit {
    /// A card of the catalog, by its slug.
    Artist(String),
    /// A track: from a card (`slug`) or off the catalog; `spotify` is its
    /// artist's id when Spotify found it.
    Track { title: String, artist: String, uri: String, slug: Option<String>, spotify: Option<String> },
}

/// The search modal as enter finds it.
pub struct FinderState {
    /// The row under the cursor, if the cursor is on one.
    pub row: Option<Hit>,
    /// `ti`: insert at this index of the queue.
    pub insert: Option<usize>,
    /// `ac`: the connection is drawn from this artist (slug, name).
    pub link_from: Option<(String, String)>,
    /// The connections already drawn: from, to, closeness.
    pub drawn: Vec<(String, String, u8)>,
    /// The modal was opened from the home.
    pub home: bool,
    /// How many tracks are to come.
    pub queue_len: usize,
    /// The name of the card the row belongs to, when the catalog has it.
    pub card_name: Option<String>,
}

/// What enter does in the search modal; the modal closes in every case but
/// the first.
pub enum FinderAction {
    /// No row under the cursor.
    Nothing,
    /// A connection already drawn: its question again, on its closeness.
    Reopen { from: String, to: String, proximity: u8 },
    /// `ac`: how close is this artist to the one the connection comes from?
    Ask { from_slug: String, from_name: String, to_slug: String, to_name: String, proximity: u8 },
    /// From the home: a journey from this card.
    StartArtist(String),
    /// From the home: a journey from this track of a card.
    StartTrack { slug: String, title: String },
    /// From the home, a track off the catalog: its card is generated, then
    /// it plays.
    GenerateAndPlay { slug: String, artist: String, title: String, uri: String, spotify: Option<String> },
    /// `ti` on a track: it enters the queue at `at`; off the catalog, the
    /// card of `generate` is made behind.
    Insert { at: usize, generate: Option<(String, String, Option<String>)> },
    /// `ti` on an artist: their best unplayed track enters the queue at `at`.
    InsertBest { at: usize, slug: String },
    /// Anything else: the row joins the end of the queue.
    Queue,
}

/// The first connection drawn on either side of `other`.
pub open spec fn first_drawn(drawn: Seq<(String, String, u8)>, other: Seq<char>) -> Option<int>
    decreases drawn.len(),
{
    if drawn.len() == 0 {
        None
    } else if drawn[0].0@ == other || drawn[0].1@ == other {
        Some(0)
    } else {
        match first_drawn(drawn.drop_first(), other) {
            Some(i) => Some(i + 1),
            None => None,
        }
    }
}

pub open spec fn drawn_of(f: FinderState) -> Option<int> {
    match f.row {
        Some(Hit::Artist(other)) => first_drawn(f.drawn@, other@),
        _ => None,
    }
}

proof fn lemma_first_drawn_range(drawn: Seq<(String, String, u8)>, other: Seq<char>)
    ensures
        first_drawn(drawn, other) matches Some(i) ==> 0 <= i < drawn.len(),
    decreases drawn.len(),
{
    if drawn.len() > 0 {
        lemma_first_drawn_range(drawn.drop_first(), other);
    }
}

fn find_drawn(drawn: &Vec<(String, String, u8)>, other: &str) -> (r: Option<usize>)
    ensures
        match first_drawn(drawn@, other@) {
            Some(i) => r == Some(i as usize),
            None => r is None,
        },
        r matches Some(i) ==> i < drawn@.len(),
        first_drawn(drawn@, other@) matches Some(i) ==> 0 <= i < drawn@.len(),
{
    proof {
        lemma_first_drawn_range(drawn@, other@);
    }
    assert(drawn@.skip(0) =~= drawn@);
    let mut i: usize = 0;
    while i < drawn.len()
        invariant
            i <= drawn@.len(),
            first_drawn(drawn@, other@) == match first_drawn(drawn@.skip(i as int), other@) {
                Some(k) => Some(k + i),
                None => None::<int>,
            },
        decreases drawn@.len() - i,
    {
        proof {
            assert(drawn@.skip(i as int).drop_first() =~= drawn@.skip(i + 1));
            assert(drawn@.skip(i as int)[0] == drawn@[i as int]);
        }
        if same_str(drawn[i].0.as_str(), other) || same_str(drawn[i].1.as_str(), other) {
            return Some(i);
        }
        i = i + 1;
    }
    assert(drawn@.skip(i as int) =~= Seq::<(String, String, u8)>::empty());
    None
}

/// What enter does in the search modal: a connection already drawn reopens
/// its question; `ac` asks how close the chosen artist is (4 to begin with:
/// "these two go together"); from the home, a card starts a journey and a
/// track off the catalog has its card made, then plays; `ti` inserts at its
/// anchor, held within the queue; anything else joins the queue.
pub fn finder_enter(f: FinderState) -> (r: FinderAction)
    ensures
        f.row is None ==> r is Nothing,
        f.row is Some && drawn_of(f) is Some ==> {
            let d = f.drawn@[drawn_of(f)->0];
            r matches FinderAction::Reopen { from, to, proximity } && from == d.0 && to == d.1 && proximity == d.2
        },
        f.row is Some && drawn_of(f) is None && f.link_from is Some ==> {
            let (fs, fname) = f.link_from->0;
            r matches FinderAction::Ask { from_slug, from_name, to_slug, to_name, proximity } && {
                &&& from_slug == fs && from_name == fname && proximity == 4
                &&& match f.row->0 {
                    Hit::Artist(slug) => to_slug == slug && to_name@ == match f.card_name {
                        Some(n) => n@,
                        None => asked_of(slug@, None),
                    },
                    Hit::Track { artist, slug, .. } => match slug {
                        Some(sl) => to_slug == sl && to_name@ == match f.card_name {
                            Some(n) => n@,
                            None => artist@,
                        },
                        None => to_slug@ == slug_of_name(artist@) && to_name == artist,
                    },
                }
            }
        },
        f.row is Some && drawn_of(f) is None && f.link_from is None && f.home ==> match f.row->0 {
            Hit::Artist(slug) => r == FinderAction::StartArtist(slug),
            Hit::Track { title, artist, uri, slug, spotify } => match slug {
                Some(sl) => r == (FinderAction::StartTrack { slug: sl, title }),
                None => r matches FinderAction::GenerateAndPlay { slug: g, artist: a, title: t, uri: u, spotify: sp }
                    && g@ == slug_of_name(artist@) && a == artist && t == title && u == uri && sp == spotify,
            },
        },
        f.row is Some && drawn_of(f) is None && f.link_from is None && !f.home ==> match f.insert {
            Some(at) => {
                let held = if at < f.queue_len { at } else { f.queue_len };
                match f.row->0 {
                    Hit::Artist(slug) => r == (FinderAction::InsertBest { at: held, slug }),
                    Hit::Track { artist, slug, spotify, .. } => r matches FinderAction::Insert { at: a, generate }
                        && a == held && match slug {
                            Some(_) => generate is None,
                            None => generate matches Some((g, n, sp)) && g@ == slug_of_name(artist@)
                                && n == artist && sp == spotify,
                        },
                }
            },
            None => r is Queue,
        },
{
    let row = match f.row {
        Some(h) => h,
        None => {
            return FinderAction::Nothing;
        },
    };
    let found = match &row {
        Hit::Artist(other) => find_drawn(&f.drawn, other.as_str()),
        _ => None,
    };
    if let Some(i) = found {
        let d = &f.drawn[i];
        return FinderAction::Reopen { from: d.0.clone(), to: d.1.clone(), proximity: d.2 };
    }
    if let Some((from_slug, from_name)) = f.link_from {
        let (to_slug, to_name) = match row {
            Hit::Artist(slug) => {
                let name = match f.card_name {
                    Some(n) => n,
                    None => asked_name(slug.as_str(), None),
                };
                (slug, name)
            },
            Hit::Track { artist, slug, .. } => match slug {
                Some(sl) => {
                    let name = match f.card_name {
                        Some(n) => n,
                        None => artist,
                    };
                    (sl, name)
                },
                None => (slugify(artist.as_str()), artist),
            },
        };
        return FinderAction::Ask { from_slug, from_name, to_slug, to_name, proximity: 4 };
    }
    if f.home {
        return match row {
            Hit::Artist(slug) => FinderAction::StartArtist(slug),
            Hit::Track { title, artist, uri, slug, spotify } => match slug {
                Some(sl) => FinderAction::StartTrack { slug: sl, title },
                None => FinderAction::GenerateAndPlay { slug: slugify(artist.as_str()), artist, title, uri, spotify },
            },
        };
    }
    match f.insert {
        Some(at) => {
            let held = if at < f.queue_len { at } else { f.queue_len };
            match row {
                Hit::Artist(slug) => FinderAction::InsertBest { at: held, slug },
                Hit::Track { artist, slug, spotify, .. } => match slug {
                    Some(_) => FinderAction::Insert { at: held, generate: None },
                    None => FinderAction::Insert { at: held, generate: Some((slugify(artist.as_str()), artist, spotify)) },
                },
            }
        },
        None => FinderAction::Queue,
    }
}


// ---------------------------------------------------------------------------
// The comfort dial.

/// What a key does to the open comfort dial.
pub enum DialAction {
    /// Say where the dial stands: `set` once enter confirmed it.
    Said { value: u8, set: bool },
    /// Remember the comfort from one launch to the next.
    Remember(u8),
    /// Draw the branches again: the dial changes which make sense.
    Recompute,
    /// Leave the program.
    Quit,
}

/// The comfort dial: up and down move it a notch within 0 to 5, enter
/// confirms it (remembered, the branches drawn again when a journey plays),
/// esc puts back the comfort it was opened on, `q` quits.
pub open spec fn dial_of(s: Session, cmd: Cmd) -> (Session, Seq<DialAction>) {
    let v = s.comfort;
    match cmd {
        Cmd::Up | Cmd::Next => {
            let w = if v < 5 { (v + 1) as u8 } else { 5u8 };
            (Session { comfort: w, ..s }, seq![DialAction::Said { value: w, set: false }])
        },
        Cmd::Down | Cmd::Prev => {
            let w = if v > 0 { (v - 1) as u8 } else { 0u8 };
            (Session { comfort: w, ..s }, seq![DialAction::Said { value: w, set: false }])
        },
        Cmd::Auto => (
            Session { dial: None, ..s },
            if s.live {
                seq![DialAction::Remember(v), DialAction::Recompute, DialAction::Said { value: v, set: true }]
            } else {
                seq![DialAction::Remember(v), DialAction::Said { value: v, set: true }]
            },
        ),
        Cmd::Escape => match s.dial {
            Some(b) => (Session { comfort: b, dial: None, ..s }, seq![]),
            None => (s, seq![]),
        },
        Cmd::Quit => (s, seq![DialAction::Quit]),
        _ => (s, seq![DialAction::Said { value: v, set: false }]),
    }
}

/// What a key does to the open comfort dial.
#[verifier::rlimit(40)]
pub fn dial_step(s: &Session, cmd: &Cmd) -> (r: (Session, Vec<DialAction>))
    requires
        s.comfort <= 5,
        s.dial matches Some(b) ==> b <= 5,
    ensures
        (r.0, r.1@) == dial_of(*s, *cmd),
        r.0.comfort <= 5,
{
    let mut t = *s;
    let v = s.comfort;
    match cmd {
        Cmd::Up | Cmd::Next => {
            t.comfort = if v < 5 { v + 1 } else { 5 };
            (t, vec![DialAction::Said { value: t.comfort, set: false }])
        },
        Cmd::Down | Cmd::Prev => {
            t.comfort = if v > 0 { v - 1 } else { 0 };
            (t, vec![DialAction::Said { value: t.comfort, set: false }])
        },
        Cmd::Auto => {
            t.dial = None;
            if s.live {
                (t, vec![DialAction::Remember(v), DialAction::Recompute, DialAction::Said { value: v, set: true }])
            } else {
                (t, vec![DialAction::Remember(v), DialAction::Said { value: v, set: true }])
            }
        },
        Cmd::Escape => match s.dial {
            Some(b) => {
                t.comfort = b;
                t.dial = None;
                (t, vec![])
            },
            None => (t, vec![]),
        },
        Cmd::Quit => (t, vec![DialAction::Quit]),
        _ => (t, vec![DialAction::Said { value: v, set: false }]),
    }
}


// ---------------------------------------------------------------------------
// What a generated card is announced with.

/// The line that announces a card generated and adopted: whom it replaced,
/// its tops and links, the caveats of the draft, whether its vector could
/// be computed, and whether what was learned of the old artist was dropped.
pub open spec fn generated_note(
    name: Seq<char>,
    replaced: Option<Seq<char>>,
    tops: nat,
    links: nat,
    caveats: Seq<Seq<char>>,
    no_vector: Option<Seq<char>>,
    dropped: bool,
) -> Seq<char> {
    let head = match replaced {
        Some(old) => "\u{2713} "@ + name + " \u{2014} card regenerated (was "@ + old + "): "@,
        None => "\u{2713} "@ + name + " \u{2014} generated card: "@,
    };
    let counts = decimal(tops) + " top(s), "@ + decimal(links) + " link(s)"@;
    let said = join(caveats, " \u{b7} "@);
    let cav = if said.len() > 0 { " ("@ + said + ")"@ } else { seq![] };
    let vector = match no_vector {
        None => " \u{b7} vector computed"@,
        Some(why) => " \u{b7} no vector ("@ + why + "): navigating by the graph"@,
    };
    let drop = if dropped { " \u{b7} learned of the old artist dropped"@ } else { seq![] };
    head + counts + cav + vector + drop
}

/// The line that announces a card generated and adopted.
#[verifier::rlimit(40)]
pub fn generated_line(
    name: &str,
    replaced: Option<&str>,
    tops: usize,
    links: usize,
    caveats: &Vec<String>,
    no_vector: Option<&str>,
    dropped: bool,
) -> (r: String)
    ensures
        r@ == generated_note(
            name@,
            match replaced { Some(o) => Some(o@), None => None },
            tops as nat,
            links as nat,
            strings(caveats@),
            match no_vector { Some(w) => Some(w@), None => None },
            dropped,
        ),
{
    let mut out: Vec<char> = Vec::new();
    push_str(&mut out, "\u{2713} ");
    push_str(&mut out, name);
    match replaced {
        Some(old) => {
            push_str(&mut out, " \u{2014} card regenerated (was ");
            push_str(&mut out, old);
            push_str(&mut out, "): ");
        },
        None => push_str(&mut out, " \u{2014} generated card: "),
    }
    let t = decimal_of(tops as u64);
    push_all(&mut out, &t);
    push_str(&mut out, " top(s), ");
    let l = decimal_of(links as u64);
    push_all(&mut out, &l);
    push_str(&mut out, " link(s)");
    let mut pieces: Vec<Vec<char>> = Vec::new();
    let mut i: usize = 0;
    while i < caveats.len()
        invariant
            i <= caveats@.len(),
            views(pieces@) == strings(caveats@).take(i as int),
        decreases caveats@.len() - i,
    {
        let ghost before = pieces@;
        pieces.push(chars_of(caveats[i].as_str()));
        assert(views(pieces@) =~= views(before).push(caveats@[i as int]@));
        assert(strings(caveats@).take(i + 1) =~= strings(caveats@).take(i as int).push(caveats@[i as int]@));
        i = i + 1;
    }
    assert(strings(caveats@).take(i as int) =~= strings(caveats@));
    let said = join_of(&pieces, &chars_of(" \u{b7} "));
    if said.len() > 0 {
        push_str(&mut out, " (");
        push_all(&mut out, &said);
        push_str(&mut out, ")");
    }
    match no_vector {
        None => push_str(&mut out, " \u{b7} vector computed"),
        Some(why) => {
            push_str(&mut out, " \u{b7} no vector (");
            push_str(&mut out, why);
            push_str(&mut out, "): navigating by the graph");
        },
    }
    if dropped {
        push_str(&mut out, " \u{b7} learned of the old artist dropped");
    }
    proof {
        let head = match replaced {
            Some(o) => "\u{2713} "@ + name@ + " \u{2014} card regenerated (was "@ + o@ + "): "@,
            None => "\u{2713} "@ + name@ + " \u{2014} generated card: "@,
        };
        assert(out@ =~= generated_note(
            name@,
            match replaced { Some(o) => Some(o@), None => None },
            tops as nat,
            links as nat,
            strings(caveats@),
            match no_vector { Some(w) => Some(w@), None => None },
            dropped,
        ));
    }
    string_of(&out)
}


// ---------------------------------------------------------------------------
// What the catalog's jobs lay over the screen.

/// The title of the diff's overlay: how many cards the catalog has beyond
/// the reference, or none.
pub open spec fn diff_title_of(cards: nat) -> Seq<char> {
    if cards == 0 {
        "C diff \u{2014} nothing beyond the reference"@
    } else {
        "C diff \u{2014} "@ + decimal(cards) + " card(s) beyond the reference"@
    }
}

/// The title of the diff's overlay.
pub fn diff_title(diff: &Diff) -> (r: String)
    requires
        diff.new@.len() + diff.edited@.len() <= usize::MAX,
    ensures
        r@ == diff_title_of((diff.new@.len() + diff.edited@.len()) as nat),
{
    let n = diff.new.len() + diff.edited.len();
    if n == 0 {
        String::from_str("C diff \u{2014} nothing beyond the reference")
    } else {
        let mut out: Vec<char> = Vec::new();
        push_str(&mut out, "C diff \u{2014} ");
        let d = decimal_of(n as u64);
        push_all(&mut out, &d);
        push_str(&mut out, " card(s) beyond the reference");
        string_of(&out)
    }
}

/// The line of a card the merge stopped on: its slug and what each side
/// changed.
pub open spec fn conflict_line(c: (Seq<char>, Seq<char>)) -> Seq<char> {
    "  \u{2298} "@ + c.0 + " \u{2014} "@ + c.1
}

/// The overlay of an update stopped on cards: the cards, then what is left
/// to do.
pub open spec fn conflict_lines_of(conflicts: Seq<(Seq<char>, Seq<char>)>) -> Seq<Seq<char>> {
    seq!["conflict on cards/ \u{2014} the merge is stopped, the hand is yours"@, seq![]]
        + conflicts.map_values(|c: (Seq<char>, Seq<char>)| conflict_line(c))
        + seq![
            seq![],
            "the other cards are merged and wait in the index. nothing lost, nothing overwritten \u{2014} the learned is not concerned."@,
            seq![],
            "  o         open the first card \u{2014} git add once resolved"@,
            "  :catalog  resume \u{2014} the merge completes, the index regenerates"@,
            "  git merge --abort, by hand, to give it up"@,
        ]
}

pub open spec fn pairs_view(v: Seq<(String, String)>) -> Seq<(Seq<char>, Seq<char>)> {
    v.map_values(|c: (String, String)| (c.0@, c.1@))
}

fn push_line(lines: &mut Vec<String>, line: String)
    ensures
        strings(final(lines)@) == strings(old(lines)@).push(line@),
{
    let ghost before = lines@;
    lines.push(line);
    assert(strings(lines@) =~= strings(before).push(line@));
}

/// The overlay of an update stopped on cards.
pub fn conflict_lines(update: &Update) -> (r: Vec<String>)
    ensures
        strings(r@) == conflict_lines_of(pairs_view(update.conflicts@)),
{
    let mut lines: Vec<String> = Vec::new();
    push_line(&mut lines, String::from_str("conflict on cards/ \u{2014} the merge is stopped, the hand is yours"));
    push_line(&mut lines, String::new());
    let ghost head = strings(lines@);
    let mut i: usize = 0;
    while i < update.conflicts.len()
        invariant
            i <= update.conflicts@.len(),
            strings(lines@) == head + pairs_view(update.conflicts@).take(i as int).map_values(
                |c: (Seq<char>, Seq<char>)| conflict_line(c),
            ),
        decreases update.conflicts@.len() - i,
    {
        let c = &update.conflicts[i];
        let mut out: Vec<char> = Vec::new();
        push_str(&mut out, "  \u{2298} ");
        push_str(&mut out, c.0.as_str());
        push_str(&mut out, " \u{2014} ");
        push_str(&mut out, c.1.as_str());
        let ghost before = strings(lines@);
        push_line(&mut lines, string_of(&out));
        assert(pairs_view(update.conflicts@).take(i + 1) =~= pairs_view(update.conflicts@).take(i as int).push(
            (c.0@, c.1@),
        ));
        assert(strings(lines@) =~= head + pairs_view(update.conflicts@).take(i + 1).map_values(
            |c: (Seq<char>, Seq<char>)| conflict_line(c),
        ));
        i = i + 1;
    }
    assert(pairs_view(update.conflicts@).take(i as int) =~= pairs_view(update.conflicts@));
    push_line(&mut lines, String::new());
    push_line(&mut lines, String::from_str(
        "the other cards are merged and wait in the index. nothing lost, nothing overwritten \u{2014} the learned is not concerned.",
    ));
    push_line(&mut lines, String::new());
    push_line(&mut lines, String::from_str("  o         open the first card \u{2014} git add once resolved"));
    push_line(&mut lines, String::from_str("  :catalog  resume \u{2014} the merge completes, the index regenerates"));
    push_line(&mut lines, String::from_str("  git merge --abort, by hand, to give it up"));
    proof {
        assert(strings(lines@) =~= conflict_lines_of(pairs_view(update.conflicts@)));
    }
    lines
}


// ---------------------------------------------------------------------------
// What the listening screen shows of the seed, and its prompt.

/// "s" past one.
pub open spec fn plural(n: nat) -> Seq<char> {
    if n > 1 { "s"@ } else { seq![] }
}

/// What the seed block says of the seed's card: its links and its tops.
pub open spec fn seed_facts_of(links: nat, tops: nat) -> Seq<char> {
    decimal(links) + " link"@ + plural(links) + " \u{b7} "@ + decimal(tops) + " top"@ + plural(tops)
}

/// What the seed block says of the seed's card: its links and its tops.
pub fn seed_facts(links: usize, tops: usize) -> (r: String)
    ensures
        r@ == seed_facts_of(links as nat, tops as nat),
{
    let mut out: Vec<char> = Vec::new();
    let l = decimal_of(links as u64);
    push_all(&mut out, &l);
    push_str(&mut out, " link");
    if links > 1 {
        push_str(&mut out, "s");
    }
    push_str(&mut out, " \u{b7} ");
    let t = decimal_of(tops as u64);
    push_all(&mut out, &t);
    push_str(&mut out, " top");
    if tops > 1 {
        push_str(&mut out, "s");
    }
    proof {
        reveal_strlit("s");
    }
    assert(out@ =~= seed_facts_of(links as nat, tops as nat));
    string_of(&out)
}

/// When the seed was last played, or that it never was.
pub open spec fn seed_last_of(days: Option<i64>) -> Seq<char> {
    match days {
        Some(_) => "last played "@ + crate::home::age_of(days),
        None => "never played"@,
    }
}

/// When the seed was last played, or that it never was.
pub fn seed_last(days: Option<i64>) -> (r: String)
    ensures
        r@ == seed_last_of(days),
{
    match days {
        Some(_) => {
            let mut out: Vec<char> = Vec::new();
            push_str(&mut out, "last played ");
            let a = crate::home::age(days);
            push_str(&mut out, a.as_str());
            string_of(&out)
        },
        None => String::from_str("never played"),
    }
}

/// The prompt of the listening screen: what is being typed, or the keys
/// that take a branch — as many as there are branches and gaps on offer,
/// one at least.
pub open spec fn prompt_text(typed: Seq<char>, offered: nat) -> Seq<char> {
    if typed.len() > 0 {
        typed
    } else {
        "[1-"@ + decimal(if offered > 1 { offered } else { 1 }) + " branch \u{b7} h/l \u{b7} p \u{b7} space = the keys \u{b7} q]"@
    }
}

/// The prompt of the listening screen.
pub fn prompt_of(typed: &str, offered: usize) -> (r: String)
    ensures
        r@ == prompt_text(typed@, offered as nat),
{
    if chars_of(typed).len() > 0 {
        return String::from_str(typed);
    }
    let n: usize = if offered > 1 { offered } else { 1 };
    let mut out: Vec<char> = Vec::new();
    push_str(&mut out, "[1-");
    let d = decimal_of(n as u64);
    push_all(&mut out, &d);
    push_str(&mut out, " branch \u{b7} h/l \u{b7} p \u{b7} space = the keys \u{b7} q]");
    string_of(&out)
}

} // verus!
