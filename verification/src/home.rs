//! The home screen: its words (how long ago, how the collection is sorted
//! and scoped) and what a key does on it. The screen is drawn, the lists
//! are computed and the learned layer is written by the caller.

use vstd::prelude::*;
use crate::text::{chars_of, string_of, push_all, push_str, decimal, decimal_of, trim, trim_exec, strip_all,
    strip_all_exec, same, usize_of, parse_usize};
use crate::keys::Cmd;
use crate::engine::Comfort;
use crate::listen::{comfort_word, comfort_word_of};
use crate::generate::{slugify, slug_of_name};
use crate::fork::{tokens, words_of, opt_view};
use crate::edit::strings;
use crate::text::views;
use crate::text::{lowercase, to_lowercase, contains, contains_in, same_str};
use crate::fork::{lex_lt, lex_less, lemma_lex_transitive, lemma_lex_irreflexive, lemma_lex_total};

verus! {

/// A count of days, signed, in decimal.
pub open spec fn signed_decimal(d: int) -> Seq<char> {
    if d < 0 { seq!['-'] + decimal((-d) as nat) } else { decimal(d as nat) }
}

/// "n days ago" in a few characters, the way a terminal screen says it.
pub open spec fn age_of(days: Option<i64>) -> Seq<char> {
    match days {
        None => "never"@,
        Some(d) => if d == 0 {
            "today"@
        } else if d == 1 {
            "yday"@
        } else if d < 14 {
            seq!['-'] + signed_decimal(d as int) + seq!['d']
        } else if d < 60 {
            seq!['-'] + decimal((d / 7) as nat) + seq!['w']
        } else if d < 365 {
            seq!['-'] + decimal((d / 30) as nat) + "mo"@
        } else {
            seq!['-'] + decimal((d / 365) as nat) + seq!['y']
        },
    }
}

fn signed_decimal_exec(d: i64) -> (r: Vec<char>)
    ensures
        r@ == signed_decimal(d as int),
{
    if d < 0 {
        let mut r: Vec<char> = Vec::new();
        r.push('-');
        let m: u64 = (-(d as i128)) as u64;
        let digits = decimal_of(m);
        push_all(&mut r, &digits);
        r
    } else {
        decimal_of(d as u64)
    }
}

pub fn age(days: Option<i64>) -> (r: String)
    ensures
        r@ == age_of(days),
{
    match days {
        None => String::from_str("never"),
        Some(d) => {
            if d == 0 {
                String::from_str("today")
            } else if d == 1 {
                String::from_str("yday")
            } else {
                let mut r: Vec<char> = Vec::new();
                r.push('-');
                if d < 14 {
                    let n = signed_decimal_exec(d);
                    push_all(&mut r, &n);
                    r.push('d');
                } else if d < 60 {
                    let n = decimal_of((d / 7) as u64);
                    push_all(&mut r, &n);
                    r.push('w');
                } else if d < 365 {
                    let n = decimal_of((d / 30) as u64);
                    push_all(&mut r, &n);
                    push_str(&mut r, "mo");
                } else {
                    let n = decimal_of((d / 365) as u64);
                    push_all(&mut r, &n);
                    r.push('y');
                }
                string_of(&r)
            }
        },
    }
}

/// How the collection is sorted.
#[derive(Clone, Copy, PartialEq, Eq, Structural)]
pub enum Sort {
    Familiarity,
    Alphabetical,
    LastPlayed,
}

impl Sort {
    pub open spec fn next_spec(self) -> Sort {
        match self {
            Sort::Familiarity => Sort::Alphabetical,
            Sort::Alphabetical => Sort::LastPlayed,
            Sort::LastPlayed => Sort::Familiarity,
        }
    }

    pub fn next(self) -> (r: Sort)
        ensures
            r == self.next_spec(),
    {
        match self {
            Sort::Familiarity => Sort::Alphabetical,
            Sort::Alphabetical => Sort::LastPlayed,
            Sort::LastPlayed => Sort::Familiarity,
        }
    }

    pub fn label(self) -> (r: &'static str)
        ensures
            r@ == match self {
                Sort::Familiarity => "familiarity"@,
                Sort::Alphabetical => "a-z"@,
                Sort::LastPlayed => "last played"@,
            },
    {
        match self {
            Sort::Familiarity => "familiarity",
            Sort::Alphabetical => "a-z",
            Sort::LastPlayed => "last played",
        }
    }
}

/// What the collection shows: the liked, or the whole catalog.
#[derive(Clone, Copy, PartialEq, Eq, Structural)]
pub enum Scope {
    Liked,
    All,
}

impl Scope {
    pub open spec fn next_spec(self) -> Scope {
        match self {
            Scope::Liked => Scope::All,
            Scope::All => Scope::Liked,
        }
    }

    pub fn next(self) -> (r: Scope)
        ensures
            r == self.next_spec(),
    {
        match self {
            Scope::Liked => Scope::All,
            Scope::All => Scope::Liked,
        }
    }

    pub fn label(self) -> (r: &'static str)
        ensures
            r@ == match self {
                Scope::Liked => "liked"@,
                Scope::All => "all"@,
            },
    {
        match self {
            Scope::Liked => "liked",
            Scope::All => "all",
        }
    }
}

/// Three presses of the sort key, and two of the scope key, come back to
/// where they started.
pub proof fn keys_come_around(s: Sort, c: Scope)
    ensures
        s.next_spec().next_spec().next_spec() == s,
        c.next_spec().next_spec() == c,
{
}

/// What was chosen to start: an artist starts a segment on itself, a track
/// plays then branches from its artist.
pub enum Choice {
    Artist(String),
    Track { slug: String, title: String },
}

pub enum ChoiceView {
    Artist(Seq<char>),
    Track(Seq<char>, Seq<char>),
}

impl View for Choice {
    type V = ChoiceView;

    open spec fn view(&self) -> ChoiceView {
        match self {
            Choice::Artist(slug) => ChoiceView::Artist(slug@),
            Choice::Track { slug, title } => ChoiceView::Track(slug@, title@),
        }
    }
}

fn copy_choice(c: &Choice) -> (r: Choice)
    ensures
        r@ == c@,
{
    match c {
        Choice::Artist(slug) => Choice::Artist(slug.clone()),
        Choice::Track { slug, title } => Choice::Track { slug: slug.clone(), title: title.clone() },
    }
}

/// The last journey, to resume: session, not knowledge.
pub struct LastSession {
    pub slug: String,
    pub name: String,
    pub title: String,
    pub at: String,
}

/// What a key on home asks of the session.
pub enum Outcome {
    Stay,
    /// Start a journey; it replaces the one playing, if any.
    Start(Choice),
    /// Go back to the session screen, changing nothing.
    Back,
    /// Open the search modal, empty or already filled.
    Find(String),
    /// Bring in an artist missing from the catalog, then start from them.
    Generate(String),
    /// The discography of the highlighted line, as a modal over home.
    Explore { slug: String, name: String },
    /// Another `a` gesture on the highlighted line, done by the session;
    /// `slug` is missing when the artist has no card.
    Artist { key: char, slug: Option<String>, name: String },
    /// `al`, `as` or `ab` on the highlighted line: the session tells the
    /// learned layer, then hands home what it said and how many lines are
    /// left ([`Home::after_taste`]).
    Taste { key: char, slug: String, name: String },
    /// Enter with nothing highlighted: the session draws among the entries
    /// on the page, weighted by the dial.
    Draw,
    Quit,
}

pub enum OutcomeView {
    Stay,
    Start(ChoiceView),
    Back,
    Find(Seq<char>),
    Generate(Seq<char>),
    Explore(Seq<char>, Seq<char>),
    Artist(char, Option<Seq<char>>, Seq<char>),
    Taste(char, Seq<char>, Seq<char>),
    Draw,
    Quit,
}

impl View for Outcome {
    type V = OutcomeView;

    open spec fn view(&self) -> OutcomeView {
        match self {
            Outcome::Stay => OutcomeView::Stay,
            Outcome::Start(c) => OutcomeView::Start(c@),
            Outcome::Back => OutcomeView::Back,
            Outcome::Find(s) => OutcomeView::Find(s@),
            Outcome::Generate(s) => OutcomeView::Generate(s@),
            Outcome::Explore { slug, name } => OutcomeView::Explore(slug@, name@),
            Outcome::Artist { key, slug, name } => OutcomeView::Artist(*key, opt_view(*slug), name@),
            Outcome::Taste { key, slug, name } => OutcomeView::Taste(*key, slug@, name@),
            Outcome::Draw => OutcomeView::Draw,
            Outcome::Quit => OutcomeView::Quit,
        }
    }
}

/// Home, between two keys: what is being typed, what it has to say, how the
/// collection is sorted, scoped and filtered, and the highlighted line, if
/// any (as long as there is none, enter means "choose for me").
pub struct Home {
    pub typed: String,
    pub said: String,
    pub sort: Sort,
    pub scope: Scope,
    pub cursor: Option<usize>,
    pub filter: String,
}

pub struct HomeState {
    pub typed: Seq<char>,
    pub said: Seq<char>,
    pub sort: Sort,
    pub scope: Scope,
    pub cursor: Option<usize>,
    pub filter: Seq<char>,
}

impl View for Home {
    type V = HomeState;

    open spec fn view(&self) -> HomeState {
        HomeState {
            typed: self.typed@,
            said: self.said@,
            sort: self.sort,
            scope: self.scope,
            cursor: self.cursor,
            filter: self.filter@,
        }
    }
}

impl Default for Home {
    fn default() -> (h: Self)
        ensures
            h@ == (HomeState { typed: seq![], said: seq![], sort: Sort::Familiarity, scope: Scope::Liked, cursor: None, filter: seq![] }),
    {
        Home {
            typed: String::new(),
            said: String::new(),
            sort: Sort::Familiarity,
            scope: Scope::Liked,
            cursor: None,
            filter: String::new(),
        }
    }
}

/// The collection's lines as home reads them: the card's slug, when the
/// artist has one, and the name shown.
pub open spec fn listing_view(v: Seq<(Option<String>, String)>) -> Seq<(Option<Seq<char>>, Seq<char>)> {
    v.map_values(|p: (Option<String>, String)| (opt_view(p.0), p.1@))
}

pub open spec fn choices_view(v: Seq<Choice>) -> Seq<ChoiceView> {
    v.map_values(|c: Choice| c@)
}

pub open spec fn last_view(l: Option<LastSession>) -> Option<(Seq<char>, Seq<char>)> {
    match l {
        Some(s) => Some((s.slug@, s.title@)),
        None => None,
    }
}

pub open spec fn nothing_highlighted() -> Seq<char> {
    "(nothing highlighted \u{2014} \u{2191}\u{2193} to choose)"@
}

/// What follows a word at the start of a command line, trimmed.
pub open spec fn after_word(text: Seq<char>, word: Seq<char>) -> Seq<char> {
    trim(strip_all(trim(text), word))
}

/// The last line of a list, or the first when it is empty.
pub open spec fn last_line(len: nat) -> usize {
    if len > 0 { (len - 1) as usize } else { 0 }
}

/// What a key does on home once what was typed and said is cleared.
pub open spec fn key_step(
    h: HomeState,
    cmd: Cmd,
    listing: Seq<(Option<Seq<char>>, Seq<char>)>,
    choices: Seq<ChoiceView>,
    comfort: u8,
    live: bool,
    last: Option<(Seq<char>, Seq<char>)>,
) -> (HomeState, u8, OutcomeView) {
    match cmd {
        Cmd::Quit => (h, comfort, OutcomeView::Quit),
        Cmd::Digit(n) => if n - 1 < choices.len() {
            (h, comfort, OutcomeView::Start(choices[n - 1]))
        } else {
            (HomeState { said: "(no entry "@ + decimal(n as nat) + ")"@, ..h }, comfort, OutcomeView::Stay)
        },
        Cmd::Resume => if live {
            (h, comfort, OutcomeView::Back)
        } else {
            match last {
                Some((slug, title)) => (h, comfort, OutcomeView::Start(ChoiceView::Track(slug, title))),
                None => (HomeState { said: "(no journey to resume)"@, ..h }, comfort, OutcomeView::Stay),
            }
        },
        Cmd::Auto => match h.cursor {
            Some(i) => if i < listing.len() {
                match listing[i as int].0 {
                    Some(slug) => (h, comfort, OutcomeView::Start(ChoiceView::Artist(slug))),
                    None => (h, comfort, OutcomeView::Generate(listing[i as int].1)),
                }
            } else {
                (h, comfort, OutcomeView::Stay)
            },
            None => (h, comfort, OutcomeView::Draw),
        },
        Cmd::Artist(k) => match h.cursor {
            None => (HomeState { said: nothing_highlighted(), ..h }, comfort, OutcomeView::Stay),
            Some(i) => if i >= listing.len() {
                (h, comfort, OutcomeView::Stay)
            } else {
                let (slug, name) = listing[i as int];
                if k == 'd' {
                    match slug {
                        Some(s) => (h, comfort, OutcomeView::Explore(s, name)),
                        None => (h, comfort, OutcomeView::Artist('d', None, name)),
                    }
                } else if k == 'l' || k == 's' || k == 'b' {
                    let s = match slug { Some(s) => s, None => slug_of_name(name) };
                    (h, comfort, OutcomeView::Taste(k, s, name))
                } else {
                    (h, comfort, OutcomeView::Artist(k, slug, name))
                }
            },
        },
        Cmd::Search(q) => {
            let f = trim(q@);
            (HomeState { filter: f, cursor: if f.len() == 0 { None } else { Some(0usize) }, ..h }, comfort, OutcomeView::Stay)
        },
        Cmd::Comfort(n) => (
            HomeState { said: "comfort "@ + decimal(n as nat) + " \u{2014} "@ + comfort_word_of(n), ..h },
            if n <= 5 { n } else { 5u8 },
            OutcomeView::Stay,
        ),
        Cmd::Colon(text) => {
            let w = tokens(text@);
            if w.len() >= 2 && w[0] == "comfort"@ {
                let c = match usize_of(w[1]) {
                    Some(v) => if v <= 5 { v as u8 } else { comfort },
                    None => comfort,
                };
                (h, c, OutcomeView::Stay)
            } else if w.len() >= 1 && w[0] == "search"@ {
                (h, comfort, OutcomeView::Find(after_word(text@, "search"@)))
            } else if w.len() >= 2 && w[0] == "generate"@ {
                (h, comfort, OutcomeView::Generate(after_word(text@, "generate"@)))
            } else {
                (h, comfort, OutcomeView::Stay)
            }
        },
        Cmd::Up => {
            let here: int = match h.cursor { Some(i) => i as int, None => 0 };
            (HomeState { cursor: Some((if here > 0 { here - 1 } else { 0 }) as usize), ..h }, comfort, OutcomeView::Stay)
        },
        Cmd::Down => {
            let here: int = match h.cursor { Some(i) => i + 1, None => 0 };
            let end = last_line(listing.len());
            (HomeState { cursor: Some((if here < end { here } else { end as int }) as usize), ..h }, comfort, OutcomeView::Stay)
        },
        Cmd::Top => (HomeState { cursor: Some(0usize), ..h }, comfort, OutcomeView::Stay),
        Cmd::Bottom => (HomeState { cursor: Some(last_line(listing.len())), ..h }, comfort, OutcomeView::Stay),
        Cmd::Escape => if h.filter.len() > 0 {
            (HomeState { filter: seq![], cursor: None, ..h }, comfort, OutcomeView::Stay)
        } else if h.cursor is Some {
            (HomeState { cursor: None, ..h }, comfort, OutcomeView::Stay)
        } else if live {
            (h, comfort, OutcomeView::Back)
        } else {
            (h, comfort, OutcomeView::Stay)
        },
        Cmd::Sort => (HomeState { sort: h.sort.next_spec(), ..h }, comfort, OutcomeView::Stay),
        Cmd::Filter => (HomeState { scope: h.scope.next_spec(), cursor: None, ..h }, comfort, OutcomeView::Stay),
        _ => (h, comfort, OutcomeView::Stay),
    }
}

/// What a key does on home: a sequence half-typed or a line being typed
/// only shows at the bottom; a sequence that means nothing says so; any
/// other key clears both, then acts.
pub open spec fn home_step(
    h: HomeState,
    cmd: Cmd,
    listing: Seq<(Option<Seq<char>>, Seq<char>)>,
    choices: Seq<ChoiceView>,
    comfort: u8,
    live: bool,
    last: Option<(Seq<char>, Seq<char>)>,
) -> (HomeState, u8, OutcomeView) {
    match cmd {
        Cmd::Pending(s) => (HomeState { typed: s@, ..h }, comfort, OutcomeView::Stay),
        Cmd::Typing(line) => (
            HomeState { typed: match line { Some(l) => l@, None => seq![] }, ..h },
            comfort,
            OutcomeView::Stay,
        ),
        Cmd::Unknown(s) => (
            HomeState { typed: seq![], said: "(unknown: "@ + s@ + ")"@, ..h },
            comfort,
            OutcomeView::Stay,
        ),
        _ => key_step(HomeState { typed: seq![], said: seq![], ..h }, cmd, listing, choices, comfort, live, last),
    }
}

fn bracketed(before: &str, middle: &str, after: &str) -> (r: String)
    ensures
        r@ == before@ + middle@ + after@,
{
    let mut v: Vec<char> = Vec::new();
    push_str(&mut v, before);
    push_str(&mut v, middle);
    push_str(&mut v, after);
    string_of(&v)
}

fn comfort_said(n: u8) -> (r: String)
    ensures
        r@ == "comfort "@ + decimal(n as nat) + " \u{2014} "@ + comfort_word_of(n),
{
    let mut v: Vec<char> = Vec::new();
    push_str(&mut v, "comfort ");
    let d = decimal_of(n as u64);
    push_all(&mut v, &d);
    push_str(&mut v, " \u{2014} ");
    push_str(&mut v, comfort_word(n));
    string_of(&v)
}

fn no_entry(n: usize) -> (r: String)
    ensures
        r@ == "(no entry "@ + decimal(n as nat) + ")"@,
{
    let mut v: Vec<char> = Vec::new();
    push_str(&mut v, "(no entry ");
    let d = decimal_of(n as u64);
    push_all(&mut v, &d);
    push_str(&mut v, ")");
    string_of(&v)
}

fn after_word_exec(text: &str, word: &str) -> (r: String)
    ensures
        r@ == after_word(text@, word@),
{
    let t = trim_exec(&chars_of(text));
    let s = strip_all_exec(&t, &chars_of(word));
    string_of(&trim_exec(&s))
}

impl Home {
    /// What home has to say after a key, once: the session shows it as a
    /// toast.
    pub fn take_said(&mut self) -> (r: Option<String>)
        ensures
            match r {
                Some(s) => s@ == old(self)@.said && old(self)@.said.len() > 0,
                None => old(self)@.said.len() == 0,
            },
            final(self)@ == (HomeState { said: seq![], ..old(self)@ }),
    {
        if chars_of(self.said.as_str()).len() == 0 {
            assert(self.said@ =~= seq![]);
            None
        } else {
            let mut said = String::new();
            std::mem::swap(&mut said, &mut self.said);
            Some(said)
        }
    }

    /// After a taste gesture: what the learned layer said, and how many
    /// lines the collection has left. The highlighted line stays on a line.
    pub fn after_taste(&mut self, said: String, left: usize)
        ensures
            final(self)@ == (HomeState {
                said: said@,
                cursor: match old(self).cursor {
                    Some(i) => if left > 0 { Some(if i < left - 1 { i } else { (left - 1) as usize }) } else { None },
                    None => None,
                },
                ..old(self)@
            }),
    {
        self.said = said;
        self.cursor = match self.cursor {
            Some(i) => if left > 0 { Some(if i < left - 1 { i } else { left - 1 }) } else { None },
            None => None,
        };
    }

    /// A key on home, against the collection and the entries on the page
    /// as they stand, and the last journey, if one is remembered.
    pub fn on_cmd(
        &mut self,
        cmd: Cmd,
        listing: &Vec<(Option<String>, String)>,
        choices: &Vec<Choice>,
        comfort: &mut Comfort,
        live: bool,
        last: Option<LastSession>,
    ) -> (r: Outcome)
        requires
            (cmd matches Cmd::Digit(n) ==> n >= 1),
            (cmd is Down ==> old(self).cursor != Some(usize::MAX)),
        ensures
            (final(self)@, final(comfort)@, r@) == home_step(old(self)@, cmd, listing_view(listing@),
                choices_view(choices@), old(comfort)@, live, last_view(last)),
    {
        match &cmd {
            Cmd::Pending(seq) => {
                self.typed = seq.clone();
                return Outcome::Stay;
            },
            Cmd::Typing(line) => {
                self.typed = match line {
                    Some(l) => l.clone(),
                    None => String::new(),
                };
                return Outcome::Stay;
            },
            Cmd::Unknown(seq) => {
                self.typed = String::new();
                self.said = bracketed("(unknown: ", seq.as_str(), ")");
                return Outcome::Stay;
            },
            _ => {
                self.typed = String::new();
                self.said = String::new();
            },
        }
        let ghost lv = listing_view(listing@);
        match cmd {
            Cmd::Quit => Outcome::Quit,
            Cmd::Digit(n) => {
                if n - 1 < choices.len() {
                    proof { assert(choices_view(choices@)[n - 1] == choices@[n - 1]@); }
                    Outcome::Start(copy_choice(&choices[n - 1]))
                } else {
                    self.said = no_entry(n);
                    Outcome::Stay
                }
            },
            Cmd::Resume => {
                if live {
                    Outcome::Back
                } else {
                    match last {
                        Some(l) => Outcome::Start(Choice::Track { slug: l.slug, title: l.title }),
                        None => {
                            self.said = String::from_str("(no journey to resume)");
                            Outcome::Stay
                        },
                    }
                }
            },
            Cmd::Auto => match self.cursor {
                Some(i) => {
                    if i < listing.len() {
                        proof { assert(lv[i as int] == (opt_view(listing@[i as int].0), listing@[i as int].1@)); }
                        match &listing[i].0 {
                            Some(slug) => Outcome::Start(Choice::Artist(slug.clone())),
                            None => Outcome::Generate(listing[i].1.clone()),
                        }
                    } else {
                        Outcome::Stay
                    }
                },
                None => Outcome::Draw,
            },
            Cmd::Artist(k) => match self.cursor {
                None => {
                    self.said = String::from_str("(nothing highlighted \u{2014} \u{2191}\u{2193} to choose)");
                    Outcome::Stay
                },
                Some(i) => {
                    if i >= listing.len() {
                        Outcome::Stay
                    } else {
                        proof { assert(lv[i as int] == (opt_view(listing@[i as int].0), listing@[i as int].1@)); }
                        let name = listing[i].1.clone();
                        if k == 'd' {
                            match &listing[i].0 {
                                Some(slug) => Outcome::Explore { slug: slug.clone(), name },
                                None => Outcome::Artist { key: 'd', slug: None, name },
                            }
                        } else if k == 'l' || k == 's' || k == 'b' {
                            let slug = match &listing[i].0 {
                                Some(slug) => slug.clone(),
                                None => slugify(name.as_str()),
                            };
                            Outcome::Taste { key: k, slug, name }
                        } else {
                            let slug = match &listing[i].0 {
                                Some(slug) => Some(slug.clone()),
                                None => None,
                            };
                            Outcome::Artist { key: k, slug, name }
                        }
                    }
                },
            },
            Cmd::Search(query) => {
                let f = trim_exec(&chars_of(query.as_str()));
                let empty = f.len() == 0;
                self.filter = string_of(&f);
                self.cursor = if empty { None } else { Some(0) };
                Outcome::Stay
            },
            Cmd::Comfort(n) => {
                *comfort = Comfort::new(n);
                self.said = comfort_said(n);
                Outcome::Stay
            },
            Cmd::Colon(text) => {
                let w = words_of(&chars_of(text.as_str()));
                let ghost wv = views(w@);
                assert(wv == tokens(text@));
                if w.len() >= 2 && same(&w[0], &chars_of("comfort")) {
                    assert(wv[0] == w@[0]@ && wv[1] == w@[1]@);
                    match parse_usize(&w[1]) {
                        Some(v) => {
                            if v <= 5 {
                                *comfort = Comfort::new(v as u8);
                            }
                        },
                        None => {},
                    }
                    Outcome::Stay
                } else if w.len() >= 1 && same(&w[0], &chars_of("search")) {
                    assert(wv[0] == w@[0]@);
                    Outcome::Find(after_word_exec(text.as_str(), "search"))
                } else if w.len() >= 2 && same(&w[0], &chars_of("generate")) {
                    assert(wv[0] == w@[0]@);
                    Outcome::Generate(after_word_exec(text.as_str(), "generate"))
                } else {
                    proof {
                        if wv.len() >= 1 {
                            assert(wv[0] == w@[0]@);
                        }
                    }
                    Outcome::Stay
                }
            },
            Cmd::Up => {
                let here: usize = match self.cursor {
                    Some(i) => i,
                    None => 0,
                };
                self.cursor = Some(if here > 0 { here - 1 } else { 0 });
                Outcome::Stay
            },
            Cmd::Down => {
                let here: usize = match self.cursor {
                    Some(i) => i + 1,
                    None => 0,
                };
                let end: usize = if listing.len() > 0 { listing.len() - 1 } else { 0 };
                self.cursor = Some(if here < end { here } else { end });
                Outcome::Stay
            },
            Cmd::Top => {
                self.cursor = Some(0);
                Outcome::Stay
            },
            Cmd::Bottom => {
                let end: usize = if listing.len() > 0 { listing.len() - 1 } else { 0 };
                self.cursor = Some(end);
                Outcome::Stay
            },
            Cmd::Escape => {
                if chars_of(self.filter.as_str()).len() > 0 {
                    self.filter = String::new();
                    self.cursor = None;
                    Outcome::Stay
                } else if self.cursor.is_some() {
                    self.cursor = None;
                    Outcome::Stay
                } else if live {
                    Outcome::Back
                } else {
                    Outcome::Stay
                }
            },
            Cmd::Sort => {
                self.sort = self.sort.next();
                Outcome::Stay
            },
            Cmd::Filter => {
                self.scope = self.scope.next();
                self.cursor = None;
                Outcome::Stay
            },
            _ => Outcome::Stay,
        }
    }
}

/// Esc clears the filter, then gives up the highlighted line; with
/// neither, it gives back the session screen: from anywhere, two presses
/// at most lead back to the session.
pub proof fn escape_leads_back(
    h: HomeState,
    listing: Seq<(Option<Seq<char>>, Seq<char>)>,
    choices: Seq<ChoiceView>,
    comfort: u8,
    last: Option<(Seq<char>, Seq<char>)>,
)
    ensures
        ({
            let (h1, c1, o1) = home_step(h, Cmd::Escape, listing, choices, comfort, true, last);
            o1 == OutcomeView::Back || home_step(h1, Cmd::Escape, listing, choices, c1, true, last).2 == OutcomeView::Back
        }),
{
}

/// The moves keep the highlighted line on a line of the collection.
pub proof fn moves_stay_on_a_line(
    h: HomeState,
    listing: Seq<(Option<Seq<char>>, Seq<char>)>,
    choices: Seq<ChoiceView>,
    comfort: u8,
    live: bool,
    last: Option<(Seq<char>, Seq<char>)>,
)
    requires
        listing.len() > 0,
        h.cursor != Some(usize::MAX),
    ensures
        home_step(h, Cmd::Down, listing, choices, comfort, live, last).0.cursor->0 < listing.len(),
        home_step(h, Cmd::Top, listing, choices, comfort, live, last).0.cursor->0 < listing.len(),
        home_step(h, Cmd::Bottom, listing, choices, comfort, live, last).0.cursor->0 < listing.len(),
        (h.cursor matches Some(i) && i < listing.len()) ==>
            home_step(h, Cmd::Up, listing, choices, comfort, live, last).0.cursor->0 < listing.len(),
{
}

// ---------------------------------------------------------------------------
// The collection: the catalog and the ranking, together.

/// What home reads of a card: its slug and name, the familiarity the dial
/// shows (0 to 5), the days since it last played, and whether it is liked.
pub struct CardLine {
    pub slug: String,
    pub name: String,
    pub familiarity: u8,
    pub days: Option<i64>,
    pub liked: bool,
}

/// What home reads of an artist of the ranking: its name, its familiarity,
/// and whether it is liked (under the slug of its name).
pub struct RankedLine {
    pub name: String,
    pub familiarity: u8,
    pub liked: bool,
}

/// A line of the collection.
pub struct CollectionRow {
    pub familiarity: u8,
    pub days: Option<i64>,
    pub name: String,
    /// An artist without a card is listed, but cannot serve as a seed.
    pub carded: bool,
    pub age: String,
    pub neglected: bool,
}

pub struct LineView {
    pub slug: Option<Seq<char>>,
    pub familiarity: u8,
    pub days: Option<i64>,
    pub name: Seq<char>,
    pub carded: bool,
    pub liked: bool,
}

pub struct RowView {
    pub familiarity: u8,
    pub days: Option<i64>,
    pub name: Seq<char>,
    pub carded: bool,
    pub age: Seq<char>,
    pub neglected: bool,
}

impl View for CollectionRow {
    type V = RowView;

    open spec fn view(&self) -> RowView {
        RowView {
            familiarity: self.familiarity,
            days: self.days,
            name: self.name@,
            carded: self.carded,
            age: self.age@,
            neglected: self.neglected,
        }
    }
}

pub open spec fn card_lines(v: Seq<CardLine>) -> Seq<LineView> {
    v.map_values(|c: CardLine| LineView {
        slug: Some(c.slug@),
        familiarity: c.familiarity,
        days: c.days,
        name: c.name@,
        carded: true,
        liked: c.liked,
    })
}

/// Whether the catalog already lists `x`, as a card's name in lower case or
/// as a slug.
pub open spec fn seen(cards: Seq<CardLine>, x: Seq<char>) -> bool {
    exists|i: int| 0 <= i < cards.len() && (lowercase(#[trigger] cards[i].name@) == x || cards[i].slug@ == x)
}

/// The artists of the ranking the catalog does not list already — by name,
/// or by slug: one row, not two.
pub open spec fn ranked_lines(cards: Seq<CardLine>, ranked: Seq<RankedLine>) -> Seq<LineView>
    decreases ranked.len(),
{
    if ranked.len() == 0 {
        seq![]
    } else {
        let r = ranked_lines(cards, ranked.drop_last());
        let a = ranked.last();
        if seen(cards, lowercase(a.name@)) || seen(cards, slug_of_name(a.name@)) {
            r
        } else {
            r.push(LineView { slug: None, familiarity: a.familiarity, days: None, name: a.name@, carded: false, liked: a.liked })
        }
    }
}

/// `a` comes before `b` in the collection's order.
pub open spec fn line_before(sort: Sort, a: LineView, b: LineView) -> bool {
    match sort {
        Sort::Familiarity => a.familiarity > b.familiarity || (a.familiarity == b.familiarity && lex_lt(a.name, b.name)),
        Sort::Alphabetical => lex_lt(lowercase(a.name), lowercase(b.name)),
        Sort::LastPlayed => match (a.days, b.days) {
            (Some(x), Some(y)) => x < y || (x == y && lex_lt(a.name, b.name)),
            (Some(_), None) => true,
            (None, Some(_)) => false,
            (None, None) => lex_lt(a.name, b.name),
        },
    }
}

pub open spec fn line_slot(sort: Sort, r: Seq<LineView>, x: LineView, i: int) -> int
    decreases r.len() - i,
{
    if i < 0 || i >= r.len() || line_before(sort, x, r[i]) { i } else { line_slot(sort, r, x, i + 1) }
}

/// The lines in the collection's order; lines neither before the other
/// keep their order.
pub open spec fn sorted_lines(sort: Sort, s: Seq<LineView>) -> Seq<LineView>
    decreases s.len(),
{
    if s.len() == 0 {
        seq![]
    } else {
        let r = sorted_lines(sort, s.drop_last());
        r.insert(line_slot(sort, r, s.last(), 0), s.last())
    }
}

/// Whether a line stays: the liked only, when the scope says so; and the
/// names that hold the filter, case aside, when there is one.
pub open spec fn line_kept(scope: Scope, filter: Seq<char>, l: LineView) -> bool {
    (scope == Scope::All || l.liked) && (filter.len() == 0 || contains(lowercase(l.name), lowercase(filter)))
}

pub open spec fn kept_lines(scope: Scope, filter: Seq<char>, s: Seq<LineView>) -> Seq<LineView>
    decreases s.len(),
{
    if s.len() == 0 {
        seq![]
    } else {
        let r = kept_lines(scope, filter, s.drop_last());
        if line_kept(scope, filter, s.last()) { r.push(s.last()) } else { r }
    }
}

pub open spec fn row_of_line(l: LineView) -> (Option<Seq<char>>, RowView) {
    (l.slug, RowView {
        familiarity: l.familiarity,
        days: l.days,
        name: l.name,
        carded: l.carded,
        age: age_of(l.days),
        neglected: l.days matches Some(d) && d >= 180,
    })
}

/// The whole collection: the catalog and the ranking together, sorted, then
/// scoped and filtered.
pub open spec fn collection_of(
    cards: Seq<CardLine>,
    ranked: Seq<RankedLine>,
    sort: Sort,
    scope: Scope,
    filter: Seq<char>,
) -> Seq<(Option<Seq<char>>, RowView)> {
    kept_lines(scope, filter, sorted_lines(sort, card_lines(cards) + ranked_lines(cards, ranked)))
        .map_values(|l: LineView| row_of_line(l))
}

pub open spec fn collection_view(v: Seq<(Option<String>, CollectionRow)>) -> Seq<(Option<Seq<char>>, RowView)> {
    v.map_values(|p: (Option<String>, CollectionRow)| (opt_view(p.0), p.1@))
}

struct Line {
    slug: Option<String>,
    familiarity: u8,
    days: Option<i64>,
    name: String,
    carded: bool,
    liked: bool,
}

spec fn line_view(l: Line) -> LineView {
    LineView { slug: opt_view(l.slug), familiarity: l.familiarity, days: l.days, name: l.name@, carded: l.carded, liked: l.liked }
}

spec fn lines_view(v: Seq<Line>) -> Seq<LineView> {
    v.map_values(|l: Line| line_view(l))
}

fn line_before_exec(sort: Sort, a: &Line, b: &Line) -> (r: bool)
    ensures
        r == line_before(sort, line_view(*a), line_view(*b)),
{
    match sort {
        Sort::Familiarity => a.familiarity > b.familiarity
            || (a.familiarity == b.familiarity && lex_less(&chars_of(a.name.as_str()), &chars_of(b.name.as_str()))),
        Sort::Alphabetical => lex_less(
            &chars_of(to_lowercase(a.name.as_str()).as_str()),
            &chars_of(to_lowercase(b.name.as_str()).as_str()),
        ),
        Sort::LastPlayed => match (a.days, b.days) {
            (Some(x), Some(y)) => x < y || (x == y && lex_less(&chars_of(a.name.as_str()), &chars_of(b.name.as_str()))),
            (Some(_), None) => true,
            (None, Some(_)) => false,
            (None, None) => lex_less(&chars_of(a.name.as_str()), &chars_of(b.name.as_str())),
        },
    }
}

fn seen_exec(cards: &Vec<CardLine>, lowered: &Vec<String>, x: &str) -> (r: bool)
    requires
        lowered@.len() == cards@.len(),
        forall|i: int| 0 <= i < cards@.len() ==> (#[trigger] lowered@[i])@ == lowercase(cards@[i].name@),
    ensures
        r == seen(cards@, x@),
{
    let mut i: usize = 0;
    while i < cards.len()
        invariant
            i <= cards@.len(),
            lowered@.len() == cards@.len(),
            forall|k: int| 0 <= k < cards@.len() ==> (#[trigger] lowered@[k])@ == lowercase(cards@[k].name@),
            forall|k: int| 0 <= k < i ==> !(lowercase(#[trigger] cards@[k].name@) == x@ || cards@[k].slug@ == x@),
        decreases cards@.len() - i,
    {
        if same_str(lowered[i].as_str(), x) || same_str(cards[i].slug.as_str(), x) {
            assert(lowered@[i as int]@ == lowercase(cards@[i as int].name@));
            return true;
        }
        assert(lowered@[i as int]@ == lowercase(cards@[i as int].name@));
        assert(!(lowercase(cards@[i as int].name@) == x@ || cards@[i as int].slug@ == x@));
        i = i + 1;
    }
    false
}

/// The collection, from the catalog's cards and the ranking's artists as
/// the caller reads them.
pub fn collection(cards: &Vec<CardLine>, ranked: &Vec<RankedLine>, sort: Sort, scope: Scope, filter: &str)
    -> (r: Vec<(Option<String>, CollectionRow)>)
    ensures
        collection_view(r@) == collection_of(cards@, ranked@, sort, scope, filter@),
{
    // the lines: every card, then the ranking's artists the catalog lacks
    let mut lines: Vec<Line> = Vec::new();
    let mut lowered: Vec<String> = Vec::new();
    let mut i: usize = 0;
    assert(lines_view(lines@) =~= card_lines(cards@).take(0));
    while i < cards.len()
        invariant
            i <= cards@.len(),
            lines_view(lines@) == card_lines(cards@).take(i as int),
            lowered@.len() == i,
            forall|k: int| 0 <= k < i ==> (#[trigger] lowered@[k])@ == lowercase(cards@[k].name@),
        decreases cards@.len() - i,
    {
        let c = &cards[i];
        let ghost before = lines@;
        let nl = Line { slug: Some(c.slug.clone()), familiarity: c.familiarity, days: c.days, name: c.name.clone(), carded: true, liked: c.liked };
        assert(line_view(nl) == card_lines(cards@)[i as int]);
        lines.push(nl);
        assert(lines_view(lines@) =~= lines_view(before).push(line_view(nl)));
        assert(card_lines(cards@).take(i + 1) =~= card_lines(cards@).take(i as int).push(card_lines(cards@)[i as int]));
        assert(lines_view(lines@) =~= card_lines(cards@).take(i + 1));
        lowered.push(to_lowercase(c.name.as_str()));
        i = i + 1;
    }
    assert(card_lines(cards@).take(i as int) =~= card_lines(cards@));
    let ghost base = card_lines(cards@);
    let mut j: usize = 0;
    assert(ranked@.take(0) =~= seq![]);
    assert(lines_view(lines@) =~= base + ranked_lines(cards@, ranked@.take(0)));
    while j < ranked.len()
        invariant
            j <= ranked@.len(),
            base == card_lines(cards@),
            lowered@.len() == cards@.len(),
            forall|k: int| 0 <= k < cards@.len() ==> (#[trigger] lowered@[k])@ == lowercase(cards@[k].name@),
            lines_view(lines@) == base + ranked_lines(cards@, ranked@.take(j as int)),
        decreases ranked@.len() - j,
    {
        let a = &ranked[j];
        assert(ranked@.take(j + 1).drop_last() =~= ranked@.take(j as int));
        assert(ranked@.take(j + 1).last() == ranked@[j as int]);
        let lower = to_lowercase(a.name.as_str());
        let slug = slugify(a.name.as_str());
        if !seen_exec(cards, &lowered, lower.as_str()) && !seen_exec(cards, &lowered, slug.as_str()) {
            let ghost before = lines_view(lines@);
            lines.push(Line { slug: None, familiarity: a.familiarity, days: None, name: a.name.clone(), carded: false, liked: a.liked });
            assert(lines_view(lines@) =~= before.push(line_view(lines@.last())));
        }
        j = j + 1;
    }
    assert(ranked@.take(j as int) =~= ranked@);
    let ghost all = lines_view(lines@);

    // sorted, each line after those it does not come before
    let mut sorted: Vec<Line> = Vec::new();
    let mut taken: usize = 0;
    let total = lines.len();
    let ghost orig = lines@;
    assert(lines_view(sorted@) =~= sorted_lines(sort, all.take(0)));
    while lines.len() > 0
        invariant
            taken + lines@.len() == orig.len(),
            orig.len() == total,
            all == lines_view(orig),
            lines@ == orig.skip(taken as int),
            lines_view(sorted@) == sorted_lines(sort, all.take(taken as int)),
        decreases lines@.len(),
    {
        let x = lines.remove(0);
        assert(x == orig[taken as int]);
        let ghost s0 = lines_view(sorted@);
        proof {
            assert(all.take(taken + 1).drop_last() =~= all.take(taken as int));
            assert(all.take(taken + 1).last() == line_view(x));
            lemma_line_slot(sort, s0, line_view(x), 0);
        }
        let mut k: usize = 0;
        while k < sorted.len() && !line_before_exec(sort, &x, &sorted[k])
            invariant
                k <= sorted@.len(),
                s0 == lines_view(sorted@),
                line_slot(sort, s0, line_view(x), 0) == line_slot(sort, s0, line_view(x), k as int),
            decreases sorted@.len() - k,
        {
            k = k + 1;
        }
        let ghost sv = sorted@;
        sorted.insert(k, x);
        assert(lines_view(sorted@) =~= s0.insert(k as int, line_view(x)));
        taken = taken + 1;
        assert(lines@ =~= orig.skip(taken as int));
    }
    assert(all.take(taken as int) =~= all);
    let ghost ordered = lines_view(sorted@);

    // scoped and filtered
    let needle = chars_of(to_lowercase(filter).as_str());
    let empty = chars_of(filter).len() == 0;
    let mut out: Vec<(Option<String>, CollectionRow)> = Vec::new();
    let mut m: usize = 0;
    assert(ordered.take(0) =~= seq![]);
    assert(collection_view(out@) =~= kept_lines(scope, filter@, ordered.take(0)).map_values(|l: LineView| row_of_line(l)));
    while m < sorted.len()
        invariant
            m <= sorted@.len(),
            ordered == lines_view(sorted@),
            needle@ == lowercase(filter@),
            empty == (filter@.len() == 0),
            collection_view(out@) == kept_lines(scope, filter@, ordered.take(m as int)).map_values(|l: LineView| row_of_line(l)),
        decreases sorted@.len() - m,
    {
        let l = &sorted[m];
        proof {
            assert(ordered.take(m + 1).drop_last() =~= ordered.take(m as int));
            assert(ordered.take(m + 1).last() == line_view(*l));
        }
        let scoped = scope == Scope::All || l.liked;
        let named = empty || contains_in(&chars_of(to_lowercase(l.name.as_str()).as_str()), &needle);
        if scoped && named {
            let slug = match &l.slug {
                Some(s) => Some(s.clone()),
                None => None,
            };
            let neglected = match l.days {
                Some(d) => d >= 180,
                None => false,
            };
            let row = CollectionRow {
                familiarity: l.familiarity,
                days: l.days,
                name: l.name.clone(),
                carded: l.carded,
                age: age(l.days),
                neglected,
            };
            let ghost before = collection_view(out@);
            out.push((slug, row));
            assert(collection_view(out@) =~= before.push(row_of_line(line_view(*l))));
            assert(kept_lines(scope, filter@, ordered.take(m + 1))
                == kept_lines(scope, filter@, ordered.take(m as int)).push(line_view(*l)));
            assert(kept_lines(scope, filter@, ordered.take(m + 1)).map_values(|l: LineView| row_of_line(l))
                =~= kept_lines(scope, filter@, ordered.take(m as int)).map_values(|l: LineView| row_of_line(l)).push(row_of_line(line_view(*l))));
        }
        m = m + 1;
    }
    assert(ordered.take(m as int) =~= ordered);
    out
}

proof fn lemma_line_slot(sort: Sort, r: Seq<LineView>, x: LineView, i: int)
    requires
        0 <= i <= r.len(),
    ensures
        i <= line_slot(sort, r, x, i) <= r.len(),
        forall|k: int| i <= k < line_slot(sort, r, x, i) ==> !line_before(sort, x, #[trigger] r[k]),
        line_slot(sort, r, x, i) < r.len() ==> line_before(sort, x, r[line_slot(sort, r, x, i)]),
    decreases r.len() - i,
{
    if i < r.len() && !line_before(sort, x, r[i]) {
        lemma_line_slot(sort, r, x, i + 1);
    }
}

proof fn lemma_line_before_asymmetric(sort: Sort, a: LineView, b: LineView)
    requires
        line_before(sort, a, b),
    ensures
        !line_before(sort, b, a),
{
    if lex_lt(a.name, b.name) && lex_lt(b.name, a.name) {
        lemma_lex_transitive(a.name, b.name, a.name);
        lemma_lex_irreflexive(a.name);
    }
    if lex_lt(lowercase(a.name), lowercase(b.name)) && lex_lt(lowercase(b.name), lowercase(a.name)) {
        lemma_lex_transitive(lowercase(a.name), lowercase(b.name), lowercase(a.name));
        lemma_lex_irreflexive(lowercase(a.name));
    }
}

proof fn lemma_line_before_transitive(sort: Sort, a: LineView, b: LineView, c: LineView)
    requires
        line_before(sort, a, b),
        line_before(sort, b, c),
    ensures
        line_before(sort, a, c),
{
    if lex_lt(a.name, b.name) && lex_lt(b.name, c.name) {
        lemma_lex_transitive(a.name, b.name, c.name);
    }
    if lex_lt(lowercase(a.name), lowercase(b.name)) && lex_lt(lowercase(b.name), lowercase(c.name)) {
        lemma_lex_transitive(lowercase(a.name), lowercase(b.name), lowercase(c.name));
    }
}

/// The collection holds every line once, and in its order: the most
/// familiar first, or by name case aside, or the most recently played
/// first with the never played last; lines of the same place keep theirs.
pub proof fn the_collection_is_in_order(sort: Sort, s: Seq<LineView>)
    ensures
        forall|i: int, j: int| 0 <= i < j < sorted_lines(sort, s).len() ==>
            !line_before(sort, #[trigger] sorted_lines(sort, s)[j], #[trigger] sorted_lines(sort, s)[i]),
        sorted_lines(sort, s).to_multiset() == s.to_multiset(),
    decreases s.len(),
{
    broadcast use vstd::seq_lib::to_multiset_insert, vstd::seq_lib::to_multiset_build;
    if s.len() == 0 {
        assert(sorted_lines(sort, s) =~= s);
    } else {
        let init = s.drop_last();
        the_collection_is_in_order(sort, init);
        let r = sorted_lines(sort, init);
        let x = s.last();
        let k = line_slot(sort, r, x, 0);
        lemma_line_slot(sort, r, x, 0);
        let n = r.insert(k, x);
        assert(sorted_lines(sort, s) == n);
        assert(s =~= init.push(x));
        assert forall|i: int, j: int| 0 <= i < j < n.len() implies !line_before(sort, #[trigger] n[j], #[trigger] n[i]) by {
            if j < k {
                assert(n[i] == r[i] && n[j] == r[j]);
            } else if j == k {
                assert(n[j] == x && n[i] == r[i]);
            } else if i == k {
                assert(n[i] == x && n[j] == r[j - 1]);
                assert(line_before(sort, x, r[k]));
                if j - 1 == k {
                    lemma_line_before_asymmetric(sort, x, r[k]);
                } else {
                    assert(!line_before(sort, r[j - 1], r[k]));
                    if line_before(sort, r[j - 1], x) {
                        lemma_line_before_transitive(sort, r[j - 1], x, r[k]);
                    }
                }
            } else if i < k {
                assert(n[i] == r[i] && n[j] == r[j - 1]);
            } else {
                assert(n[i] == r[i - 1] && n[j] == r[j - 1]);
            }
        }
    }
}

/// An artist of the ranking that the catalog lists, by its name or by
/// the slug of its name, is not listed a second time.
pub proof fn one_row_per_artist(cards: Seq<CardLine>, ranked: Seq<RankedLine>, k: int)
    requires
        0 <= k < ranked_lines(cards, ranked).len(),
    ensures
        !seen(cards, lowercase(ranked_lines(cards, ranked)[k].name)),
        !seen(cards, slug_of_name(ranked_lines(cards, ranked)[k].name)),
        !ranked_lines(cards, ranked)[k].carded,
    decreases ranked.len(),
{
    let init = ranked.drop_last();
    let r = ranked_lines(cards, init);
    if k < r.len() {
        one_row_per_artist(cards, init, k);
        let a = ranked.last();
        if !(seen(cards, lowercase(a.name@)) || seen(cards, slug_of_name(a.name@))) {
            assert(ranked_lines(cards, ranked)[k] == r[k]);
        }
    }
}

// ---------------------------------------------------------------------------
// The doors of home.

/// A card as the doors read it, in the order of familiarity the caller
/// sorted them in (most familiar first, banned artists left out): whether
/// it was ever played, and its familiarity in percent.
pub struct Door {
    pub slug: String,
    pub name: String,
    pub tops: Vec<String>,
    pub played: bool,
    pub percent: u32,
}

pub struct DoorView {
    pub slug: Seq<char>,
    pub name: Seq<char>,
    pub tops: Seq<Seq<char>>,
    pub played: bool,
    pub percent: u32,
}

impl View for Door {
    type V = DoorView;

    open spec fn view(&self) -> DoorView {
        DoorView { slug: self.slug@, name: self.name@, tops: strings(self.tops@), played: self.played, percent: self.percent }
    }
}

/// A door in: a seed, and the sentence saying why it is there.
pub struct Entry {
    pub choice: Choice,
    pub label: String,
    /// Filled only when the seed is a track: the title goes first, the
    /// artist behind.
    pub artist: Option<String>,
    pub reason: String,
    pub preview: Vec<(String, String)>,
}

pub struct EntryView {
    pub choice: ChoiceView,
    pub label: Seq<char>,
    pub artist: Option<Seq<char>>,
    pub reason: Seq<char>,
    pub preview: Seq<(Seq<char>, Seq<char>)>,
}

impl View for Entry {
    type V = EntryView;

    open spec fn view(&self) -> EntryView {
        EntryView {
            choice: self.choice@,
            label: self.label@,
            artist: opt_view(self.artist),
            reason: self.reason@,
            preview: self.preview@.map_values(|p: (String, String)| (p.0@, p.1@)),
        }
    }
}

pub open spec fn liked_view(liked: Option<(String, String, Option<String>)>) -> Option<(Seq<char>, Seq<char>, Option<Seq<char>>)> {
    match liked {
        Some((s, t, n)) => Some((s@, t@, opt_view(n))),
        None => None,
    }
}

pub open spec fn doors_view(v: Seq<Door>) -> Seq<DoorView> {
    v.map_values(|d: Door| d@)
}

pub open spec fn entries_view(v: Seq<Entry>) -> Seq<EntryView> {
    v.map_values(|e: Entry| e@)
}

pub open spec fn blocks_view(v: Seq<(String, Vec<Entry>)>) -> Seq<(Seq<char>, Seq<EntryView>)> {
    v.map_values(|b: (String, Vec<Entry>)| (b.0@, entries_view(b.1@)))
}

/// A card's first tops, each with the artist behind it.
pub open spec fn preview_of(d: DoorView, n: int) -> Seq<(Seq<char>, Seq<char>)> {
    d.tops.take(if d.tops.len() < n { d.tops.len() as int } else { n }).map_values(|t: Seq<char>| (t, d.name))
}

pub open spec fn regular_entry(d: DoorView) -> EntryView {
    EntryView {
        choice: ChoiceView::Artist(d.slug),
        label: d.name,
        artist: None,
        reason: "familiarity "@ + decimal(d.percent as nat) + "%"@,
        preview: preview_of(d, 2),
    }
}

pub open spec fn never_entry(d: DoorView) -> EntryView {
    EntryView {
        choice: ChoiceView::Artist(d.slug),
        label: d.name,
        artist: None,
        reason: "in the catalog, never played"@,
        preview: preview_of(d, 1),
    }
}

pub open spec fn neglected_entry(d: DoorView, months: i64) -> EntryView {
    EntryView {
        choice: ChoiceView::Artist(d.slug),
        label: d.name,
        artist: None,
        reason: "last played "@ + signed_decimal(months as int) + " months ago"@,
        preview: preview_of(d, 1),
    }
}

/// The regulars: the first `n` doors ever played.
pub open spec fn regulars(f: Seq<DoorView>, n: nat) -> Seq<EntryView>
    decreases f.len(),
{
    if f.len() == 0 || n == 0 {
        seq![]
    } else if f[0].played {
        seq![regular_entry(f[0])] + regulars(f.drop_first(), (n - 1) as nat)
    } else {
        regulars(f.drop_first(), n)
    }
}

/// The never played: the last `n` doors nothing has touched, the least
/// familiar first.
pub open spec fn never_played(f: Seq<DoorView>, n: nat) -> Seq<EntryView>
    decreases f.len(),
{
    if f.len() == 0 || n == 0 {
        seq![]
    } else if !f.last().played {
        seq![never_entry(f.last())] + never_played(f.drop_last(), (n - 1) as nat)
    } else {
        never_played(f.drop_last(), n)
    }
}

/// The first door of a slug.
pub open spec fn door_of(f: Seq<DoorView>, slug: Seq<char>) -> Option<DoorView>
    decreases f.len(),
{
    if f.len() == 0 {
        None
    } else if f[0].slug == slug {
        Some(f[0])
    } else {
        door_of(f.drop_first(), slug)
    }
}

/// The neglected, as long as they have a card: `n` at most.
pub open spec fn neglected_doors(f: Seq<DoorView>, neg: Seq<(Seq<char>, i64)>, n: nat) -> Seq<EntryView>
    decreases neg.len(),
{
    if neg.len() == 0 || n == 0 {
        seq![]
    } else {
        match door_of(f, neg[0].0) {
            Some(d) => seq![neglected_entry(d, neg[0].1)] + neglected_doors(f, neg.drop_first(), (n - 1) as nat),
            None => neglected_doors(f, neg.drop_first(), n),
        }
    }
}

/// The seed that is a track: the first liked track when there is one (it
/// shows when its artist has a card), else the first top of the most
/// familiar door.
pub open spec fn track_entry(f: Seq<DoorView>, liked: Option<(Seq<char>, Seq<char>, Option<Seq<char>>)>) -> Seq<EntryView> {
    let seed: Option<(Seq<char>, Seq<char>, Seq<char>)> = match liked {
        Some((slug, title, Some(name))) => Some((slug, title, name)),
        Some((_, _, None)) => None,
        None => if f.len() > 0 && f[0].tops.len() > 0 { Some((f[0].slug, f[0].tops[0], f[0].name)) } else { None },
    };
    match seed {
        Some((slug, title, name)) => seq![EntryView {
            choice: ChoiceView::Track(slug, title),
            label: title,
            artist: Some(name),
            reason: "a track, not an artist: it plays, then the branches fork from "@ + name,
            preview: seq![],
        }],
        None => seq![],
    }
}

/// The home doors, in the order comfort decides: the regulars first in the
/// cocoon, the neglected (or, on day one, the never played) first when
/// opening up.
pub open spec fn entries_of(
    f: Seq<DoorView>,
    liked: Option<(Seq<char>, Seq<char>, Option<Seq<char>>)>,
    neg: Seq<(Seq<char>, i64)>,
    comfort: u8,
) -> Seq<(Seq<char>, Seq<EntryView>)> {
    let first = ("your regulars"@, regulars(f, 2) + track_entry(f, liked));
    let second = if neg.len() == 0 {
        ("never played"@, never_played(f, 2))
    } else {
        ("neglected"@, neglected_doors(f, neg, 2))
    };
    if comfort <= 1 { seq![second, first] } else { seq![first, second] }
}

fn preview_exec(d: &Door, n: usize) -> (r: Vec<(String, String)>)
    ensures
        r@.map_values(|p: (String, String)| (p.0@, p.1@)) == preview_of(d@, n as int),
{
    let k = if d.tops.len() < n { d.tops.len() } else { n };
    let ghost tv = strings(d.tops@);
    let mut r: Vec<(String, String)> = Vec::new();
    let mut i: usize = 0;
    while i < k
        invariant
            i <= k <= d.tops@.len(),
            tv == strings(d.tops@),
            r@.map_values(|p: (String, String)| (p.0@, p.1@)) == tv.take(i as int).map_values(|t: Seq<char>| (t, d.name@)),
        decreases k - i,
    {
        let ghost before = r@;
        r.push((d.tops[i].clone(), d.name.clone()));
        assert(tv.take(i + 1) =~= tv.take(i as int).push(tv[i as int]));
        assert(r@.map_values(|p: (String, String)| (p.0@, p.1@))
            =~= before.map_values(|p: (String, String)| (p.0@, p.1@)).push((tv[i as int], d.name@)));
        assert(r@.map_values(|p: (String, String)| (p.0@, p.1@)) =~= tv.take(i + 1).map_values(|t: Seq<char>| (t, d.name@)));
        i = i + 1;
    }
    r
}

fn door_entry(d: &Door, kind: u8, months: i64) -> (r: Entry)
    ensures
        r@ == if kind == 0 { regular_entry(d@) } else if kind == 1 { never_entry(d@) } else { neglected_entry(d@, months) },
{
    let reason = if kind == 0 {
        let mut v: Vec<char> = Vec::new();
        push_str(&mut v, "familiarity ");
        let n = decimal_of(d.percent as u64);
        push_all(&mut v, &n);
        push_str(&mut v, "%");
        string_of(&v)
    } else if kind == 1 {
        String::from_str("in the catalog, never played")
    } else {
        let mut v: Vec<char> = Vec::new();
        push_str(&mut v, "last played ");
        let n = signed_decimal_exec(months);
        push_all(&mut v, &n);
        push_str(&mut v, " months ago");
        string_of(&v)
    };
    Entry {
        choice: Choice::Artist(d.slug.clone()),
        label: d.name.clone(),
        artist: None,
        reason,
        preview: preview_exec(d, if kind == 0 { 2 } else { 1 }),
    }
}

/// The home doors: two blocks, each a title and its doors.
pub fn entries(familiar: &Vec<Door>, liked: Option<(String, String, Option<String>)>, neglected: &Vec<(String, i64)>, comfort: Comfort)
    -> (r: Vec<(String, Vec<Entry>)>)
    ensures
        blocks_view(r@) == entries_of(
            doors_view(familiar@),
            liked_view(liked),
            neglected@.map_values(|p: (String, i64)| (p.0@, p.1)),
            comfort@,
        ),
{
    let ghost f = doors_view(familiar@);
    // the regulars: the first two ever played
    let mut regular: Vec<Entry> = Vec::new();
    let mut i: usize = 0;
    assert(f.skip(0) =~= f);
    while i < familiar.len() && regular.len() < 2
        invariant
            i <= familiar@.len(),
            f == doors_view(familiar@),
            regular@.len() <= 2,
            regulars(f, 2) == entries_view(regular@) + regulars(f.skip(i as int), (2 - regular@.len()) as nat),
        decreases familiar@.len() - i,
    {
        let ghost rest = f.skip(i as int);
        assert(rest[0] == familiar@[i as int]@);
        assert(rest.drop_first() =~= f.skip(i + 1));
        if familiar[i].played {
            let e = door_entry(&familiar[i], 0, 0);
            let ghost before = regular@;
            regular.push(e);
            assert(entries_view(regular@) =~= entries_view(before) + seq![e@]);
        }
        i = i + 1;
    }
    proof {
        if i >= familiar.len() {
            assert(f.skip(i as int).len() == 0);
        }
    }
    assert(entries_view(regular@) =~= entries_view(regular@) + seq![]);
    // the track
    let ghost liked_v = liked_view(liked);
    let seed: Option<(String, String, String)> = match liked {
        Some((slug, title, Some(name))) => Some((slug, title, name)),
        Some((_, _, None)) => None,
        None => {
            if familiar.len() > 0 && familiar[0].tops.len() > 0 {
                assert(f[0].tops[0] == familiar@[0].tops@[0]@);
                Some((familiar[0].slug.clone(), familiar[0].tops[0].clone(), familiar[0].name.clone()))
            } else {
                None
            }
        },
    };
    let ghost before_track = entries_view(regular@);
    match seed {
        Some((slug, title, name)) => {
            let mut v: Vec<char> = Vec::new();
            push_str(&mut v, "a track, not an artist: it plays, then the branches fork from ");
            push_str(&mut v, name.as_str());
            let reason = string_of(&v);
            let preview: Vec<(String, String)> = Vec::new();
            let e = Entry { choice: Choice::Track { slug, title: title.clone() }, label: title, artist: Some(name), reason, preview };
            assert(e@.preview =~= seq![]);
            regular.push(e);
            assert(entries_view(regular@) =~= before_track + track_entry(f, liked_v));
        },
        None => {
            assert(track_entry(f, liked_v) =~= seq![]);
            assert(entries_view(regular@) =~= before_track + track_entry(f, liked_v));
        },
    }
    let first = (String::from_str("your regulars"), regular);

    // the neglected, or on day one the never played
    let ghost nv = neglected@.map_values(|p: (String, i64)| (p.0@, p.1));
    let mut second: Vec<Entry> = Vec::new();
    let title = if neglected.len() == 0 {
        let mut j: usize = familiar.len();
        assert(f.take(j as int) =~= f);
        while j > 0 && second.len() < 2
            invariant
                j <= familiar@.len(),
                f == doors_view(familiar@),
                second@.len() <= 2,
                never_played(f, 2) == entries_view(second@) + never_played(f.take(j as int), (2 - second@.len()) as nat),
            decreases j,
        {
            let ghost rest = f.take(j as int);
            assert(rest.last() == familiar@[j - 1]@);
            assert(rest.drop_last() =~= f.take(j - 1));
            if !familiar[j - 1].played {
                let e = door_entry(&familiar[j - 1], 1, 0);
                let ghost before = second@;
                second.push(e);
                assert(entries_view(second@) =~= entries_view(before) + seq![e@]);
            }
            j = j - 1;
        }
        proof {
            if j == 0 {
                assert(f.take(0).len() == 0);
            }
        }
        assert(entries_view(second@) =~= entries_view(second@) + seq![]);
        String::from_str("never played")
    } else {
        let mut k: usize = 0;
        assert(nv.skip(0) =~= nv);
        while k < neglected.len() && second.len() < 2
            invariant
                k <= neglected@.len(),
                f == doors_view(familiar@),
                nv == neglected@.map_values(|p: (String, i64)| (p.0@, p.1)),
                second@.len() <= 2,
                neglected_doors(f, nv, 2) == entries_view(second@) + neglected_doors(f, nv.skip(k as int), (2 - second@.len()) as nat),
            decreases neglected@.len() - k,
        {
            let ghost rest = nv.skip(k as int);
            assert(rest[0] == (neglected@[k as int].0@, neglected@[k as int].1));
            assert(rest.drop_first() =~= nv.skip(k + 1));
            match find_door(familiar, neglected[k].0.as_str()) {
                Some(d) => {
                    let e = door_entry(&familiar[d], 2, neglected[k].1);
                    let ghost before = second@;
                    second.push(e);
                    assert(entries_view(second@) =~= entries_view(before) + seq![e@]);
                },
                None => {},
            }
            k = k + 1;
        }
        proof {
            if k >= neglected.len() {
                assert(nv.skip(k as int).len() == 0);
            }
        }
        assert(entries_view(second@) =~= entries_view(second@) + seq![]);
        String::from_str("neglected")
    };
    let second = (title, second);
    let mut blocks: Vec<(String, Vec<Entry>)> = Vec::new();
    if comfort.value() <= 1 {
        blocks.push(second);
        blocks.push(first);
    } else {
        blocks.push(first);
        blocks.push(second);
    }
    assert(blocks_view(blocks@) =~= entries_of(f, liked_v, nv, comfort@));
    blocks
}

fn find_door(familiar: &Vec<Door>, slug: &str) -> (r: Option<usize>)
    ensures
        match r {
            Some(i) => i < familiar@.len() && door_of(doors_view(familiar@), slug@) == Some(familiar@[i as int]@),
            None => door_of(doors_view(familiar@), slug@) is None,
        },
{
    let ghost f = doors_view(familiar@);
    let mut i: usize = 0;
    assert(f.skip(0) =~= f);
    while i < familiar.len()
        invariant
            i <= familiar@.len(),
            f == doors_view(familiar@),
            door_of(f, slug@) == door_of(f.skip(i as int), slug@),
        decreases familiar@.len() - i,
    {
        assert(f.skip(i as int)[0] == familiar@[i as int]@);
        assert(f.skip(i as int).drop_first() =~= f.skip(i + 1));
        if same_str(familiar[i].slug.as_str(), slug) {
            return Some(i);
        }
        i = i + 1;
    }
    assert(f.skip(i as int).len() == 0);
    None
}

/// The dial decides the order of home: the cocoon puts the regulars first,
/// the exploration the neglected (or the never played).
pub proof fn the_cocoon_puts_the_regulars_first(
    f: Seq<DoorView>,
    liked: Option<(Seq<char>, Seq<char>, Option<Seq<char>>)>,
    neg: Seq<(Seq<char>, i64)>,
    comfort: u8,
)
    ensures
        entries_of(f, liked, neg, comfort).len() == 2,
        (entries_of(f, liked, neg, comfort)[0].0 == "your regulars"@) <==> comfort >= 2,
{
    reveal_strlit("your regulars");
    reveal_strlit("never played");
    reveal_strlit("neglected");
    assert("your regulars"@ != "never played"@ && "your regulars"@ != "neglected"@) by {
        assert("your regulars"@[0] != "never played"@[0]);
        assert("your regulars"@.len() != "neglected"@.len());
    }
}


/// The doors of the blocks, one after the other, as the digits number them.
pub open spec fn flat_choices(blocks: Seq<(Seq<char>, Seq<EntryView>)>) -> Seq<ChoiceView>
    decreases blocks.len(),
{
    if blocks.len() == 0 {
        seq![]
    } else {
        flat_choices(blocks.drop_last()) + blocks.last().1.map_values(|e: EntryView| e.choice)
    }
}

/// What the digits of the home start: the doors of the blocks, in order.
pub fn choices_of(blocks: &Vec<(String, Vec<Entry>)>) -> (r: Vec<Choice>)
    ensures
        choices_view(r@) == flat_choices(blocks_view(blocks@)),
{
    let mut r: Vec<Choice> = Vec::new();
    let mut i: usize = 0;
    while i < blocks.len()
        invariant
            i <= blocks@.len(),
            choices_view(r@) == flat_choices(blocks_view(blocks@).take(i as int)),
        decreases blocks@.len() - i,
    {
        let ghost before = r@;
        let doors = &blocks[i].1;
        let mut j: usize = 0;
        while j < doors.len()
            invariant
                j <= doors@.len(),
                doors == &blocks@[i as int].1,
                choices_view(r@) == choices_view(before) + entries_view(doors@).take(j as int).map_values(
                    |e: EntryView| e.choice,
                ),
            decreases doors@.len() - j,
        {
            let ghost mid = r@;
            r.push(copy_choice(&doors[j].choice));
            assert(choices_view(r@) =~= choices_view(mid).push(doors@[j as int].choice@));
            assert(entries_view(doors@).take(j + 1).map_values(|e: EntryView| e.choice) =~= entries_view(
                doors@,
            ).take(j as int).map_values(|e: EntryView| e.choice).push(doors@[j as int].choice@));
            j = j + 1;
        }
        proof {
            let bv = blocks_view(blocks@);
            assert(bv.take(i + 1).drop_last() =~= bv.take(i as int));
            assert(bv.take(i + 1).last() == bv[i as int]);
            assert(entries_view(doors@).take(j as int) =~= entries_view(doors@));
            assert(choices_view(r@) =~= flat_choices(bv.take(i + 1)));
        }
        i = i + 1;
    }
    assert(blocks_view(blocks@).take(i as int) =~= blocks_view(blocks@));
    r
}

proof fn lemma_flat_choices(blocks: Seq<(Seq<char>, Seq<EntryView>)>, b: int, k: int)
    requires
        0 <= b < blocks.len(),
        0 <= k < blocks[b].1.len(),
    ensures
        ({
            let n = flat_choices(blocks.take(b)).len() + k;
            0 <= n < flat_choices(blocks).len() && flat_choices(blocks)[n] == blocks[b].1[k].choice
        }),
    decreases blocks.len(),
{
    if b == blocks.len() - 1 {
        assert(blocks.take(b) =~= blocks.drop_last());
    } else {
        lemma_flat_choices(blocks.drop_last(), b, k);
        assert(blocks.drop_last().take(b) =~= blocks.take(b));
    }
}

/// Digit n on the home starts the n-th door of the page, counting the
/// blocks in order: door k of block b is the digit after every door of the
/// blocks before it, plus k + 1.
pub proof fn a_digit_starts_its_door(
    h: HomeState,
    blocks: Seq<(Seq<char>, Seq<EntryView>)>,
    b: int,
    k: int,
    n: usize,
    listing: Seq<(Option<Seq<char>>, Seq<char>)>,
    comfort: u8,
    live: bool,
    last: Option<(Seq<char>, Seq<char>)>,
)
    requires
        0 <= b < blocks.len(),
        0 <= k < blocks[b].1.len(),
        n == flat_choices(blocks.take(b)).len() + k + 1,
    ensures
        home_step(h, Cmd::Digit(n), listing, flat_choices(blocks), comfort, live, last).2
            == OutcomeView::Start(blocks[b].1[k].choice),
{
    lemma_flat_choices(blocks, b, k);
}

} // verus!
