use forkstify::keys::{parse, parse_setup, Cmd, Parse, When};

fn done(p: Parse) -> Option<Cmd> {
    match p {
        Parse::Done(cmd) => Some(cmd),
        _ => None,
    }
}

/// The property the whole design rests on: no complete command may be the
/// start of a longer one, or it could never fire without a timeout.
#[test]
fn grammar_is_prefix_free() {
    let alphabet: Vec<char> = "0123456789fenatlsbcgGmTdLpruwhqQCo.?!\r".chars().collect();
    let mut complete: Vec<String> = Vec::new();
    let mut queue: Vec<String> = vec![String::new()];
    for _ in 0..3 {
        let mut next = Vec::new();
        for base in &queue {
            for ch in &alphabet {
                let candidate = format!("{base}{ch}");
                match parse(&candidate) {
                    Parse::Done(_) => complete.push(candidate),
                    Parse::Pending => next.push(candidate),
                    Parse::Unknown => {}
                }
            }
        }
        queue = next;
    }
    for a in &complete {
        for b in &complete {
            assert!(a == b || !b.starts_with(a.as_str()), "\"{a}\" is a prefix of \"{b}\": it could never fire");
        }
    }
}

#[test]
fn the_three_variants() {
    assert_eq!(done(parse("3")), Some(Cmd::Digit(3)));
    assert_eq!(done(parse("f3")), Some(Cmd::Fork { branch: 3, when: When::EndOfBranch }));
    assert_eq!(done(parse("fn3")), Some(Cmd::Fork { branch: 3, when: When::Now }));
    assert_eq!(done(parse("f!3")), Some(Cmd::Fork { branch: 3, when: When::NowForce }));
    assert!(matches!(parse("fg"), Parse::Pending));
    assert_eq!(done(parse("fg2")), Some(Cmd::ForkGenerate(2)));
    assert_eq!(done(parse("e2")), Some(Cmd::Encore { count: 2, when: When::EndOfBranch }));
    assert_eq!(done(parse("en2")), Some(Cmd::Encore { count: 2, when: When::Now }));
    assert_eq!(done(parse("e!2")), Some(Cmd::Encore { count: 2, when: When::NowForce }));
}

/// The setup table: digits pick (0 included, for the comfort), `o` opens,
/// and it stays prefix-free.
#[test]
fn the_setup_table() {
    assert_eq!(done(parse_setup("3")), Some(Cmd::Digit(3)));
    assert_eq!(done(parse_setup("0")), Some(Cmd::Digit(0)));
    assert_eq!(done(parse_setup("j")), Some(Cmd::Down));
    assert_eq!(done(parse_setup("o")), Some(Cmd::Open));
    assert_eq!(done(parse_setup("q")), Some(Cmd::Quit));
    assert!(matches!(parse_setup("g"), Parse::Pending));
    assert_eq!(done(parse_setup("gg")), Some(Cmd::Top));
    assert!(matches!(parse_setup("f"), Parse::Unknown));
}

#[test]
fn namespaces_and_bare_keys() {
    assert_eq!(done(parse("tl")), Some(Cmd::Track('l')));
    assert_eq!(done(parse("al")), Some(Cmd::Artist('l')));
    assert_eq!(done(parse("ac")), Some(Cmd::Artist('c')));
    assert_eq!(done(parse("ag")), Some(Cmd::Artist('g')));
    assert!(matches!(parse("C"), Parse::Pending));
    assert_eq!(done(parse("Cd")), Some(Cmd::Catalog('d')));
    assert_eq!(done(parse("Cp")), Some(Cmd::Catalog('p')));
    assert_eq!(done(parse("Cu")), Some(Cmd::Catalog('u')));
    assert!(matches!(parse("Cx"), Parse::Unknown));
    assert_eq!(done(parse("o")), Some(Cmd::Open));
    assert_eq!(done(parse("ti")), Some(Cmd::Track('i')));
    assert_eq!(done(parse("h")), Some(Cmd::Prev));
    assert_eq!(done(parse("p")), Some(Cmd::PlayPause));
    assert_eq!(done(parse("r")), Some(Cmd::Resume));
    assert_eq!(done(parse("b")), Some(Cmd::Browse));
    assert!(matches!(parse("c"), Parse::Pending));
    assert_eq!(done(parse("cc")), Some(Cmd::ComfortMode));
    assert_eq!(done(parse("c3")), Some(Cmd::Comfort(3)));
    assert_eq!(done(parse("c0")), Some(Cmd::Comfort(0)));
    assert!(matches!(parse("c7"), Parse::Unknown));
    assert_eq!(done(parse("s")), Some(Cmd::Sort));
    assert_eq!(done(parse("gg")), Some(Cmd::Top));
    assert_eq!(done(parse("G")), Some(Cmd::Bottom));
    assert_eq!(done(parse("J")), Some(Cmd::MoveDown));
    assert_eq!(done(parse("K")), Some(Cmd::MoveUp));
    assert!(matches!(parse("g"), Parse::Pending));
    assert_eq!(done(parse("l")), Some(Cmd::Next));
    assert_eq!(done(parse("fu")), Some(Cmd::ForkUndo));
    assert!(matches!(parse("t"), Parse::Pending));
    assert!(matches!(parse("tz"), Parse::Unknown));
    assert_eq!(done(parse("tt")), Some(Cmd::Track('t')));
    assert!(matches!(parse("e"), Parse::Pending));
    assert!(matches!(parse("e0"), Parse::Unknown));
}
