//! The text mode of a journey: what a typed line asks of it.
use vstd::prelude::*;
use crate::text::{chars_of, parse_usize, slice, trim, trim_exec, usize_of};

verus! {

/// What a line typed in the text mode of a journey asks.
#[derive(Clone, Copy, Debug, PartialEq, Eq, Structural)]
pub enum JourneyAction {
    /// `q`: the journey ends.
    Quit,
    /// `u`: back one branch.
    Back,
    /// `u` at the seed: there is nothing to go back to.
    AtSeed,
    /// Enter: the machine draws among the branches.
    Draw,
    /// Enter with no branch on offer: nothing to draw.
    Wait,
    /// `b<n>`: branches of n tracks from now on.
    Size(usize),
    /// `b` with no size from 1 to 9.
    SizeBad,
    /// `e` or `<n>e`: n more tracks of the artist.
    Encore(usize),
    /// An encore of no count from 1 to 9.
    EncoreBad,
    /// `<n>`: branch n.
    Take(usize),
    /// Anything else.
    ChoiceBad,
}

/// What a line asks, the journey having `rounds` rounds, `branches`
/// branches on offer and branches of `size` tracks.
pub open spec fn journey_of(line: Seq<char>, rounds: nat, branches: nat, size: nat) -> JourneyAction {
    let t = trim(line);
    if t == seq!['q'] {
        JourneyAction::Quit
    } else if t == seq!['u'] {
        if rounds > 1 { JourneyAction::Back } else { JourneyAction::AtSeed }
    } else if t.len() == 0 {
        if branches > 0 { JourneyAction::Draw } else { JourneyAction::Wait }
    } else if t[0] == 'b' {
        match usize_of(t.drop_first()) {
            Some(n) => if 1 <= n <= 9 { JourneyAction::Size(n as usize) } else { JourneyAction::SizeBad },
            None => JourneyAction::SizeBad,
        }
    } else if t.last() == 'e' {
        let count: nat = if t.len() == 1 {
            size
        } else {
            match usize_of(t.drop_last()) {
                Some(n) => n,
                None => 0,
            }
        };
        if count == 0 || count > 9 { JourneyAction::EncoreBad } else { JourneyAction::Encore(count as usize) }
    } else {
        match usize_of(t) {
            Some(n) => if 1 <= n <= branches { JourneyAction::Take(n as usize) } else { JourneyAction::ChoiceBad },
            None => JourneyAction::ChoiceBad,
        }
    }
}

/// What a line typed in the text mode of a journey asks.
pub fn journey_step(line: &str, rounds: usize, branches: usize, size: usize) -> (r: JourneyAction)
    ensures
        r == journey_of(line@, rounds as nat, branches as nat, size as nat),
{
    let t = trim_exec(&chars_of(line));
    let n = t.len();
    if n == 1 && t[0] == 'q' {
        assert(t@ =~= seq!['q']);
        return JourneyAction::Quit;
    }
    if n == 1 && t[0] == 'u' {
        assert(t@ =~= seq!['u']);
        return if rounds > 1 { JourneyAction::Back } else { JourneyAction::AtSeed };
    }
    assert(t@ != seq!['q'] && t@ != seq!['u']);
    if n == 0 {
        return if branches > 0 { JourneyAction::Draw } else { JourneyAction::Wait };
    }
    if t[0] == 'b' {
        let rest = slice(&t, 1, n);
        assert(rest@ =~= t@.drop_first());
        return match parse_usize(&rest) {
            Some(k) => if 1 <= k && k <= 9 { JourneyAction::Size(k) } else { JourneyAction::SizeBad },
            None => JourneyAction::SizeBad,
        };
    }
    if t[n - 1] == 'e' {
        let count: usize = if n == 1 {
            size
        } else {
            let head = slice(&t, 0, n - 1);
            assert(head@ =~= t@.drop_last());
            match parse_usize(&head) {
                Some(k) => k,
                None => 0,
            }
        };
        return if count == 0 || count > 9 { JourneyAction::EncoreBad } else { JourneyAction::Encore(count) };
    }
    match parse_usize(&t) {
        Some(k) => if 1 <= k && k <= branches { JourneyAction::Take(k) } else { JourneyAction::ChoiceBad },
        None => JourneyAction::ChoiceBad,
    }
}

} // verus!
