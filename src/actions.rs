//! The two player actions: a random hint and a duo cut. Each one checks its
//! inputs before it writes anything, and neither lets a status move back.

use rand::seq::IndexedRandom;
use std::collections::HashMap;
use vstd::prelude::*;

use crate::error::GameError;
use crate::player::{all_wf, rank, CableStatus, Hand};

verus! {

broadcast use vstd::std_specs::hash::group_hash_axioms;

/// The later of two statuses.
pub open spec fn advance(s: CableStatus, to: CableStatus) -> CableStatus {
    if rank(to) > rank(s) {
        to
    } else {
        s
    }
}

/// From `before` to `after` the cables stay where they are and no status
/// moves back.
pub open spec fn no_regress(before: Seq<Hand>, after: Seq<Hand>) -> bool {
    &&& after.len() == before.len()
    &&& all_wf(before) ==> all_wf(after)
    &&& forall|h: int|
        0 <= h < before.len() ==> (#[trigger] after[h]).cables@ == before[h].cables@
            && after[h].status@.len() == before[h].status@.len()
    &&& forall|h: int, k: int|
        0 <= h < before.len() && 0 <= k < before[h].status@.len() ==> rank(before[h].status@[k])
            <= rank(#[trigger] after[h].status@[k])
}

proof fn lemma_no_regress_trans(a: Seq<Hand>, b: Seq<Hand>, c: Seq<Hand>)
    requires
        no_regress(a, b),
        no_regress(b, c),
    ensures
        no_regress(a, c),
{
    assert forall|h: int| 0 <= h < a.len() implies (#[trigger] c[h]).cables@ == a[h].cables@
        && c[h].status@.len() == a[h].status@.len() by {
        assert(b[h].cables@ == a[h].cables@);
        assert(b[h].status@.len() == a[h].status@.len());
    }
    assert forall|h: int, k: int|
        0 <= h < a.len() && 0 <= k < a[h].status@.len() implies rank(a[h].status@[k]) <= rank(
            #[trigger] c[h].status@[k],
        ) by {
        let sb = b[h].status@[k];
        let sc = c[h].status@[k];
        assert(rank(a[h].status@[k]) <= rank(sb));
        assert(b[h].status@.len() == a[h].status@.len());
        assert(rank(sb) <= rank(sc));
    }
}

/// Along any run of states in which no step lets a status move back, no
/// status has moved back from the first state to the last one.
pub proof fn lemma_no_regress_along(states: Seq<Seq<Hand>>)
    requires
        states.len() > 0,
        forall|i: int| 0 <= i < states.len() - 1 ==> no_regress(#[trigger] states[i], states[i + 1]),
    ensures
        no_regress(states[0], states.last()),
    decreases states.len(),
{
    if states.len() > 1 {
        let prefix = states.drop_last();
        assert forall|i: int| 0 <= i < prefix.len() - 1 implies no_regress(
            #[trigger] prefix[i],
            prefix[i + 1],
        ) by {
            assert(prefix[i] == states[i] && prefix[i + 1] == states[i + 1]);
        }
        lemma_no_regress_along(prefix);
        assert(no_regress(states[states.len() - 2], states[states.len() - 1]));
        lemma_no_regress_trans(states[0], prefix.last(), states.last());
    }
}

/// The hand holds a cable that is not revealed yet.
pub open spec fn has_unrevealed(hand: Hand) -> bool {
    exists|k: int| 0 <= k < hand.status@.len() && hand.status@[k] != CableStatus::Revealed
}

/// `after` is `before` with one unrevealed cable turned into a clue, or
/// unchanged when every cable is revealed.
pub open spec fn hinted(before: Hand, after: Hand) -> bool {
    &&& after.cables@ == before.cables@
    &&& if has_unrevealed(before) {
        exists|k: int|
            0 <= k < before.status@.len() && before.status@[k] != CableStatus::Revealed
                && after.status@ == before.status@.update(k, CableStatus::Clue)
    } else {
        after.status@ == before.status@
    }
}

/// Relies on rand's `IndexedRandom::choose`: `None` for an empty slice,
/// else one of its items.
#[verifier::external_body]
fn choose_position(positions: &Vec<usize>) -> (r: Option<usize>)
    ensures
        r is None <==> positions@.len() == 0,
        r matches Some(p) ==> positions@.contains(p),
{
    positions.choose(&mut rand::rng()).copied()
}

/// Positions of the hand whose cable is not revealed.
fn unrevealed_positions(hand: &Hand) -> (r: Vec<usize>)
    ensures
        forall|p: usize| r@.contains(p) ==> p < hand.status@.len() && hand.status@[p as int]
            != CableStatus::Revealed,
        has_unrevealed(*hand) ==> r@.len() > 0,
{
    let mut r: Vec<usize> = Vec::new();
    let mut k: usize = 0;
    while k < hand.status.len()
        invariant
            k <= hand.status@.len(),
            forall|i: int|
                0 <= i < r@.len() ==> #[trigger] r@[i] < k && hand.status@[r@[i] as int]
                    != CableStatus::Revealed,
            (exists|j: int| 0 <= j < k && hand.status@[j] != CableStatus::Revealed) ==> r@.len() > 0,
        decreases hand.status@.len() - k,
    {
        if hand.status[k] != CableStatus::Revealed {
            r.push(k);
        }
        k = k + 1;
    }
    assert forall|p: usize| r@.contains(p) implies p < hand.status@.len() && hand.status@[p as int]
        != CableStatus::Revealed by {
        let i = choose|i: int| 0 <= i < r@.len() && r@[i] == p;
    }
    r
}

/// Gives every hand one clue: in each hand a cable that is not revealed
/// yet, drawn at random, becomes a clue. A hand whose cables are all
/// revealed stays as it is.
pub fn hint_random(hands: &mut Vec<Hand>)
    requires
        all_wf(old(hands)@),
    ensures
        no_regress(old(hands)@, final(hands)@),
        forall|h: int| 0 <= h < old(hands)@.len() ==> hinted(#[trigger] old(hands)@[h], final(hands)@[h]),
{
    let ghost before = hands@;
    let mut h: usize = 0;
    while h < hands.len()
        invariant
            h <= hands@.len(),
            hands@.len() == before.len(),
            all_wf(before),
            forall|j: int| 0 <= j < h ==> hinted(#[trigger] before[j], hands@[j]),
            forall|j: int| h <= j < hands@.len() ==> #[trigger] hands@[j] == before[j],
        decreases hands@.len() - h,
    {
        assert(before[h as int].wf());
        let positions = unrevealed_positions(&hands[h]);
        match choose_position(&positions) {
            Some(p) => {
                hands[h].status[p] = CableStatus::Clue;
            },
            None => {},
        }
        h = h + 1;
    }
    proof {
        assert forall|j: int, k: int|
            0 <= j < before.len() && 0 <= k < before[j].status@.len() implies hands@[j].status@.len()
                == before[j].status@.len() && rank(before[j].status@[k]) <= rank(
                #[trigger] hands@[j].status@[k],
            ) by {
            assert(hinted(before[j], hands@[j]));
            if has_unrevealed(before[j]) {
                let p = choose|p: int|
                    0 <= p < before[j].status@.len() && before[j].status@[p] != CableStatus::Revealed
                        && hands@[j].status@ == before[j].status@.update(p, CableStatus::Clue);
            }
        }
        assert(all_wf(hands@)) by {
            assert forall|j: int| 0 <= j < hands@.len() implies #[trigger] hands@[j].wf() by {
                assert(before[j].wf());
                assert(hinted(before[j], hands@[j]));
                if has_unrevealed(before[j]) {
                    let p = choose|p: int|
                        0 <= p < before[j].status@.len() && before[j].status@[p]
                            != CableStatus::Revealed && hands@[j].status@ == before[j].status@.update(
                            p,
                            CableStatus::Clue,
                        );
                }
            }
        }
    }
}

/// The positions of a duo cut lie within their hands.
pub open spec fn duo_cut_in_range(hands: Seq<Hand>, player: int, teammate: int, position_self: int, position_teammate: int) -> bool {
    &&& 0 <= player < hands.len()
    &&& 0 <= teammate < hands.len()
    &&& 0 <= position_self < hands[player].cables@.len()
    &&& 0 <= position_teammate < hands[teammate].cables@.len()
}

/// Status of position `k` of hand `h` after a duo cut between `(player,
/// position_self)` and `(teammate, position_teammate)`: on a match both
/// cables are revealed; otherwise the teammate's cable becomes a clue, if
/// it is not revealed already.
pub open spec fn duo_cut_status(
    hands: Seq<Hand>,
    player: int,
    teammate: int,
    position_self: int,
    position_teammate: int,
    matched: bool,
    h: int,
    k: int,
) -> CableStatus {
    let s = hands[h].status@[k];
    if matched {
        if (h == player && k == position_self) || (h == teammate && k == position_teammate) {
            CableStatus::Revealed
        } else {
            s
        }
    } else if h == teammate && k == position_teammate {
        advance(s, CableStatus::Clue)
    } else {
        s
    }
}

/// `player` compares the value of the own cable at `position_self` with the
/// value of `teammate`'s cable at `position_teammate`. Equal values reveal
/// both cables and give `Ok(true)`; different values turn the teammate's
/// cable into a clue (a revealed one stays revealed) and give `Ok(false)`.
/// A player or position out of range gives `OutOfRange`, an id missing from
/// the catalog `NotFound`; either way nothing changes.
pub fn duo_cut(
    player: u32,
    teammate: u32,
    position_self: u32,
    position_teammate: u32,
    hands: &mut Vec<Hand>,
    all_cables: &HashMap<u32, u32>,
) -> (r: Result<bool, GameError>)
    requires
        all_wf(old(hands)@),
    ensures
        !duo_cut_in_range(old(hands)@, player as int, teammate as int, position_self as int, position_teammate as int)
            ==> r == Err::<bool, GameError>(GameError::OutOfRange),
        duo_cut_in_range(old(hands)@, player as int, teammate as int, position_self as int, position_teammate as int)
            ==> ({
            let a = old(hands)@[player as int].cables@[position_self as int];
            let b = old(hands)@[teammate as int].cables@[position_teammate as int];
            if !all_cables@.contains_key(a) || !all_cables@.contains_key(b) {
                r == Err::<bool, GameError>(GameError::NotFound)
            } else {
                r == Ok::<bool, GameError>(all_cables@[a] == all_cables@[b])
            }
        }),
        r is Err ==> final(hands)@ == old(hands)@,
        no_regress(old(hands)@, final(hands)@),
        r matches Ok(matched) ==> forall|h: int, k: int|
            0 <= h < old(hands)@.len() && 0 <= k < old(hands)@[h].status@.len() ==> #[trigger] final(hands)@[h].status@[k]
                == duo_cut_status(
                old(hands)@,
                player as int,
                teammate as int,
                position_self as int,
                position_teammate as int,
                matched,
                h,
                k,
            ),
{
    if player as usize >= hands.len() || teammate as usize >= hands.len() {
        return Err(GameError::OutOfRange);
    }
    let p = player as usize;
    let t = teammate as usize;
    let ps = position_self as usize;
    let pt = position_teammate as usize;
    if ps >= hands[p].cables.len() || pt >= hands[t].cables.len() {
        return Err(GameError::OutOfRange);
    }
    let a = hands[p].cables[ps];
    let b = hands[t].cables[pt];
    let value_self = match all_cables.get(&a) {
        Some(v) => *v,
        None => {
            return Err(GameError::NotFound);
        },
    };
    let value_teammate = match all_cables.get(&b) {
        Some(v) => *v,
        None => {
            return Err(GameError::NotFound);
        },
    };
    let ghost before = hands@;
    assert(before[p as int].wf() && before[t as int].wf());
    let matched = value_self == value_teammate;
    if matched {
        hands[p].status[ps] = CableStatus::Revealed;
        hands[t].status[pt] = CableStatus::Revealed;
    } else if hands[t].status[pt] != CableStatus::Revealed {
        hands[t].status[pt] = CableStatus::Clue;
    }
    proof {
        assert forall|h: int| 0 <= h < hands@.len() implies #[trigger] hands@[h].wf() by {
            assert(before[h].wf());
        }
    }
    Ok(matched)
}

} // verus!
