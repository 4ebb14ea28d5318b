//! Hands: each player's ordered cables, paired position by position with
//! what the other players can see of them.

use rand::seq::SliceRandom;
use std::collections::{HashMap, HashSet};
use vstd::arithmetic::div_mod::lemma_fundamental_div_mod;
use vstd::prelude::*;

use crate::error::GameError;

verus! {

broadcast use vstd::std_specs::hash::group_hash_axioms;

/// What the other players know of a cable. It only ever moves forward:
/// Hidden, then Clue, then Revealed.
#[derive(Clone, Copy, Debug, PartialEq, Eq, Structural)]
pub enum CableStatus {
    Hidden,
    Clue,
    Revealed,
}

/// How far a status has gone: Hidden 0, Clue 1, Revealed 2.
pub open spec fn rank(s: CableStatus) -> int {
    match s {
        CableStatus::Hidden => 0,
        CableStatus::Clue => 1,
        CableStatus::Revealed => 2,
    }
}

/// Whether the other players see the value and colour of a cable with
/// this status: all but hidden ones.
pub fn is_visible(status: CableStatus) -> (r: bool)
    ensures
        r == (status != CableStatus::Hidden),
{
    !matches!(status, CableStatus::Hidden)
}

/// One player's cables in the order the player holds them, and the status
/// of each, position by position.
#[derive(Clone, Debug)]
pub struct Hand {
    pub cables: Vec<u32>,
    pub status: Vec<CableStatus>,
}

impl Hand {
    /// Every cable has a status.
    pub open spec fn wf(&self) -> bool {
        self.cables@.len() == self.status@.len()
    }

    /// A hand whose cables are all hidden.
    pub fn new(cables: Vec<u32>) -> (h: Hand)
        ensures
            h.wf(),
            h.cables@ == cables@,
            forall|k: int| 0 <= k < h.status@.len() ==> h.status@[k] == CableStatus::Hidden,
    {
        let status = all_hidden(cables.len());
        Hand { cables, status }
    }

    /// The id of the cable at `position`.
    pub fn cable_at(&self, position: usize) -> (r: Result<u32, GameError>)
        ensures
            position < self.cables@.len() ==> r == Ok::<u32, GameError>(self.cables@[position as int]),
            position >= self.cables@.len() ==> r == Err::<u32, GameError>(GameError::OutOfRange),
    {
        if position < self.cables.len() {
            Ok(self.cables[position])
        } else {
            Err(GameError::OutOfRange)
        }
    }

    /// The status of the cable at `position`.
    pub fn status_of(&self, position: usize) -> (r: Result<CableStatus, GameError>)
        ensures
            position < self.status@.len() ==> r == Ok::<CableStatus, GameError>(self.status@[position as int]),
            position >= self.status@.len() ==> r == Err::<CableStatus, GameError>(GameError::OutOfRange),
    {
        if position < self.status.len() {
            Ok(self.status[position])
        } else {
            Err(GameError::OutOfRange)
        }
    }
}

fn all_hidden(n: usize) -> (v: Vec<CableStatus>)
    ensures
        v@.len() == n,
        forall|k: int| 0 <= k < n ==> v@[k] == CableStatus::Hidden,
{
    let mut v: Vec<CableStatus> = Vec::new();
    let mut i: usize = 0;
    while i < n
        invariant
            i <= n,
            v@.len() == i,
            forall|k: int| 0 <= k < i ==> v@[k] == CableStatus::Hidden,
        decreases n - i,
    {
        v.push(CableStatus::Hidden);
        i = i + 1;
    }
    v
}

/// Every hand of the sequence is well formed.
pub open spec fn all_wf(hands: Seq<Hand>) -> bool {
    forall|h: int| 0 <= h < hands.len() ==> #[trigger] hands[h].wf()
}

/// Cables of each hand.
pub open spec fn cables_of(hands: Seq<Hand>) -> Seq<Seq<u32>> {
    hands.map_values(|h: Hand| h.cables@)
}

/// Statuses of each hand.
pub open spec fn statuses_of(hands: Seq<Hand>) -> Seq<Seq<CableStatus>> {
    hands.map_values(|h: Hand| h.status@)
}

/// A copy of the hand's cables.
pub fn get_cables(hand: &Hand) -> (c: Vec<u32>)
    ensures
        c@ == hand.cables@,
{
    hand.cables.clone()
}

/// A copy of the hand's statuses.
pub fn get_status(hand: &Hand) -> (s: Vec<CableStatus>)
    ensures
        s@ == hand.status@,
{
    hand.status.clone()
}

fn copy_hand(hand: &Hand) -> (c: Hand)
    ensures
        c.cables@ == hand.cables@,
        c.status@ == hand.status@,
{
    Hand { cables: hand.cables.clone(), status: hand.status.clone() }
}

/// Wraps the dealt and ordered cables of each player into a hand whose
/// cables are all hidden.
pub fn init_hands(sorted_cable_distribution: Vec<Vec<u32>>) -> (hands: Vec<Hand>)
    ensures
        hands@.len() == sorted_cable_distribution@.len(),
        all_wf(hands@),
        forall|h: int|
            0 <= h < hands@.len() ==> #[trigger] hands@[h].cables@
                == sorted_cable_distribution@[h]@,
        forall|h: int, k: int|
            0 <= h < hands@.len() && 0 <= k < hands@[h].status@.len() ==> #[trigger] hands@[h].status@[k]
                == CableStatus::Hidden,
{
    let mut hands: Vec<Hand> = Vec::new();
    let mut i: usize = 0;
    while i < sorted_cable_distribution.len()
        invariant
            i <= sorted_cable_distribution@.len(),
            hands@.len() == i,
            all_wf(hands@),
            forall|h: int| 0 <= h < i ==> #[trigger] hands@[h].cables@ == sorted_cable_distribution@[h]@,
            forall|h: int, k: int|
                0 <= h < i && 0 <= k < hands@[h].status@.len() ==> #[trigger] hands@[h].status@[k]
                    == CableStatus::Hidden,
        decreases sorted_cable_distribution@.len() - i,
    {
        let hand = Hand::new(sorted_cable_distribution[i].clone());
        hands.push(hand);
        i = i + 1;
    }
    hands
}

/// The hands other than hand `p`.
pub open spec fn others(hands: Seq<Hand>, p: int) -> Seq<Hand> {
    if 0 <= p < hands.len() {
        hands.remove(p)
    } else {
        hands
    }
}

/// Copies of every hand but the player's own, in seating order.
pub fn get_teammate_hands(player_number: u32, hands: &Vec<Hand>) -> (mates: Vec<Hand>)
    ensures
        cables_of(mates@) == cables_of(others(hands@, player_number as int)),
        statuses_of(mates@) == statuses_of(others(hands@, player_number as int)),
{
    let ghost p = player_number as int;
    let mut mates: Vec<Hand> = Vec::new();
    let mut i: usize = 0;
    while i < hands.len()
        invariant
            i <= hands@.len(),
            p == player_number,
            mates@.len() == if p < i { i - 1 } else { i as int },
            forall|k: int|
                #![trigger mates@[k]]
                0 <= k < mates@.len() ==> {
                    let src = if k < p { k } else { k + 1 };
                    &&& mates@[k].cables@ == hands@[src].cables@
                    &&& mates@[k].status@ == hands@[src].status@
                },
        decreases hands@.len() - i,
    {
        if i != player_number as usize {
            let hand = copy_hand(&hands[i]);
            mates.push(hand);
        }
        i = i + 1;
    }
    proof {
        let target = others(hands@, p);
        if 0 <= p < hands@.len() {
            hands@.remove_ensures(p);
        }
        assert(cables_of(mates@) =~= cables_of(target));
        assert(statuses_of(mates@) =~= statuses_of(target));
    }
    mates
}

/// `k` is the first position of `cables` that holds `id`.
pub open spec fn first_at(cables: Seq<u32>, id: u32, k: int) -> bool {
    &&& 0 <= k < cables.len()
    &&& cables[k] == id
    &&& forall|j: int| 0 <= j < k ==> cables[j] != id
}

/// Statuses of `hand` once the first position that holds `id` has taken
/// the status `s`.
pub open spec fn status_set(hand: Hand, id: u32, s: CableStatus) -> Seq<CableStatus> {
    Seq::new(
        hand.status@.len(),
        |k: int|
            if first_at(hand.cables@, id, k) {
                s
            } else {
                hand.status@[k]
            },
    )
}

/// `after` is `before` once every hand that holds `id` has given it the
/// status `s`; cables stay where they are.
pub open spec fn set_status_post(before: Seq<Hand>, after: Seq<Hand>, id: u32, s: CableStatus) -> bool {
    &&& after.len() == before.len()
    &&& all_wf(after)
    &&& forall|h: int|
        0 <= h < after.len() ==> (#[trigger] after[h]).cables@ == before[h].cables@ && after[h].status@
            == status_set(before[h], id, s)
}

fn position_of(cables: &Vec<u32>, id: u32) -> (r: Option<usize>)
    ensures
        match r {
            Some(k) => first_at(cables@, id, k as int),
            None => !cables@.contains(id),
        },
{
    let mut k: usize = 0;
    while k < cables.len()
        invariant
            k <= cables@.len(),
            forall|j: int| 0 <= j < k ==> cables@[j] != id,
        decreases cables@.len() - k,
    {
        if cables[k] == id {
            return Some(k);
        }
        k = k + 1;
    }
    None
}

/// Gives the cable `cable_id` the status `new_status` wherever a hand holds
/// it. Nothing changes when no hand holds it.
pub fn change_cable_status(cable_id: u32, hands: &mut Vec<Hand>, new_status: CableStatus)
    requires
        all_wf(old(hands)@),
    ensures
        set_status_post(old(hands)@, final(hands)@, cable_id, new_status),
{
    let ghost before = hands@;
    let mut h: usize = 0;
    while h < hands.len()
        invariant
            h <= hands@.len(),
            hands@.len() == before.len(),
            all_wf(before),
            all_wf(hands@),
            forall|j: int| 0 <= j < hands@.len() ==> #[trigger] hands@[j].cables@ == before[j].cables@,
            forall|j: int| 0 <= j < h ==> #[trigger] hands@[j].status@ == status_set(before[j], cable_id, new_status),
            forall|j: int| h <= j < hands@.len() ==> #[trigger] hands@[j].status@ == before[j].status@,
        decreases hands@.len() - h,
    {
        assert(hands@[h as int].wf());
        match position_of(&hands[h].cables, cable_id) {
            Some(p) => {
                hands[h].status[p] = new_status;
            },
            None => {},
        }
        assert(hands@[h as int].status@ =~= status_set(before[h as int], cable_id, new_status));
        h = h + 1;
    }
}

/// No cable id appears twice, within a hand or across hands.
pub open spec fn distinct_cables(hands: Seq<Hand>) -> bool {
    forall|h1: int, k1: int, h2: int, k2: int|
        0 <= h1 < hands.len() && 0 <= h2 < hands.len() && 0 <= k1 < hands[h1].cables@.len() && 0
            <= k2 < hands[h2].cables@.len() && #[trigger] hands[h1].cables@[k1]
            == #[trigger] hands[h2].cables@[k2] ==> h1 == h2 && k1 == k2
}

/// When no cable is held twice, giving `id` a status changes the position
/// that holds it and no other; when no hand holds it, nothing changes.
pub proof fn lemma_set_status_one_position(
    before: Seq<Hand>,
    after: Seq<Hand>,
    id: u32,
    s: CableStatus,
)
    requires
        all_wf(before),
        distinct_cables(before),
        set_status_post(before, after, id, s),
    ensures
        forall|h: int, k: int|
            0 <= h < before.len() && 0 <= k < before[h].cables@.len() ==> #[trigger] after[h].status@[k]
                == if before[h].cables@[k] == id {
                s
            } else {
                before[h].status@[k]
            },
        (forall|h: int| 0 <= h < before.len() ==> !(#[trigger] before[h].cables@).contains(id))
            ==> statuses_of(after) == statuses_of(before),
{
    assert forall|h: int, k: int|
        0 <= h < before.len() && 0 <= k < before[h].cables@.len() implies #[trigger] after[h].status@[k]
            == if before[h].cables@[k] == id {
            s
        } else {
            before[h].status@[k]
        } by {
        assert(before[h].wf());
        assert(after[h].status@ == status_set(before[h], id, s));
        if before[h].cables@[k] == id {
            assert forall|j: int| 0 <= j < k implies before[h].cables@[j] != id by {
                if before[h].cables@[j] == id {
                    assert(before[h].cables@[j] == before[h].cables@[k]);
                }
            }
        }
    }
    if forall|h: int| 0 <= h < before.len() ==> !(#[trigger] before[h].cables@).contains(id) {
        assert forall|h: int| 0 <= h < before.len() implies after[h].status@ == before[h].status@ by {
            assert(after[h].status@ == status_set(before[h], id, s));
            assert forall|k: int| 0 <= k < before[h].status@.len() implies !first_at(before[h].cables@, id, k) by {
                if first_at(before[h].cables@, id, k) {
                    assert(before[h].cables@.contains(id));
                }
            }
            assert(after[h].status@ =~= before[h].status@);
        }
        assert(statuses_of(after) =~= statuses_of(before));
    }
}

/// The ids of a set, each once, in the set's own order.
fn ids_of_set(set: &HashSet<u32>) -> (ids: Vec<u32>)
    ensures
        ids@.no_duplicates(),
        ids@.to_set() == set@,
{
    let mut ids: Vec<u32> = Vec::new();
    for id in it: set.iter()
        invariant
            it.seq().no_duplicates(),
            it.seq().unref().to_set() == set@,
            ids@ == it.seq().take(it.index()).unref(),
            it.index() == it.seq().len() ==> ids@.to_set() == set@,
    {
        ids.push(*id);
        assert(ids@ =~= it.seq().take(it.index() + 1).unref());
        assert(it.index() + 1 == it.seq().len() ==> it.seq().take(it.index() + 1) =~= it.seq());
        assert(it.index() + 1 == it.seq().len() ==> ids@ =~= it.seq().unref());
    }
    proof {
        if set@.len() == 0 {
            assert(ids@.to_set() =~= set@);
        }
    }
    ids
}

/// Relies on rand's `SliceRandom::shuffle`: the items come back in a random
/// order, none added and none lost.
#[verifier::external_body]
fn shuffle_ids(v: &mut Vec<u32>)
    ensures
        final(v)@.to_multiset() == old(v)@.to_multiset(),
{
    v.shuffle(&mut rand::rng());
}

/// Size of hand `h` when `total` cables go to `n` players: the first
/// `total % n` hands get one cable more.
pub open spec fn hand_size(total: int, n: int, h: int) -> int {
    total / n + if h < total % n {
        1int
    } else {
        0int
    }
}

/// The cables of each dealt hand.
pub open spec fn dealt(d: Seq<Vec<u32>>) -> Seq<Seq<u32>> {
    d.map_values(|v: Vec<u32>| v@)
}

/// `d` deals the set `s` to `n` players: each id goes to exactly one hand,
/// and the hand sizes are as even as they can be.
pub open spec fn is_deal(d: Seq<Seq<u32>>, s: Set<u32>, n: int) -> bool {
    &&& d.len() == n
    &&& forall|h: int| 0 <= h < n ==> (#[trigger] d[h]).len() == hand_size(s.len() as int, n, h)
    &&& d.flatten().no_duplicates()
    &&& d.flatten().to_set() == s
}

/// Deals the cables of the game to `number_players` players: the cables are
/// put in a random order and cut into consecutive hands whose sizes differ
/// by at most one.
pub fn init_cable_distribution(in_game_cables: &HashSet<u32>, number_players: u32) -> (d: Vec<
    Vec<u32>,
>)
    requires
        number_players > 0,
    ensures
        is_deal(dealt(d@), in_game_cables@, number_players as int),
{
    let mut pool = ids_of_set(in_game_cables);
    let ghost listed = pool@;
    shuffle_ids(&mut pool);
    proof {
        broadcast use vstd::seq_lib::group_to_multiset_ensures;

        listed.lemma_multiset_has_no_duplicates();
        assert forall|x: u32| pool@.to_multiset().contains(x) implies pool@.to_multiset().count(x)
            == 1 by {
            assert(listed.to_multiset().contains(x));
        }
        pool@.lemma_multiset_has_no_duplicates_conv();
        assert forall|x: u32| pool@.contains(x) <==> listed.contains(x) by {
            assert(pool@.contains(x) <==> pool@.to_multiset().count(x) > 0);
            assert(listed.contains(x) <==> listed.to_multiset().count(x) > 0);
        }
        assert(pool@.to_set() =~= listed.to_set());
        pool@.unique_seq_to_set();
    }
    let n = number_players as usize;
    let total = pool.len();
    let q = total / n;
    let rem = total % n;
    proof {
        lemma_fundamental_div_mod(total as int, n as int);
    }
    let mut d: Vec<Vec<u32>> = Vec::new();
    let mut start: usize = 0;
    let mut h: usize = 0;
    while h < n
        invariant
            h <= n,
            n > 0,
            total == pool@.len(),
            q == total / n,
            rem == total % n,
            total == n * q + rem,
            d@.len() == h,
            start == h * q + if h < rem { h as int } else { rem as int },
            start <= total,
            dealt(d@).flatten() == pool@.subrange(0, start as int),
            forall|j: int| 0 <= j < h ==> (#[trigger] d@[j])@.len() == hand_size(total as int, n as int, j),
        decreases n - h,
    {
        assert(h < rem ==> q + 1 <= total) by {
            assert(q <= n * q) by (nonlinear_arith)
                requires n >= 1, q >= 0;
        }
        let size = if h < rem { q + 1 } else { q };
        assert(start + size <= total) by {
            assert((h + 1) * q <= n * q) by (nonlinear_arith)
                requires h + 1 <= n, q >= 0;
            assert((h + 1) * q == h * q + q) by (nonlinear_arith);
        }
        let mut hand: Vec<u32> = Vec::new();
        let mut k: usize = 0;
        while k < size
            invariant
                k <= size,
                start + size <= total,
                total == pool@.len(),
                hand@ == pool@.subrange(start as int, start + k),
            decreases size - k,
        {
            hand.push(pool[start + k]);
            k = k + 1;
            assert(hand@ =~= pool@.subrange(start as int, start + k));
        }
        let ghost prev = d@;
        d.push(hand);
        proof {
            assert(dealt(d@) =~= dealt(prev).push(hand@));
            dealt(prev).lemma_flatten_push(hand@);
            assert(dealt(d@).flatten() =~= pool@.subrange(0, start + size));
            assert((h + 1) * q == h * q + q) by (nonlinear_arith);
        }
        start = start + size;
        h = h + 1;
    }
    proof {
        assert(start == total);
        assert(pool@.subrange(0, start as int) =~= pool@);
        assert(dealt(d@).len() == d@.len());
        assert forall|j: int| 0 <= j < n implies (#[trigger] dealt(d@)[j]).len() == hand_size(
            in_game_cables@.len() as int,
            n as int,
            j,
        ) by {
            assert(dealt(d@)[j] == d@[j]@);
        }
    }
    d
}

/// The key a cable is ordered by: its value, or 0 for an id the catalog
/// lacks.
pub open spec fn sort_key(m: Map<u32, u32>, id: u32) -> u32 {
    if m.contains_key(id) {
        m[id]
    } else {
        0
    }
}

/// The keys of `s` never decrease.
pub open spec fn sorted_by_value(s: Seq<u32>, m: Map<u32, u32>) -> bool {
    forall|i: int, j: int| 0 <= i < j < s.len() ==> sort_key(m, #[trigger] s[i]) <= sort_key(m, #[trigger] s[j])
}

/// `after` is `before` reordered, where `after[i]` stood at `perm[i]` in
/// `before`: keys never decrease, and cables of equal key keep their order.
pub open spec fn stable_sort_by(before: Seq<u32>, after: Seq<u32>, perm: Seq<int>, m: Map<u32, u32>) -> bool {
    &&& after.len() == before.len()
    &&& perm.len() == before.len()
    &&& forall|i: int| 0 <= i < perm.len() ==> 0 <= #[trigger] perm[i] < before.len() && after[i] == before[perm[i]]
    &&& forall|i: int, j: int| 0 <= i < perm.len() && 0 <= j < perm.len() && i != j ==> #[trigger] perm[i] != #[trigger] perm[j]
    &&& sorted_by_value(after, m)
    &&& forall|i: int, j: int|
        0 <= i < j < after.len() && sort_key(m, #[trigger] after[i]) == sort_key(m, #[trigger] after[j]) ==> perm[i] < perm[j]
}

/// `after` is the stable sort of `before` by value.
pub open spec fn is_stable_sort(before: Seq<u32>, after: Seq<u32>, m: Map<u32, u32>) -> bool {
    exists|perm: Seq<int>| stable_sort_by(before, after, perm, m)
}

fn key_of(id: u32, all_cables: &HashMap<u32, u32>) -> (k: u32)
    ensures
        k == sort_key(all_cables@, id),
{
    match all_cables.get(&id) {
        Some(v) => *v,
        None => 0,
    }
}

/// `perm` with the index `i` placed at `pos`.
spec fn inserted_perm(perm: Seq<int>, i: int, pos: int) -> Seq<int> {
    Seq::new(
        (i + 1) as nat,
        |k: int|
            if k < pos {
                perm[k]
            } else if k == pos {
                i
            } else {
                perm[k - 1]
            },
    )
}

/// Inserting item `i` of `cables` right after the sorted items whose key is
/// not greater than its own keeps the sort stable.
proof fn lemma_insert_stable(cables: Seq<u32>, r: Seq<u32>, perm: Seq<int>, m: Map<u32, u32>, i: int, pos: int)
    requires
        0 <= i < cables.len(),
        0 <= pos <= i,
        stable_sort_by(cables.take(i), r, perm, m),
        forall|j: int| 0 <= j < pos ==> sort_key(m, #[trigger] r[j]) <= sort_key(m, cables[i]),
        forall|j: int| pos <= j < i ==> sort_key(m, #[trigger] r[j]) > sort_key(m, cables[i]),
    ensures
        stable_sort_by(cables.take(i + 1), r.insert(pos, cables[i]), inserted_perm(perm, i, pos), m),
{
    let x = cables[i];
    let kx = sort_key(m, x);
    let nr = r.insert(pos, x);
    let np = inserted_perm(perm, i, pos);
    r.insert_ensures(pos, x);
    let before = cables.take(i + 1);
    assert(cables.take(i) =~= before.take(i));
    assert forall|k: int| 0 <= k < np.len() implies 0 <= #[trigger] np[k] < before.len() && nr[k]
        == before[np[k]] by {
        if k < pos {
            assert(nr[k] == r[k]);
        } else if k > pos {
            assert(nr[k] == r[k - 1]);
        }
    }
    assert forall|a: int, b: int|
        0 <= a < np.len() && 0 <= b < np.len() && a != b implies #[trigger] np[a] != #[trigger] np[b] by {
        if a != pos && b != pos {
            let a0 = if a < pos { a } else { a - 1 };
            let b0 = if b < pos { b } else { b - 1 };
            assert(perm[a0] != perm[b0]);
        } else if a == pos {
            let b0 = if b < pos { b } else { b - 1 };
            assert(perm[b0] < i);
        } else {
            let a0 = if a < pos { a } else { a - 1 };
            assert(perm[a0] < i);
        }
    }
    assert forall|a: int, b: int| 0 <= a < b < nr.len() implies sort_key(m, #[trigger] nr[a]) <= sort_key(
        m,
        #[trigger] nr[b],
    ) by {
        if b < pos {
            assert(nr[a] == r[a] && nr[b] == r[b]);
        } else if a > pos {
            assert(nr[a] == r[a - 1] && nr[b] == r[b - 1]);
        } else if a == pos {
            assert(nr[b] == r[b - 1]);
        } else if b == pos {
            assert(nr[a] == r[a]);
        } else {
            assert(nr[a] == r[a] && nr[b] == r[b - 1]);
        }
    }
    assert forall|a: int, b: int|
        0 <= a < b < nr.len() && sort_key(m, #[trigger] nr[a]) == sort_key(m, #[trigger] nr[b]) implies np[a]
        < np[b] by {
        if b < pos {
            assert(nr[a] == r[a] && nr[b] == r[b]);
        } else if a > pos {
            assert(nr[a] == r[a - 1] && nr[b] == r[b - 1]);
        } else if a == pos {
            assert(nr[b] == r[b - 1]);
        } else if b == pos {
            assert(perm[a] < i);
        } else {
            assert(nr[a] == r[a] && nr[b] == r[b - 1]);
        }
    }
}

/// Stable insertion sort of one hand by value.
fn sort_hand(cables: &Vec<u32>, all_cables: &HashMap<u32, u32>) -> (r: Vec<u32>)
    ensures
        is_stable_sort(cables@, r@, all_cables@),
{
    let ghost m = all_cables@;
    let mut r: Vec<u32> = Vec::new();
    let ghost mut perm: Seq<int> = Seq::empty();
    let mut i: usize = 0;
    while i < cables.len()
        invariant
            m == all_cables@,
            i <= cables@.len(),
            stable_sort_by(cables@.take(i as int), r@, perm, m),
        decreases cables@.len() - i,
    {
        let x = cables[i];
        let kx = key_of(x, all_cables);
        let mut pos: usize = i;
        while pos > 0 && key_of(r[pos - 1], all_cables) > kx
            invariant
                m == all_cables@,
                pos <= i,
                r@.len() == i,
                kx == sort_key(m, x),
                forall|j: int| pos <= j < i ==> sort_key(m, #[trigger] r@[j]) > kx,
            decreases pos,
        {
            pos = pos - 1;
        }
        proof {
            assert forall|j: int| 0 <= j < pos implies sort_key(m, #[trigger] r@[j]) <= kx by {
                assert(sort_key(m, r@[j]) <= sort_key(m, r@[pos - 1]));
            }
            lemma_insert_stable(cables@, r@, perm, m, i as int, pos as int);
            perm = inserted_perm(perm, i as int, pos as int);
        }
        r.insert(pos, x);
        i = i + 1;
    }
    assert(cables@.take(i as int) =~= cables@);
    r
}

/// Orders each hand by cable value, ascending; cables of equal value keep
/// the order in which they were dealt.
pub fn sort_cable_distribution(distributions: &mut Vec<Vec<u32>>, all_cables: &HashMap<u32, u32>)
    ensures
        final(distributions)@.len() == old(distributions)@.len(),
        forall|h: int|
            0 <= h < final(distributions)@.len() ==> (#[trigger] final(distributions)@[h])@.len()
                == old(distributions)@[h]@.len(),
        forall|h: int|
            0 <= h < final(distributions)@.len() ==> is_stable_sort(
                #[trigger] old(distributions)@[h]@,
                final(distributions)@[h]@,
                all_cables@,
            ),
        forall|h: int|
            0 <= h < final(distributions)@.len() ==> sorted_by_value(
                #[trigger] final(distributions)@[h]@,
                all_cables@,
            ),
{
    let ghost before = distributions@;
    let mut h: usize = 0;
    while h < distributions.len()
        invariant
            h <= distributions@.len(),
            distributions@.len() == before.len(),
            forall|j: int| 0 <= j < h ==> is_stable_sort(#[trigger] before[j]@, distributions@[j]@, all_cables@),
            forall|j: int| h <= j < distributions@.len() ==> #[trigger] distributions@[j] == before[j],
        decreases distributions@.len() - h,
    {
        let sorted = sort_hand(&distributions[h], all_cables);
        distributions[h] = sorted;
        h = h + 1;
    }
    assert forall|j: int| 0 <= j < distributions@.len() implies (#[trigger] distributions@[j])@.len()
        == before[j]@.len() by {
        assert(is_stable_sort(before[j]@, distributions@[j]@, all_cables@));
    }
    assert forall|j: int| 0 <= j < distributions@.len() implies sorted_by_value(
        #[trigger] distributions@[j]@,
        all_cables@,
    ) by {
        assert(is_stable_sort(before[j]@, distributions@[j]@, all_cables@));
    }
}

/// An id is in the flattened hands exactly when some hand holds it.
proof fn lemma_flatten_contains(d: Seq<Seq<u32>>, x: u32)
    ensures
        d.flatten().contains(x) <==> exists|h: int| 0 <= h < d.len() && (#[trigger] d[h]).contains(x),
    decreases d.len(),
{
    if d.len() > 0 {
        let rest = d.drop_first();
        lemma_flatten_contains(rest, x);
        let f = d.flatten();
        assert(f == d[0] + rest.flatten());
        if f.contains(x) {
            let i = choose|i: int| 0 <= i < f.len() && f[i] == x;
            if i < d[0].len() {
                assert(d[0][i] == x);
                assert(d[0].contains(x));
            } else {
                assert(rest.flatten()[i - d[0].len()] == x);
                assert(rest.flatten().contains(x));
                let h = choose|h: int| 0 <= h < rest.len() && (#[trigger] rest[h]).contains(x);
                assert(d[h + 1] == rest[h]);
            }
        }
        if exists|h: int| 0 <= h < d.len() && (#[trigger] d[h]).contains(x) {
            let h = choose|h: int| 0 <= h < d.len() && (#[trigger] d[h]).contains(x);
            if h == 0 {
                let i = choose|i: int| 0 <= i < d[0].len() && d[0][i] == x;
                assert(f[i] == x);
            } else {
                assert(rest[h - 1] == d[h]);
                assert(rest.flatten().contains(x));
                let i = choose|i: int| 0 <= i < rest.flatten().len() && rest.flatten()[i] == x;
                assert(f[d[0].len() + i] == x);
            }
        }
    }
}

/// When the flattened hands repeat no id, no two hands share one.
proof fn lemma_flatten_disjoint(d: Seq<Seq<u32>>, h1: int, h2: int, x: u32)
    requires
        d.flatten().no_duplicates(),
        0 <= h1 < h2 < d.len(),
        d[h1].contains(x),
    ensures
        !d[h2].contains(x),
    decreases d.len(),
{
    let rest = d.drop_first();
    let f = d.flatten();
    assert(f == d[0] + rest.flatten());
    assert(rest.flatten().no_duplicates()) by {
        assert forall|i: int, j: int|
            0 <= i < rest.flatten().len() && 0 <= j < rest.flatten().len() && i != j implies rest.flatten()[i]
            != rest.flatten()[j] by {
            assert(f[d[0].len() + i] == rest.flatten()[i]);
            assert(f[d[0].len() + j] == rest.flatten()[j]);
        }
    }
    if h1 == 0 {
        if d[h2].contains(x) {
            assert(rest[h2 - 1] == d[h2]);
            lemma_flatten_contains(rest, x);
            let j = choose|j: int| 0 <= j < rest.flatten().len() && rest.flatten()[j] == x;
            let i = choose|i: int| 0 <= i < d[0].len() && d[0][i] == x;
            assert(f[i] == x);
            assert(f[d[0].len() + j] == x);
        }
    } else {
        assert(rest[h1 - 1] == d[h1]);
        assert(rest[h2 - 1] == d[h2]);
        lemma_flatten_disjoint(rest, h1 - 1, h2 - 1, x);
    }
}

/// A deal hands out the whole set: every id of the set is in one hand and
/// in no other, every id in a hand comes from the set, and two hands differ
/// in size by at most one.
pub proof fn lemma_deal_partitions(d: Seq<Seq<u32>>, s: Set<u32>, n: int)
    requires
        n > 0,
        is_deal(d, s, n),
    ensures
        forall|h: int, x: u32| 0 <= h < n && #[trigger] d[h].contains(x) ==> s.contains(x),
        forall|x: u32| #[trigger] s.contains(x) ==> exists|h: int| 0 <= h < n && (#[trigger] d[h]).contains(x),
        forall|h1: int, h2: int, x: u32|
            0 <= h1 < n && 0 <= h2 < n && h1 != h2 && #[trigger] d[h1].contains(x) ==> !#[trigger] d[h2].contains(x),
        forall|h1: int, h2: int|
            0 <= h1 < n && 0 <= h2 < n ==> #[trigger] d[h1].len() <= #[trigger] d[h2].len() + 1,
{
    assert forall|h: int, x: u32| 0 <= h < n && #[trigger] d[h].contains(x) implies s.contains(x) by {
        lemma_flatten_contains(d, x);
    }
    assert forall|x: u32| #[trigger] s.contains(x) implies exists|h: int| 0 <= h < n && (#[trigger] d[h]).contains(x) by {
        lemma_flatten_contains(d, x);
    }
    assert forall|h1: int, h2: int, x: u32|
        0 <= h1 < n && 0 <= h2 < n && h1 != h2 && #[trigger] d[h1].contains(x) implies !#[trigger] d[h2].contains(x) by {
        if h1 < h2 {
            lemma_flatten_disjoint(d, h1, h2, x);
        } else if d[h2].contains(x) {
            lemma_flatten_disjoint(d, h2, h1, x);
        }
    }
}

} // verus!
