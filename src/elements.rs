//! Cables and the catalog: the fixed mapping from cable id to cable value,
//! built once at setup, and the choice of the cables that take part in a game.
//!
//! A value is a fixed-point integer with one decimal digit (4.5 is 45). Its
//! last digit gives the colour: 0 for blue, 5 for red, 1 for yellow.

use rand::seq::IteratorRandom;
use std::collections::{HashMap, HashSet};
use vstd::prelude::*;

verus! {

broadcast use vstd::std_specs::hash::group_hash_axioms;

pub open spec fn is_blue(v: u32) -> bool {
    v % 10 == 0
}

pub open spec fn is_red(v: u32) -> bool {
    v % 10 == 5
}

pub open spec fn is_yellow(v: u32) -> bool {
    v % 10 == 1
}

/// Number of cables in a catalog: four per blue value, then the red and the
/// yellow cables.
pub open spec fn catalog_size(blue_max: int, red_show: int, yellow_show: int) -> int {
    4 * blue_max + red_show + yellow_show
}

/// Value of the cable created at position `k` of the catalog: first the blue
/// values 10, 20, ... four times each, then the red values 15, 25, ..., then
/// the yellow values 11, 21, ...
pub open spec fn catalog_value(k: int, blue_max: int, red_show: int) -> int {
    if k < 4 * blue_max {
        10 * (k / 4 + 1)
    } else if k < 4 * blue_max + red_show {
        10 * (k - 4 * blue_max + 1) + 5
    } else {
        10 * (k - 4 * blue_max - red_show + 1) + 1
    }
}

/// The first `n` cables of a catalog whose ids start at `first`.
pub open spec fn catalog_upto(first: int, n: int, blue_max: int, red_show: int) -> Map<u32, u32> {
    Map::new(
        |id: u32| first <= id < first + n,
        |id: u32| catalog_value(id - first, blue_max, red_show) as u32,
    )
}

/// The whole catalog for a configuration, with ids starting at `first`.
pub open spec fn catalog_map(first: int, blue_max: int, red_show: int, yellow_show: int) -> Map<
    u32,
    u32,
> {
    catalog_upto(first, catalog_size(blue_max, red_show, yellow_show), blue_max, red_show)
}

/// The ids `lo`, `lo + 1`, ..., `hi - 1`.
pub open spec fn id_range(lo: int, hi: int) -> Set<u32> {
    Set::new(|id: u32| lo <= id < hi)
}

pub proof fn lemma_id_range_len(lo: int, hi: int)
    requires
        0 <= lo <= hi <= u32::MAX + 1,
    ensures
        id_range(lo, hi).finite(),
        id_range(lo, hi).len() == hi - lo,
    decreases hi - lo,
{
    if hi == lo {
        assert(id_range(lo, hi) =~= Set::empty());
    } else {
        lemma_id_range_len(lo, hi - 1);
        assert(id_range(lo, hi) =~= id_range(lo, hi - 1).insert((hi - 1) as u32));
    }
}

/// Colour of the cable at position `k` of a catalog: blue in the first
/// `4 * blue_max` positions, red in the next `red_show`, yellow after.
proof fn lemma_catalog_value_color(k: int, blue_max: int, red_show: int, yellow_show: int)
    requires
        0 <= k < catalog_size(blue_max, red_show, yellow_show),
        0 <= blue_max,
        0 <= red_show,
        0 <= yellow_show,
        10 * blue_max <= u32::MAX,
        10 * red_show + 5 <= u32::MAX,
        10 * yellow_show + 1 <= u32::MAX,
    ensures
        ({
            let v = catalog_value(k, blue_max, red_show) as u32;
            &&& v == catalog_value(k, blue_max, red_show)
            &&& is_blue(v) <==> k < 4 * blue_max
            &&& is_red(v) <==> 4 * blue_max <= k < 4 * blue_max + red_show
            &&& is_yellow(v) <==> 4 * blue_max + red_show <= k
        }),
{
    if k < 4 * blue_max {
        let x = k / 4 + 1;
        assert(x <= blue_max);
        assert((10 * x) % 10 == 0) by (nonlinear_arith);
    } else if k < 4 * blue_max + red_show {
        let x = k - 4 * blue_max + 1;
        assert((10 * x + 5) % 10 == 5) by (nonlinear_arith)
            requires x >= 0;
    } else {
        let x = k - 4 * blue_max - red_show + 1;
        assert((10 * x + 1) % 10 == 1) by (nonlinear_arith)
            requires x >= 0;
    }
}

/// A catalog holds `4 * blue_max` blue cables, `red_show` red ones and
/// `yellow_show` yellow ones, each under an id of its own.
pub proof fn lemma_catalog_counts(first: int, blue_max: int, red_show: int, yellow_show: int)
    requires
        0 <= first,
        0 <= blue_max,
        0 <= red_show,
        0 <= yellow_show,
        first + catalog_size(blue_max, red_show, yellow_show) <= u32::MAX,
        10 * blue_max <= u32::MAX,
        10 * red_show + 5 <= u32::MAX,
        10 * yellow_show + 1 <= u32::MAX,
    ensures
        ({
            let m = catalog_map(first, blue_max, red_show, yellow_show);
            &&& m.dom().finite()
            &&& m.dom().len() == catalog_size(blue_max, red_show, yellow_show)
            &&& m.dom().filter(|id: u32| is_blue(m[id])).len() == 4 * blue_max
            &&& m.dom().filter(|id: u32| is_red(m[id])).len() == red_show
            &&& m.dom().filter(|id: u32| is_yellow(m[id])).len() == yellow_show
        }),
{
    let m = catalog_map(first, blue_max, red_show, yellow_show);
    let size = catalog_size(blue_max, red_show, yellow_show);
    let rb = first + 4 * blue_max;
    let ry = rb + red_show;
    assert forall|id: u32| #[trigger] m.dom().contains(id) implies {
        let v = m[id];
        &&& is_blue(v) <==> id < rb
        &&& is_red(v) <==> rb <= id < ry
        &&& is_yellow(v) <==> ry <= id
    } by {
        lemma_catalog_value_color(id - first, blue_max, red_show, yellow_show);
    }
    assert(m.dom() =~= id_range(first, first + size));
    assert(m.dom().filter(|id: u32| is_blue(m[id])) =~= id_range(first, rb));
    assert(m.dom().filter(|id: u32| is_red(m[id])) =~= id_range(rb, ry));
    assert(m.dom().filter(|id: u32| is_yellow(m[id])) =~= id_range(ry, first + size));
    lemma_id_range_len(first, first + size);
    lemma_id_range_len(first, rb);
    lemma_id_range_len(rb, ry);
    lemma_id_range_len(ry, first + size);
}

/// Hands out cable ids: a strictly increasing counter, never reused.
pub struct CableIdGenerator {
    next_id: u32,
}

impl CableIdGenerator {
    /// The id that the next cable will get.
    pub closed spec fn upcoming(&self) -> int {
        self.next_id as int
    }

    pub fn new() -> (g: Self)
        ensures
            g.upcoming() == 1,
    {
        CableIdGenerator { next_id: 1 }
    }

    fn take(&mut self) -> (id: u32)
        requires
            old(self).upcoming() < u32::MAX,
        ensures
            id == old(self).upcoming(),
            final(self).upcoming() == id + 1,
    {
        let id = self.next_id;
        self.next_id = self.next_id + 1;
        id
    }
}

/// Creates every cable of a configuration: four blue cables for each value
/// 10, 20, ..., `10 * blue_max_val`, then `red_show` red cables (15, 25, ...)
/// and `yellow_show` yellow cables (11, 21, ...), each with a fresh id.
pub fn init_all_cables(
    ids: &mut CableIdGenerator,
    blue_max_val: u32,
    red_show: u32,
    yellow_show: u32,
) -> (cables: HashMap<u32, u32>)
    requires
        old(ids).upcoming() + catalog_size(blue_max_val as int, red_show as int, yellow_show as int)
            < u32::MAX,
        10 * blue_max_val <= u32::MAX,
        10 * red_show + 5 <= u32::MAX,
        10 * yellow_show + 1 <= u32::MAX,
    ensures
        cables@ == catalog_map(
            old(ids).upcoming(),
            blue_max_val as int,
            red_show as int,
            yellow_show as int,
        ),
        final(ids).upcoming() == old(ids).upcoming() + catalog_size(
            blue_max_val as int,
            red_show as int,
            yellow_show as int,
        ),
{
    let ghost first = ids.upcoming();
    let ghost b = blue_max_val as int;
    let ghost r = red_show as int;
    let mut cables: HashMap<u32, u32> = HashMap::new();
    let blue_count: u32 = 4 * blue_max_val;
    let mut k: u32 = 0;
    while k < blue_count
        invariant
            blue_count == 4 * b,
            b == blue_max_val,
            r == red_show,
            10 * blue_max_val <= u32::MAX,
            k <= blue_count,
            ids.upcoming() == first + k,
            first + catalog_size(b, r, yellow_show as int) < u32::MAX,
            cables@ =~= catalog_upto(first, k as int, b, r),
        decreases blue_count - k,
    {
        let id = ids.take();
        let value: u32 = (k / 4 + 1) * 10;
        cables.insert(id, value);
        k = k + 1;
        assert(cables@ =~= catalog_upto(first, k as int, b, r));
    }
    let mut j: u32 = 0;
    while j < red_show
        invariant
            blue_count == 4 * b,
            b == blue_max_val,
            r == red_show,
            10 * red_show + 5 <= u32::MAX,
            j <= red_show,
            ids.upcoming() == first + 4 * b + j,
            first + catalog_size(b, r, yellow_show as int) < u32::MAX,
            cables@ =~= catalog_upto(first, 4 * b + j, b, r),
        decreases red_show - j,
    {
        let id = ids.take();
        let value: u32 = j * 10 + 15;
        cables.insert(id, value);
        j = j + 1;
        assert(cables@ =~= catalog_upto(first, 4 * b + j, b, r));
    }
    let mut j: u32 = 0;
    while j < yellow_show
        invariant
            b == blue_max_val,
            r == red_show,
            10 * yellow_show + 1 <= u32::MAX,
            j <= yellow_show,
            ids.upcoming() == first + 4 * b + r + j,
            first + catalog_size(b, r, yellow_show as int) < u32::MAX,
            cables@ =~= catalog_upto(first, 4 * b + r + j, b, r),
        decreases yellow_show - j,
    {
        let id = ids.take();
        let value: u32 = j * 10 + 11;
        cables.insert(id, value);
        j = j + 1;
        assert(cables@ =~= catalog_upto(first, 4 * b + r + j, b, r));
    }
    cables
}

/// The value of a cable of the catalog.
pub fn get_value(cable_id: u32, all_cables: &HashMap<u32, u32>) -> (v: u32)
    requires
        all_cables@.contains_key(cable_id),
    ensures
        v == all_cables@[cable_id],
{
    match all_cables.get(&cable_id) {
        Some(v) => *v,
        None => 0,
    }
}

/// Name of the colour that a value stands for.
pub open spec fn color_name(v: u32) -> Seq<char> {
    if is_blue(v) {
        "blue"@
    } else if is_red(v) {
        "red"@
    } else if is_yellow(v) {
        "yellow"@
    } else {
        "unknown"@
    }
}

/// The colour of a cable of the catalog, as a lower-case word.
pub fn get_color(cable_id: u32, all_cables: &HashMap<u32, u32>) -> (c: String)
    requires
        all_cables@.contains_key(cable_id),
    ensures
        c@ == color_name(all_cables@[cable_id]),
{
    let v = get_value(cable_id, all_cables);
    let digit = v % 10;
    if digit == 0 {
        "blue".to_string()
    } else if digit == 5 {
        "red".to_string()
    } else if digit == 1 {
        "yellow".to_string()
    } else {
        "unknown".to_string()
    }
}

/// Ids of the catalog whose value ends in `digit`.
pub open spec fn ids_with_digit(m: Map<u32, u32>, digit: u32) -> Set<u32> {
    m.dom().filter(|id: u32| m[id] % 10 == digit)
}

fn ids_of_digit(cables: &HashMap<u32, u32>, digit: u32) -> (ids: Vec<u32>)
    ensures
        ids@.no_duplicates(),
        ids@.to_set() == ids_with_digit(cables@, digit),
{
    let mut ids: Vec<u32> = Vec::new();
    for id in it: cables.keys()
        invariant
            it.seq().no_duplicates(),
            it.seq().unref().to_set() == cables@.dom(),
            ids@.no_duplicates(),
            forall|x: u32|
                ids@.contains(x) <==> (exists|i: int|
                    0 <= i < it.index() && *it.seq()[i] == x && cables@[x] % 10 == digit),
            it.index() == it.seq().len() ==> ids@.to_set() == ids_with_digit(cables@, digit),
    {
        let ghost idx = it.index();
        let ghost before = ids@;
        assert(it.seq().unref()[idx] == *id);
        assert(cables@.dom().contains(*id));
        let v = get_value(*id, cables);
        if v % 10 == digit {
            assert(!ids@.contains(*id)) by {
                if ids@.contains(*id) {
                    let i = choose|i: int|
                        0 <= i < idx && *it.seq()[i] == *id && cables@[*id] % 10 == digit;
                    assert(it.seq()[i] == it.seq()[idx]);
                }
            }
            ids.push(*id);
        }
        assert forall|x: u32|
            ids@.contains(x) <==> (exists|i: int|
                0 <= i < idx + 1 && *it.seq()[i] == x && cables@[x] % 10 == digit) by {
            if ids@.contains(x) && x != *id {
                assert(before.contains(x)) by {
                    let k = choose|k: int| 0 <= k < ids@.len() && ids@[k] == x;
                    assert(before[k] == x);
                }
            }
            if x == *id && cables@[x] % 10 == digit {
                assert(ids@.last() == x);
            }
            if (exists|i: int| 0 <= i < idx + 1 && *it.seq()[i] == x && cables@[x] % 10 == digit) && x != *id {
                let i = choose|i: int| 0 <= i < idx + 1 && *it.seq()[i] == x && cables@[x] % 10 == digit;
                assert(i < idx);
                assert(before.contains(x));
                let k = choose|k: int| 0 <= k < before.len() && before[k] == x;
                assert(ids@[k] == x);
            }
        }
        assert forall|x: u32|
            idx + 1 == it.seq().len() && #[trigger] ids_with_digit(cables@, digit).contains(x)
            implies ids@.contains(x) by {
            assert(it.seq().unref().to_set().contains(x));
            assert(it.seq().unref().contains(x));
        }
        assert forall|x: u32| #[trigger] ids@.contains(x) implies ids_with_digit(
            cables@,
            digit,
        ).contains(x) by {
            let i = choose|i: int|
                0 <= i < idx + 1 && *it.seq()[i] == x && cables@[x] % 10 == digit;
            assert(it.seq().unref()[i] == x);
            assert(it.seq().unref().to_set().contains(x));
        }
        assert(idx + 1 == it.seq().len() ==> ids@.to_set() =~= ids_with_digit(cables@, digit));
    }
    proof {
        if cables@.dom().len() == 0 {
            assert(ids_with_digit(cables@, digit) =~= Set::empty());
            assert(ids@.to_set() =~= Set::empty());
        }
    }
    ids
}

/// Relies on rand's `IteratorRandom::choose_multiple`, a reservoir sample:
/// it returns `min(amount, n)` of the `n` items, each item at most once.
#[verifier::external_body]
fn sample_ids(ids: Vec<u32>, amount: usize) -> (r: Vec<u32>)
    ensures
        r@.len() == if amount < ids@.len() {
            amount as int
        } else {
            ids@.len() as int
        },
        r@.to_multiset().subset_of(ids@.to_multiset()),
{
    ids.into_iter().choose_multiple(&mut rand::rng(), amount)
}

/// A part of a sequence without repeated items holds no repeated items, and
/// only items of the whole.
proof fn lemma_sub_multiset_unique(part: Seq<u32>, whole: Seq<u32>)
    requires
        part.to_multiset().subset_of(whole.to_multiset()),
        whole.no_duplicates(),
    ensures
        part.no_duplicates(),
        forall|x: u32| part.contains(x) ==> whole.contains(x),
{
    broadcast use vstd::seq_lib::group_to_multiset_ensures;

    whole.lemma_multiset_has_no_duplicates();
    assert forall|x: u32| part.to_multiset().contains(x) implies part.to_multiset().count(x)
        == 1 by {
        assert(whole.to_multiset().count(x) >= part.to_multiset().count(x));
        assert(whole.to_multiset().contains(x));
    }
    part.lemma_multiset_has_no_duplicates_conv();
    assert forall|x: u32| part.contains(x) implies whole.contains(x) by {
        assert(part.to_multiset().count(x) > 0);
        assert(whole.to_multiset().count(x) > 0);
    }
}

/// Adds each id of `v` to `set`; none of them is there yet.
fn insert_all(set: &mut HashSet<u32>, v: &Vec<u32>)
    requires
        v@.no_duplicates(),
        old(set)@.finite(),
        old(set)@.disjoint(v@.to_set()),
    ensures
        final(set)@ == old(set)@.union(v@.to_set()),
        final(set)@.finite(),
        final(set)@.len() == old(set)@.len() + v@.len(),
{
    let ghost start = set@;
    let mut i: usize = 0;
    while i < v.len()
        invariant
            i <= v@.len(),
            v@.no_duplicates(),
            start.finite(),
            start.disjoint(v@.to_set()),
            set@ == start.union(v@.take(i as int).to_set()),
            set@.finite(),
            set@.len() == start.len() + i,
        decreases v@.len() - i,
    {
        assert(!set@.contains(v@[i as int])) by {
            assert(v@.to_set().contains(v@[i as int]));
            if v@.take(i as int).to_set().contains(v@[i as int]) {
                let k = choose|k: int| 0 <= k < i && v@.take(i as int)[k] == v@[i as int];
                assert(v@[k] == v@[i as int]);
            }
        }
        set.insert(v[i]);
        assert(v@.take(i + 1) == v@.take(i as int).push(v@[i as int]));
        proof {
            v@.take(i as int).lemma_push_to_set_commute(v@[i as int]);
        }
        i = i + 1;
        assert(set@ =~= start.union(v@.take(i as int).to_set()));
    }
    assert(v@.take(i as int) == v@);
}

/// Blue ids of a catalog.
pub open spec fn blue_ids(m: Map<u32, u32>) -> Set<u32> {
    ids_with_digit(m, 0)
}

/// Red ids of a catalog.
pub open spec fn red_ids(m: Map<u32, u32>) -> Set<u32> {
    ids_with_digit(m, 5)
}

/// Yellow ids of a catalog.
pub open spec fn yellow_ids(m: Map<u32, u32>) -> Set<u32> {
    ids_with_digit(m, 1)
}

/// The smaller of two integers.
pub open spec fn min_int(a: int, b: int) -> int {
    if a < b {
        a
    } else {
        b
    }
}

/// `s` is a selection of in-game cables from the catalog `m`: every blue
/// cable, `red_keep` of the red ones and `yellow_keep` of the yellow ones
/// (or all of them where there are fewer), nothing else.
pub open spec fn in_game_selection(m: Map<u32, u32>, red_keep: int, yellow_keep: int, s: Set<u32>) -> bool {
    &&& s.finite()
    &&& blue_ids(m).subset_of(s)
    &&& forall|id: u32| #[trigger]
        s.contains(id) ==> blue_ids(m).contains(id) || red_ids(m).contains(id) || yellow_ids(
            m,
        ).contains(id)
    &&& s.intersect(red_ids(m)).len() == min_int(red_keep, red_ids(m).len() as int)
    &&& s.intersect(yellow_ids(m)).len() == min_int(yellow_keep, yellow_ids(m).len() as int)
    &&& s.len() == blue_ids(m).len() + min_int(red_keep, red_ids(m).len() as int) + min_int(
        yellow_keep,
        yellow_ids(m).len() as int,
    )
}

/// Chooses the cables of a game: all blue cables, and `red_keep` red and
/// `yellow_keep` yellow cables drawn at random without repetition (all of a
/// colour where it has fewer).
pub fn init_cables_in_game(cables: &HashMap<u32, u32>, red_keep: u32, yellow_keep: u32) -> (s:
    HashSet<u32>)
    ensures
        in_game_selection(cables@, red_keep as int, yellow_keep as int, s@),
{
    let m = Ghost(cables@);
    let blue = ids_of_digit(cables, 0);
    let red_all = ids_of_digit(cables, 5);
    let yellow_all = ids_of_digit(cables, 1);
    let ghost red_seq = red_all@;
    let ghost yellow_seq = yellow_all@;
    let red = sample_ids(red_all, red_keep as usize);
    let yellow = sample_ids(yellow_all, yellow_keep as usize);
    proof {
        lemma_sub_multiset_unique(red@, red_seq);
        lemma_sub_multiset_unique(yellow@, yellow_seq);
        blue@.unique_seq_to_set();
        red@.unique_seq_to_set();
        yellow@.unique_seq_to_set();
        red_seq.unique_seq_to_set();
        yellow_seq.unique_seq_to_set();
    }
    let mut s: HashSet<u32> = HashSet::new();
    insert_all(&mut s, &blue);
    assert(s@ =~= blue_ids(m@));
    assert(s@.disjoint(red@.to_set())) by {
        assert forall|x: u32| red@.to_set().contains(x) implies !s@.contains(x) by {
            assert(red_seq.contains(x));
            assert(red_seq.to_set().contains(x));
        }
    }
    insert_all(&mut s, &red);
    assert(s@.disjoint(yellow@.to_set())) by {
        assert forall|x: u32| yellow@.to_set().contains(x) implies !s@.contains(x) by {
            assert(yellow_seq.contains(x));
            assert(yellow_seq.to_set().contains(x));
            if red@.to_set().contains(x) {
                assert(red_seq.contains(x));
                assert(red_seq.to_set().contains(x));
            }
        }
    }
    insert_all(&mut s, &yellow);
    proof {
        assert(s@.intersect(red_ids(m@)) =~= red@.to_set()) by {
            assert forall|x: u32| red@.to_set().contains(x) implies red_ids(m@).contains(x) by {
                assert(red_seq.contains(x));
                assert(red_seq.to_set().contains(x));
            }
            assert forall|x: u32| yellow@.to_set().contains(x) implies !red_ids(m@).contains(x) by {
                assert(yellow_seq.contains(x));
                assert(yellow_seq.to_set().contains(x));
            }
        }
        assert(s@.intersect(yellow_ids(m@)) =~= yellow@.to_set()) by {
            assert forall|x: u32| yellow@.to_set().contains(x) implies yellow_ids(m@).contains(x) by {
                assert(yellow_seq.contains(x));
                assert(yellow_seq.to_set().contains(x));
            }
            assert forall|x: u32| red@.to_set().contains(x) implies !yellow_ids(m@).contains(x) by {
                assert(red_seq.contains(x));
                assert(red_seq.to_set().contains(x));
            }
        }
        assert forall|id: u32| #[trigger] s@.contains(id) implies blue_ids(m@).contains(id)
            || red_ids(m@).contains(id) || yellow_ids(m@).contains(id) by {
            if red@.to_set().contains(id) {
                assert(red_seq.contains(id));
                assert(red_seq.to_set().contains(id));
            }
            if yellow@.to_set().contains(id) {
                assert(yellow_seq.contains(id));
                assert(yellow_seq.to_set().contains(id));
            }
        }
    }
    s
}

/// With every keep count within its colour's pool, the cables of a game are
/// `4 * blue_max + red_keep + yellow_keep` ids that take in every blue one.
pub proof fn lemma_in_game_size(
    first: int,
    blue_max: int,
    red_show: int,
    yellow_show: int,
    red_keep: int,
    yellow_keep: int,
    s: Set<u32>,
)
    requires
        0 <= first,
        0 <= blue_max,
        0 <= red_keep <= red_show,
        0 <= yellow_keep <= yellow_show,
        first + catalog_size(blue_max, red_show, yellow_show) <= u32::MAX,
        10 * blue_max <= u32::MAX,
        10 * red_show + 5 <= u32::MAX,
        10 * yellow_show + 1 <= u32::MAX,
        in_game_selection(catalog_map(first, blue_max, red_show, yellow_show), red_keep, yellow_keep, s),
    ensures
        s.len() == 4 * blue_max + red_keep + yellow_keep,
        blue_ids(catalog_map(first, blue_max, red_show, yellow_show)).subset_of(s),
{
    let m = catalog_map(first, blue_max, red_show, yellow_show);
    lemma_catalog_counts(first, blue_max, red_show, yellow_show);
    assert(blue_ids(m) =~= m.dom().filter(|id: u32| is_blue(m[id])));
    assert(red_ids(m) =~= m.dom().filter(|id: u32| is_red(m[id])));
    assert(yellow_ids(m) =~= m.dom().filter(|id: u32| is_yellow(m[id])));
}

/// Values in the catalog that end in `digit`.
pub open spec fn values_with_digit(m: Map<u32, u32>, digit: u32) -> Set<u32> {
    m.values().filter(|v: u32| v % 10 == digit)
}

fn values_of_digit(cables: &HashMap<u32, u32>, digit: u32) -> (vals: HashSet<u32>)
    ensures
        vals@ == values_with_digit(cables@, digit),
{
    let mut vals: HashSet<u32> = HashSet::new();
    for v in it: cables.values()
        invariant
            it.seq().unref().to_set() == cables@.values(),
            forall|x: u32|
                vals@.contains(x) <==> (exists|i: int|
                    0 <= i < it.index() && *it.seq()[i] == x && x % 10 == digit),
            it.index() == it.seq().len() ==> vals@ == values_with_digit(cables@, digit),
    {
        let ghost idx = it.index();
        assert(it.seq().unref()[idx] == *v);
        if *v % 10 == digit {
            vals.insert(*v);
        }
        assert forall|x: u32|
            vals@.contains(x) <==> (exists|i: int|
                0 <= i < idx + 1 && *it.seq()[i] == x && x % 10 == digit) by {
            if (exists|i: int| 0 <= i < idx + 1 && *it.seq()[i] == x && x % 10 == digit) && x
                != *v {
                let i = choose|i: int| 0 <= i < idx + 1 && *it.seq()[i] == x && x % 10 == digit;
                assert(i < idx);
            }
        }
        assert forall|x: u32|
            idx + 1 == it.seq().len() && #[trigger] values_with_digit(cables@, digit).contains(x)
            implies vals@.contains(x) by {
            assert(it.seq().unref().to_set().contains(x));
            assert(it.seq().unref().contains(x));
        }
        assert forall|x: u32| #[trigger] vals@.contains(x) implies values_with_digit(
            cables@,
            digit,
        ).contains(x) by {
            let i = choose|i: int| 0 <= i < idx + 1 && *it.seq()[i] == x && x % 10 == digit;
            assert(it.seq().unref()[i] == x);
            assert(it.seq().unref().to_set().contains(x));
        }
        assert(idx + 1 == it.seq().len() ==> vals@ =~= values_with_digit(cables@, digit));
    }
    proof {
        if cables@.dom().len() == 0 {
            assert(cables@.values() =~= Set::empty());
            assert(values_with_digit(cables@, digit) =~= Set::empty());
            assert(vals@ =~= Set::empty());
        }
    }
    vals
}

/// The distinct red values and the distinct yellow values of the catalog.
pub fn get_yel_red_info(all_cables: &HashMap<u32, u32>) -> (r: (HashSet<u32>, HashSet<u32>))
    ensures
        r.0@ == values_with_digit(all_cables@, 5),
        r.1@ == values_with_digit(all_cables@, 1),
{
    let red = values_of_digit(all_cables, 5);
    let yellow = values_of_digit(all_cables, 1);
    (red, yellow)
}

/// The bomb explodes when this counter reaches zero; more players start
/// with more room for failure.
pub fn init_death_counter(number_players: u32) -> (c: u32)
    requires
        number_players < u32::MAX,
    ensures
        c == number_players + 1,
{
    number_players + 1
}

} // verus!
