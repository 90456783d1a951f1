//! The attack: three searches that recover, one after the other, the wheels
//! and their positions, the ring settings, and the cables of the plugboard,
//! from a ciphertext alone.
pub mod decimal;
pub mod fitness;
mod order;

use crate::analysis::fitness::{is_scorable, FitnessFunction, SCORE_FLOOR};
use crate::enigma::{
    connections_of, decode_spec, joins_different_letters, lemma_cable_count,
    lemma_decode_involution, lemma_unplugged_unused, lemma_valid_push, plug, valid_connections,
    Enigma, EnigmaKey, KeyView, MachineView, Plugboard, ReflectorId, Rotor, RotorId, RotorView,
};
use crate::text::letter_char;
use rayon::iter::{IntoParallelIterator, ParallelIterator};
use vstd::prelude::*;

verus! {

/// The score of the text that the machine, set to `key` and closed by
/// reflector B, turns `cipher` into.
pub open spec fn key_fitness<F: FitnessFunction>(f: &F, cipher: Seq<char>, key: KeyView) -> int {
    f.fitness(MachineView::of_key(key, ReflectorId::B).encrypt(cipher))
}

/// Candidate `i` scores above the lowest score, no candidate scores higher,
/// and every candidate before it scores lower.
pub open spec fn is_first_best(scores: Seq<int>, i: int) -> bool {
    &&& 0 <= i < scores.len()
    &&& scores[i] > SCORE_FLOOR
    &&& forall|j: int| 0 <= j < scores.len() ==> #[trigger] scores[j] <= scores[i]
    &&& forall|j: int| 0 <= j < i ==> #[trigger] scores[j] < scores[i]
}

/// The best of a row of candidates: the first of those with the highest
/// score. None where no candidate scores above the lowest score.
pub open spec fn best_index(scores: Seq<int>) -> Option<int> {
    if exists|i: int| is_first_best(scores, i) {
        Some(choose|i: int| is_first_best(scores, i))
    } else {
        None
    }
}

/// The candidate that a scan over the first `n` scores of a row holds: it
/// starts with nothing, at the lowest score, and moves on to a candidate only
/// when that candidate scores strictly higher than what it holds.
pub open spec fn best_upto(scores: Seq<int>, n: int) -> Option<int>
    decreases n,
{
    if n <= 0 {
        None
    } else {
        let held = best_upto(scores, n - 1);
        if scores[n - 1] > held_score(scores, held) {
            Some(n - 1)
        } else {
            held
        }
    }
}

/// The score that a scan holds: that of its candidate, or the lowest score
/// while it has none.
pub open spec fn held_score(scores: Seq<int>, held: Option<int>) -> int {
    match held {
        Some(i) => scores[i],
        None => SCORE_FLOOR as int,
    }
}

/// After `n` candidates a scan holds the first of those with the highest
/// score, and none only where none of them scores above the lowest score.
pub proof fn lemma_best_upto(scores: Seq<int>, n: int)
    requires
        0 <= n <= scores.len(),
    ensures
        match best_upto(scores, n) {
            Some(i) => is_first_best(scores.take(n), i),
            None => forall|j: int| 0 <= j < n ==> #[trigger] scores[j] <= SCORE_FLOOR,
        },
    decreases n,
{
    if n > 0 {
        lemma_best_upto(scores, n - 1);
        let held = best_upto(scores, n - 1);
        let now = scores.take(n);
        let before = scores.take(n - 1);
        assert forall|j: int| 0 <= j < n - 1 implies #[trigger] now[j] == before[j] by {}
        match best_upto(scores, n) {
            Some(i) => {
                assert forall|j: int| 0 <= j < now.len() implies #[trigger] now[j] <= now[i] by {
                    if j < n - 1 {
                        assert(now[j] == before[j]);
                        if held is Some {
                            assert(before[j] <= before[held->0]);
                        } else {
                            assert(scores[j] <= SCORE_FLOOR);
                        }
                    }
                }
                assert forall|j: int| 0 <= j < i implies #[trigger] now[j] < now[i] by {
                    assert(now[j] == before[j]);
                    if held is Some {
                        assert(before[j] <= before[held->0]);
                    } else {
                        assert(scores[j] <= SCORE_FLOOR);
                    }
                }
            },
            None => {},
        }
    }
}

/// A row has at most one first best candidate.
pub proof fn lemma_first_best_unique(scores: Seq<int>, i: int, j: int)
    requires
        is_first_best(scores, i),
        is_first_best(scores, j),
    ensures
        i == j,
{
}

/// A scan over the whole row ends with the best candidate of the row.
pub proof fn lemma_scan_finds_best(scores: Seq<int>)
    ensures
        best_upto(scores, scores.len() as int) == best_index(scores),
{
    lemma_best_upto(scores, scores.len() as int);
    assert(scores.take(scores.len() as int) == scores);
    match best_upto(scores, scores.len() as int) {
        Some(i) => {
            let c = choose|c: int| is_first_best(scores, c);
            lemma_first_best_unique(scores, i, c);
        },
        None => {
            assert forall|i: int| !is_first_best(scores, i) by {
                if 0 <= i < scores.len() {
                    assert(scores[i] <= SCORE_FLOOR);
                }
            }
        },
    }
}

/// What the best candidate of a row is: the first best where there is one,
/// and none only where no candidate scores above the lowest score.
pub proof fn lemma_best_index(scores: Seq<int>)
    ensures
        match best_index(scores) {
            Some(i) => is_first_best(scores, i),
            None => forall|j: int| 0 <= j < scores.len() ==> #[trigger] scores[j] <= SCORE_FLOOR,
        },
{
    lemma_scan_finds_best(scores);
    lemma_best_upto(scores, scores.len() as int);
}

/// Decrypts `cipher` with `key` into `buf` and scores what comes out.
pub fn fitness_of_key<F: FitnessFunction>(
    key: EnigmaKey,
    cipher: &str,
    f: &F,
    buf: &mut String,
) -> (s: i64)
    requires
        is_scorable(cipher@),
    ensures
        s == key_fitness(f, cipher@, key@),
        final(buf)@ == MachineView::of_key(key@, ReflectorId::B).encrypt(cipher@),
        key@.wf(),
{
    let mut enigma = Enigma::new(key, ReflectorId::B);
    enigma.encrypt_into(cipher, buf);
    f.score(buf.as_str())
}

/// A key together with the score that its decryption reached, as plain
/// values.
pub struct ScoredView {
    pub key: KeyView,
    pub score: int,
}

/// A key together with the score that its decryption reached.
#[derive(Debug, Clone, Copy)]
pub struct ScoredEnigmaKey {
    key: EnigmaKey,
    score: i64,
}

impl View for ScoredEnigmaKey {
    type V = ScoredView;

    closed spec fn view(&self) -> ScoredView {
        ScoredView { key: self.key@, score: self.score as int }
    }
}

impl ScoredEnigmaKey {
    /// A key with the score it reached.
    pub fn new(key: EnigmaKey, score: i64) -> (r: Self)
        ensures
            r@ == (ScoredView { key: key@, score: score as int }),
    {
        Self { key, score }
    }

    /// The score that the key reached.
    pub fn score(&self) -> (s: i64)
        ensures
            s == self@.score,
    {
        self.score
    }
}

impl core::ops::Deref for ScoredEnigmaKey {
    type Target = EnigmaKey;

    fn deref(&self) -> (k: &EnigmaKey)
        ensures
            k@ == self@.key,
    {
        &self.key
    }
}

/// The place of a wheel in the machine.
#[derive(Debug, Copy, Clone, PartialEq, Eq, Structural)]
pub enum RotorSlot {
    Left,
    Middle,
    Right,
}

/// The wheel of a key that stands in the given place.
pub open spec fn slot_rotor(key: KeyView, slot: RotorSlot) -> RotorView {
    match slot {
        RotorSlot::Left => key.left,
        RotorSlot::Middle => key.middle,
        RotorSlot::Right => key.right,
    }
}

/// The key with another wheel in the given place.
pub open spec fn with_slot_rotor(key: KeyView, slot: RotorSlot, rotor: RotorView) -> KeyView {
    match slot {
        RotorSlot::Left => KeyView { left: rotor, ..key },
        RotorSlot::Middle => KeyView { middle: rotor, ..key },
        RotorSlot::Right => KeyView { right: rotor, ..key },
    }
}

/// The key with the ring of one wheel set to `ring` and the wheel moved on by
/// as many positions, so that it starts on the same contacts as before.
pub open spec fn ring_candidate(key: KeyView, slot: RotorSlot, ring: int) -> KeyView {
    let r = slot_rotor(key, slot);
    with_slot_rotor(
        key,
        slot,
        RotorView { id: r.id, position: (r.position + ring) % 26, ring },
    )
}

/// The scores of the 26 ring settings of one wheel.
pub open spec fn ring_scores<F: FitnessFunction>(
    f: &F,
    cipher: Seq<char>,
    key: KeyView,
    slot: RotorSlot,
) -> Seq<int> {
    Seq::new(26, |ring: int| key_fitness(f, cipher, ring_candidate(key, slot, ring)))
}

/// The ring setting of one wheel that scores best, and 0 where none scores
/// above the lowest score.
pub open spec fn best_ring<F: FitnessFunction>(
    f: &F,
    cipher: Seq<char>,
    key: KeyView,
    slot: RotorSlot,
) -> int {
    match best_index(ring_scores(f, cipher, key, slot)) {
        Some(ring) => ring,
        None => 0,
    }
}

/// The key after the ring of the right wheel, and then that of the middle
/// wheel, has been set to what scores best.
pub open spec fn ring_refined<F: FitnessFunction>(f: &F, cipher: Seq<char>, key: KeyView) -> KeyView {
    let right_done = ring_candidate(
        key,
        RotorSlot::Right,
        best_ring(f, cipher, key, RotorSlot::Right),
    );
    ring_candidate(
        right_done,
        RotorSlot::Middle,
        best_ring(f, cipher, right_done, RotorSlot::Middle),
    )
}

/// Sets the ring of the wheel in `slot` to `ring` and moves the wheel on by as
/// many positions.
pub fn apply_ring_setting(key: &mut EnigmaKey, slot: RotorSlot, ring: u8)
    requires
        ring < 26,
    ensures
        final(key)@ == ring_candidate(old(key)@, slot, ring as int),
{
    let rotor = match slot {
        RotorSlot::Left => key.left_rotor_mut(),
        RotorSlot::Middle => key.middle_rotor_mut(),
        RotorSlot::Right => key.right_rotor_mut(),
    };
    let position = rotor.rotor_position();
    rotor.set_ring_setting(ring);
    rotor.set_rotor_position((position + ring) % 26);
}

/// Tries the 26 ring settings of one wheel and says which scores best.
pub fn find_ring_setting<F: FitnessFunction>(
    key: EnigmaKey,
    cipher: &str,
    slot: RotorSlot,
    f: &F,
) -> (best: u8)
    requires
        is_scorable(cipher@),
    ensures
        best == best_ring(f, cipher@, key@, slot),
        best < 26,
{
    let ghost scores = ring_scores(f, cipher@, key@, slot);
    let mut optimal_ring_setting: u8 = 0;
    let mut max_fitness: i64 = SCORE_FLOOR;
    let mut buf = String::new();
    let ghost mut held: Option<int> = None;
    let mut i: u8 = 0;
    while i < 26
        invariant
            i <= 26,
            is_scorable(cipher@),
            scores == ring_scores(f, cipher@, key@, slot),
            held == best_upto(scores, i as int),
            max_fitness == held_score(scores, held),
            optimal_ring_setting < 26,
            optimal_ring_setting == match held {
                Some(ring) => ring,
                None => 0,
            },
        decreases 26 - i,
    {
        let mut candidate = key;
        apply_ring_setting(&mut candidate, slot, i);
        let fitness = fitness_of_key(candidate, cipher, f, &mut buf);
        if fitness > max_fitness {
            max_fitness = fitness;
            optimal_ring_setting = i;
            proof {
                held = Some(i as int);
            }
        }
        i += 1;
    }
    proof {
        lemma_scan_finds_best(scores);
    }
    optimal_ring_setting
}

/// Refines the ring settings of a key: first that of the right wheel, then
/// that of the middle wheel. The ring of the left wheel is left as it is.
pub fn find_ring_settings<F: FitnessFunction>(cipher: &str, key: EnigmaKey, f: &F) -> (r:
    ScoredEnigmaKey)
    requires
        is_scorable(cipher@),
    ensures
        r@.key == ring_refined(f, cipher@, key@),
        r@.score == key_fitness(f, cipher@, r@.key),
{
    let mut key = key;
    let right = find_ring_setting(key, cipher, RotorSlot::Right, f);
    apply_ring_setting(&mut key, RotorSlot::Right, right);
    let middle = find_ring_setting(key, cipher, RotorSlot::Middle, f);
    apply_ring_setting(&mut key, RotorSlot::Middle, middle);
    let mut buf = String::new();
    let score = fitness_of_key(key, cipher, f, &mut buf);
    ScoredEnigmaKey { key, score }
}

/// A scan does not move over candidates that score no higher than the lowest
/// score.
pub proof fn lemma_scan_skips(scores: Seq<int>, from: int, to: int)
    requires
        0 <= from <= to <= scores.len(),
        held_score(scores, best_upto(scores, from)) >= SCORE_FLOOR,
        forall|t: int| from <= t < to ==> #[trigger] scores[t] <= SCORE_FLOOR,
    ensures
        best_upto(scores, to) == best_upto(scores, from),
    decreases to - from,
{
    if from < to {
        lemma_scan_skips(scores, from, to - 1);
    }
}

/// The cable between the letters with indices `a` and `b` can be added to the
/// plugboard of the key: `a` comes before `b`, and no cable ends in either.
pub open spec fn plug_is_free(key: KeyView, a: int, b: int) -> bool {
    a < b && key.plugboard[a] == a && key.plugboard[b] == b
}

/// The key with one more cable on its plugboard, between the letters with
/// indices `a` and `b`.
pub open spec fn plug_candidate(key: KeyView, a: int, b: int) -> KeyView {
    KeyView { plugboard: plug(key.plugboard, (letter_char(a), letter_char(b))), ..key }
}

/// The scores of all cables, in the order of their first and then of their
/// second letter. A cable that cannot be added has the lowest score.
pub open spec fn plug_scores<F: FitnessFunction>(f: &F, cipher: Seq<char>, key: KeyView) -> Seq<
    int,
> {
    Seq::new(
        676,
        |t: int|
            if plug_is_free(key, t / 26, t % 26) {
                key_fitness(f, cipher, plug_candidate(key, t / 26, t % 26))
            } else {
                SCORE_FLOOR as int
            },
    )
}

/// The cable that scores best when it is added to the plugboard of the key,
/// with its score; none where no cable can be added or none scores above the
/// lowest score.
pub open spec fn best_plug<F: FitnessFunction>(f: &F, cipher: Seq<char>, key: KeyView) -> Option<
    (int, (char, char)),
> {
    match best_index(plug_scores(f, cipher, key)) {
        Some(t) => Some(
            (plug_scores(f, cipher, key)[t], (letter_char(t / 26), letter_char(t % 26))),
        ),
        None => None,
    }
}

/// The key with the plugboard that a list of cables stands for.
pub open spec fn with_plugs(key: KeyView, pairs: Seq<(char, char)>) -> KeyView {
    KeyView { plugboard: decode_spec(pairs), ..key }
}

/// The cables that the climb ends with, when it holds `committed`, reached
/// the score `prev` with them and may add `budget` more: it adds the best
/// cable as long as there is one and it scores no lower than what was
/// reached, and it never takes a cable back.
pub open spec fn climb<F: FitnessFunction>(
    f: &F,
    cipher: Seq<char>,
    key: KeyView,
    committed: Seq<(char, char)>,
    prev: int,
    budget: nat,
) -> Seq<(char, char)>
    decreases budget,
{
    if budget == 0 {
        committed
    } else {
        match best_plug(f, cipher, with_plugs(key, committed)) {
            None => committed,
            Some((score, pair)) => if score < prev {
                committed
            } else {
                climb(f, cipher, key, committed.push(pair), score, (budget - 1) as nat)
            },
        }
    }
}

/// The cables that a climb from an empty plugboard ends with.
pub open spec fn plugs_found<F: FitnessFunction>(
    f: &F,
    cipher: Seq<char>,
    key: KeyView,
    max_plugs: nat,
) -> Seq<(char, char)> {
    climb(f, cipher, key, Seq::empty(), SCORE_FLOOR as int, max_plugs)
}

/// The best cable can be added to the cables that are held.
pub proof fn lemma_best_plug_fits<F: FitnessFunction>(
    f: &F,
    cipher: Seq<char>,
    key: KeyView,
    committed: Seq<(char, char)>,
)
    requires
        valid_connections(committed),
        joins_different_letters(committed),
        best_plug(f, cipher, with_plugs(key, committed)) is Some,
    ensures
        match best_plug(f, cipher, with_plugs(key, committed)) {
            Some((_, pair)) => valid_connections(committed.push(pair)) && joins_different_letters(
                committed.push(pair),
            ),
            None => true,
        },
{
    let base = with_plugs(key, committed);
    let scores = plug_scores(f, cipher, base);
    lemma_best_index(scores);
    let t = best_index(scores)->0;
    let a = t / 26;
    let b = t % 26;
    let pair = (letter_char(a), letter_char(b));
    assert(plug_is_free(base, a, b));
    lemma_unplugged_unused(committed, a);
    lemma_unplugged_unused(committed, b);
    lemma_valid_push(committed, pair);
    let next = committed.push(pair);
    assert forall|k: int| 0 <= k < next.len() implies (#[trigger] next[k]).0 != next[k].1 by {
        if k < committed.len() {
            assert(committed[k].0 != committed[k].1);
        }
    }
}

/// A climb ends within its budget: it adds at most `budget` cables to those
/// it holds, and what it ends with is a valid list of cables.
pub proof fn lemma_climb_bounded<F: FitnessFunction>(
    f: &F,
    cipher: Seq<char>,
    key: KeyView,
    committed: Seq<(char, char)>,
    prev: int,
    budget: nat,
)
    requires
        valid_connections(committed),
        joins_different_letters(committed),
    ensures
        climb(f, cipher, key, committed, prev, budget).len() <= committed.len() + budget,
        valid_connections(climb(f, cipher, key, committed, prev, budget)),
        joins_different_letters(climb(f, cipher, key, committed, prev, budget)),
    decreases budget,
{
    if budget > 0 {
        match best_plug(f, cipher, with_plugs(key, committed)) {
            None => {},
            Some((score, pair)) => {
                if score >= prev {
                    lemma_best_plug_fits(f, cipher, key, committed);
                    lemma_climb_bounded(
                        f,
                        cipher,
                        key,
                        committed.push(pair),
                        score,
                        (budget - 1) as nat,
                    );
                }
            },
        }
    }
}

/// A climb from an empty plugboard that may add `max_plugs` cables ends with
/// at most that many.
pub proof fn lemma_plugs_found_bounded<F: FitnessFunction>(
    f: &F,
    cipher: Seq<char>,
    key: KeyView,
    max_plugs: nat,
)
    ensures
        plugs_found(f, cipher, key, max_plugs).len() <= max_plugs,
        valid_connections(plugs_found(f, cipher, key, max_plugs)),
{
    lemma_climb_bounded(f, cipher, key, Seq::empty(), SCORE_FLOOR as int, max_plugs);
}

/// Tries every cable that can be added to the plugboard of the key and says
/// which scores best, and what it scores.
pub fn find_plug<F: FitnessFunction>(key: EnigmaKey, cipher: &str, f: &F) -> (r: Option<
    (i64, (char, char)),
>)
    requires
        is_scorable(cipher@),
    ensures
        match r {
            Some((score, pair)) => best_plug(f, cipher@, key@) == Some((score as int, pair)),
            None => best_plug(f, cipher@, key@) is None,
        },
{
    let unplugged = key.plugboard().unplugged();
    let mut plugs = key.plugboard().generate_connections();
    let ghost scores = plug_scores(f, cipher@, key@);
    let ghost base = plugs@;
    let mut found = false;
    let mut optimal_plug = ('A', 'A');
    let mut max_fitness: i64 = SCORE_FLOOR;
    let mut buf = String::new();
    let mut candidate = key;
    let ghost mut held: Option<int> = None;
    let mut i: u8 = 0;
    while i < 26
        invariant
            i <= 26,
            is_scorable(cipher@),
            scores == plug_scores(f, cipher@, key@),
            forall|x: int| 0 <= x < 26 ==> #[trigger] unplugged@[x] == (key@.plugboard[x] == x),
            plugs@ == base,
            valid_connections(base),
            joins_different_letters(base),
            decode_spec(base) == key@.plugboard,
            candidate@ == (KeyView { plugboard: candidate@.plugboard, ..key@ }),
            held == best_upto(scores, i * 26),
            max_fitness == held_score(scores, held),
            found == (held is Some),
            held matches Some(t) ==> optimal_plug == (letter_char(t / 26), letter_char(t % 26)),
        decreases 26 - i,
    {
        if unplugged[i as usize] {
            proof {
                lemma_scan_skips(scores, i * 26, i * 26 + i + 1);
            }
            let mut j: u8 = i + 1;
            while j < 26
                invariant
                    i < j <= 26,
                    i < 26,
                    is_scorable(cipher@),
                    scores == plug_scores(f, cipher@, key@),
                    forall|x: int|
                        0 <= x < 26 ==> #[trigger] unplugged@[x] == (key@.plugboard[x] == x),
                    unplugged@[i as int],
                    plugs@ == base,
                    valid_connections(base),
                    joins_different_letters(base),
                    decode_spec(base) == key@.plugboard,
                    candidate@ == (KeyView { plugboard: candidate@.plugboard, ..key@ }),
                    held == best_upto(scores, i * 26 + j),
                    max_fitness == held_score(scores, held),
                    found == (held is Some),
                    held matches Some(t) ==> optimal_plug == (
                        letter_char(t / 26),
                        letter_char(t % 26),
                    ),
                decreases 26 - j,
            {
                let ghost t = i * 26 + j;
                if unplugged[j as usize] {
                    let a = (i + 65u8) as char;
                    let b = (j + 65u8) as char;
                    let plug = (a, b);
                    proof {
                        lemma_unplugged_unused(base, i as int);
                        lemma_unplugged_unused(base, j as int);
                    }
                    plugs.push(plug);
                    candidate.set_plugboard(Plugboard::new(plugs.as_slice()));
                    let fitness = fitness_of_key(candidate, cipher, f, &mut buf);
                    if fitness > max_fitness {
                        max_fitness = fitness;
                        optimal_plug = plug;
                        found = true;
                        proof {
                            held = Some(t);
                        }
                    }
                    plugs.pop();
                    assert(plugs@ == base);
                }
                j += 1;
            }
        } else {
            proof {
                lemma_scan_skips(scores, i * 26, i * 26 + 26);
            }
        }
        i += 1;
    }
    proof {
        lemma_scan_finds_best(scores);
    }
    if found {
        Some((max_fitness, optimal_plug))
    } else {
        None
    }
}

/// Finds the cables of the plugboard by climbing: starting from an empty
/// plugboard, it adds the cable that scores best, up to `max_plugs` times, and
/// stops before a cable that would score lower than what was reached.
pub fn find_plugs<F: FitnessFunction>(cipher: &str, key: EnigmaKey, max_plugs: u8, f: &F) -> (r:
    ScoredEnigmaKey)
    requires
        is_scorable(cipher@),
    ensures
        r@.key == with_plugs(key@, plugs_found(f, cipher@, key@, max_plugs as nat)),
        r@.score == key_fitness(f, cipher@, r@.key),
        plugs_found(f, cipher@, key@, max_plugs as nat).len() <= max_plugs,
        connections_of(r@.key.plugboard).len() <= max_plugs,
{
    let ghost goal = plugs_found(f, cipher@, key@, max_plugs as nat);
    let mut plugs: Vec<(char, char)> = Vec::new();
    let mut max_fitness: i64 = SCORE_FLOOR;
    let mut best_key = key;
    let mut done = false;
    let mut n: u8 = 0;
    proof {
        lemma_plugs_found_bounded(f, cipher@, key@, max_plugs as nat);
    }
    while n < max_plugs && !done
        invariant
            n <= max_plugs,
            is_scorable(cipher@),
            valid_connections(plugs@),
            joins_different_letters(plugs@),
            best_key@ == (KeyView { plugboard: best_key@.plugboard, ..key@ }),
            goal == if done {
                plugs@
            } else {
                climb(f, cipher@, key@, plugs@, max_fitness as int, (max_plugs - n) as nat)
            },
        decreases max_plugs - n, if done { 0int } else { 1int },
    {
        best_key.set_plugboard(Plugboard::new(plugs.as_slice()));
        match find_plug(best_key, cipher, f) {
            None => {
                done = true;
            },
            Some((fitness, next_plug)) => {
                if fitness < max_fitness {
                    done = true;
                } else {
                    proof {
                        lemma_best_plug_fits(f, cipher@, key@, plugs@);
                    }
                    plugs.push(next_plug);
                    max_fitness = fitness;
                    n += 1;
                }
            },
        }
    }
    proof {
        lemma_cable_count(plugs@);
    }
    best_key.set_plugboard(Plugboard::new(plugs.as_slice()));
    let mut buf = String::new();
    let score = fitness_of_key(best_key, cipher, f, &mut buf);
    ScoredEnigmaKey { key: best_key, score }
}

/// Which wheels the search may put into the machine.
#[derive(Debug, Copy, Clone, PartialEq, Eq, Structural)]
pub enum EnigmaAnalysisRotors {
    /// Wheels I to III.
    Three,
    /// Wheels I to V.
    Five,
    /// Wheels I to VIII.
    Eight,
}

/// The wheels that the search may use, in the order in which it tries them.
pub open spec fn available_rotors(rotors: EnigmaAnalysisRotors) -> Seq<RotorId> {
    match rotors {
        EnigmaAnalysisRotors::Three => seq![RotorId::I, RotorId::II, RotorId::III],
        EnigmaAnalysisRotors::Five => seq![
            RotorId::I,
            RotorId::II,
            RotorId::III,
            RotorId::IV,
            RotorId::V,
        ],
        EnigmaAnalysisRotors::Eight => seq![
            RotorId::I,
            RotorId::II,
            RotorId::III,
            RotorId::IV,
            RotorId::V,
            RotorId::VI,
            RotorId::VII,
            RotorId::VIII,
        ],
    }
}

/// All triples of the items of a row, repeats included: the first item of the
/// triple changes slowest and the third fastest.
pub open spec fn cube<T>(items: Seq<T>) -> Seq<(T, T, T)> {
    let n = items.len() as int;
    Seq::new(
        (n * n * n) as nat,
        |t: int| (items[t / (n * n)], items[(t / n) % n], items[t % n]),
    )
}

/// Calls `itertools::Itertools::cartesian_product` twice and flattens the
/// outcome with `itertools::cons_tuples`, as the macro `iproduct` of that crate
/// does for three arguments. Taken on trust, as the source of the crate has
/// it: a product walks its second argument once for every item of its first,
/// so the triples of the numbers come out with the first number changing
/// slowest and the third fastest, each triple once.
#[verifier::external_body]
fn cartesian_cube(items: &Vec<u8>) -> (out: Vec<(u8, u8, u8)>)
    requires
        items@.len() <= 26,
    ensures
        out@ == cube(items@),
{
    let pairs = itertools::Itertools::cartesian_product(
        items.iter().copied(),
        items.iter().copied(),
    );
    let triples = itertools::Itertools::cartesian_product(pairs, items.iter().copied());
    itertools::cons_tuples(triples).collect()
}

/// The three wheels of the triple are three different wheels.
pub open spec fn all_different(t: (RotorId, RotorId, RotorId)) -> bool {
    t.0 != t.1 && t.0 != t.2 && t.1 != t.2
}

/// Those of the first `n` triples of a row that are made of three different
/// wheels, in their order.
pub open spec fn different_upto(all: Seq<(RotorId, RotorId, RotorId)>, n: int) -> Seq<
    (RotorId, RotorId, RotorId),
>
    decreases n,
{
    if n <= 0 {
        Seq::empty()
    } else {
        let rest = different_upto(all, n - 1);
        if all_different(all[n - 1]) {
            rest.push(all[n - 1])
        } else {
            rest
        }
    }
}

/// The orders of three different wheels that the search tries, in the order in
/// which it tries them.
pub open spec fn rotor_orders(rotors: EnigmaAnalysisRotors) -> Seq<(RotorId, RotorId, RotorId)> {
    let all = cube(available_rotors(rotors));
    different_upto(all, all.len() as int)
}

/// Lists the orders of three different wheels that can be made of the wheels
/// that are available.
pub fn rotor_triples(rotors: EnigmaAnalysisRotors) -> (orders: Vec<(RotorId, RotorId, RotorId)>)
    ensures
        orders@ == rotor_orders(rotors),
{
    let available: Vec<RotorId> = match rotors {
        EnigmaAnalysisRotors::Three => vec![RotorId::I, RotorId::II, RotorId::III],
        EnigmaAnalysisRotors::Five => vec![
            RotorId::I,
            RotorId::II,
            RotorId::III,
            RotorId::IV,
            RotorId::V,
        ],
        EnigmaAnalysisRotors::Eight => vec![
            RotorId::I,
            RotorId::II,
            RotorId::III,
            RotorId::IV,
            RotorId::V,
            RotorId::VI,
            RotorId::VII,
            RotorId::VIII,
        ],
    };
    let n = available.len();
    let mut places: Vec<u8> = Vec::new();
    let mut p: u8 = 0;
    while (p as usize) < n
        invariant
            p <= n <= 8,
            places@.len() == p,
            forall|k: int| 0 <= k < p ==> #[trigger] places@[k] == k,
        decreases n - p,
    {
        places.push(p);
        p += 1;
    }
    let all = cartesian_cube(&places);
    let ghost wheels = cube(available@);
    proof {
        lemma_cube_of_places(available@, places@);
    }
    let mut orders: Vec<(RotorId, RotorId, RotorId)> = Vec::new();
    let mut i: usize = 0;
    while i < all.len()
        invariant
            i <= all@.len(),
            n == available@.len(),
            all@.len() == wheels.len(),
            wheels == cube(available@),
            forall|t: int|
                0 <= t < all@.len() ==> (#[trigger] all@[t]).0 < n && all@[t].1 < n && all@[t].2
                    < n && wheels[t] == (
                    available@[all@[t].0 as int],
                    available@[all@[t].1 as int],
                    available@[all@[t].2 as int],
                ),
            orders@ == different_upto(wheels, i as int),
        decreases all@.len() - i,
    {
        let (x, y, z) = all[i];
        let a = available[x as usize];
        let b = available[y as usize];
        let c = available[z as usize];
        if a != b && a != c && b != c {
            orders.push((a, b, c));
        }
        i += 1;
    }
    orders
}

/// The triples of a row of items are the items at the places that the
/// triples of the row of their places name.
proof fn lemma_cube_of_places(items: Seq<RotorId>, places: Seq<u8>)
    requires
        items.len() == 3 || items.len() == 5 || items.len() == 8,
        places.len() == items.len(),
        forall|k: int| 0 <= k < places.len() ==> #[trigger] places[k] == k,
    ensures
        cube(places).len() == cube(items).len(),
        forall|t: int|
            0 <= t < cube(places).len() ==> (#[trigger] cube(places)[t]).0 < items.len() && cube(
                places,
            )[t].1 < items.len() && cube(places)[t].2 < items.len() && cube(items)[t] == (
                items[cube(places)[t].0 as int],
                items[cube(places)[t].1 as int],
                items[cube(places)[t].2 as int],
            ),
{
    let n = items.len() as int;
    assert(n * n == if n == 3 {
        9int
    } else if n == 5 {
        25int
    } else {
        64int
    } && n * n * n == if n == 3 {
        27int
    } else if n == 5 {
        125int
    } else {
        512int
    }) by (nonlinear_arith)
        requires
            n == 3 || n == 5 || n == 8,
    ;
    assert forall|t: int| 0 <= t < cube(places).len() implies (#[trigger] cube(places)[t]).0
        < items.len() && cube(places)[t].1 < items.len() && cube(places)[t].2 < items.len()
        && cube(items)[t] == (
        items[cube(places)[t].0 as int],
        items[cube(places)[t].1 as int],
        items[cube(places)[t].2 as int],
    ) by {
        let a = t / (n * n);
        let b = (t / n) % n;
        let c = t % n;
        assert(0 <= a < n && 0 <= b < n && 0 <= c < n);
        assert(places[a] == a && places[b] == b && places[c] == c);
    }
}

/// The key that the search for starting positions tries as number `t` for one
/// order of wheels: the rings at 0, the plugboard as given, and the positions
/// counted through with the left wheel slowest and the right wheel fastest.
pub open spec fn start_candidate(
    order: (RotorId, RotorId, RotorId),
    plugboard: Seq<u8>,
    t: int,
) -> KeyView {
    KeyView {
        left: RotorView { id: order.0, position: t / 676, ring: 0 },
        middle: RotorView { id: order.1, position: (t / 26) % 26, ring: 0 },
        right: RotorView { id: order.2, position: t % 26, ring: 0 },
        plugboard,
    }
}

/// The scores of the 26 * 26 * 26 starting positions of one order of wheels.
pub open spec fn start_scores<F: FitnessFunction>(
    f: &F,
    cipher: Seq<char>,
    order: (RotorId, RotorId, RotorId),
    plugboard: Seq<u8>,
) -> Seq<int> {
    Seq::new(17576, |t: int| key_fitness(f, cipher, start_candidate(order, plugboard, t)))
}

/// The best starting position of one order of wheels, with its score; none
/// where no position scores above the lowest score.
pub open spec fn best_start<F: FitnessFunction>(
    f: &F,
    cipher: Seq<char>,
    order: (RotorId, RotorId, RotorId),
    plugboard: Seq<u8>,
) -> Option<ScoredView> {
    match best_index(start_scores(f, cipher, order, plugboard)) {
        Some(t) => Some(
            ScoredView {
                key: start_candidate(order, plugboard, t),
                score: start_scores(f, cipher, order, plugboard)[t],
            },
        ),
        None => None,
    }
}

/// What a search result is as plain values.
pub open spec fn result_view(r: Option<ScoredEnigmaKey>) -> Option<ScoredView> {
    match r {
        Some(k) => Some(k@),
        None => None,
    }
}

/// Tries all starting positions of one order of wheels, with the rings at 0,
/// and says which scores best.
pub fn best_start_position<F: FitnessFunction>(
    cipher: &str,
    order: (RotorId, RotorId, RotorId),
    plugboard: Plugboard,
    f: &F,
) -> (r: Option<ScoredEnigmaKey>)
    requires
        is_scorable(cipher@),
    ensures
        result_view(r) == best_start(f, cipher@, order, plugboard@),
{
    let ghost scores = start_scores(f, cipher@, order, plugboard@);
    let mut letters: Vec<u8> = Vec::new();
    let mut l: u8 = 0;
    while l < 26
        invariant
            l <= 26,
            letters@.len() == l,
            forall|k: int| 0 <= k < l ==> #[trigger] letters@[k] == k,
        decreases 26 - l,
    {
        letters.push(l);
        l += 1;
    }
    let positions = cartesian_cube(&letters);
    let mut max_fitness: i64 = SCORE_FLOOR;
    let mut best_key: Option<EnigmaKey> = None;
    let mut buf = String::new();
    let ghost mut held: Option<int> = None;
    let mut t: usize = 0;
    while t < positions.len()
        invariant
            t <= 17576,
            positions@.len() == 17576,
            positions@ == cube(letters@),
            letters@.len() == 26,
            forall|k: int| 0 <= k < 26 ==> #[trigger] letters@[k] == k,
            is_scorable(cipher@),
            scores == start_scores(f, cipher@, order, plugboard@),
            held == best_upto(scores, t as int),
            max_fitness == held_score(scores, held),
            match held {
                Some(h) => best_key matches Some(k) && k@ == start_candidate(order, plugboard@, h),
                None => best_key is None,
            },
        decreases 17576 - t,
    {
        let (i, j, k) = positions[t];
        proof {
            let tt = t as int;
            assert(positions@[tt] == (
                letters@[tt / 676],
                letters@[(tt / 26) % 26],
                letters@[tt % 26],
            ));
        }
        let left_rotor = Rotor::new(order.0, i, 0);
        let middle_rotor = Rotor::new(order.1, j, 0);
        let right_rotor = Rotor::new(order.2, k, 0);
        let key = EnigmaKey::new(left_rotor, middle_rotor, right_rotor, plugboard);
        let fitness = fitness_of_key(key, cipher, f, &mut buf);
        if fitness > max_fitness {
            max_fitness = fitness;
            best_key = Some(key);
            proof {
                held = Some(t as int);
            }
        }
        t += 1;
    }
    proof {
        lemma_scan_finds_best(scores);
    }
    match best_key {
        Some(key) => Some(ScoredEnigmaKey { key, score: max_fitness }),
        None => None,
    }
}

/// Calls the parallel `map` of `rayon` over a vector and collects the outcome
/// into a vector: the orders of wheels are handed out to the workers of the
/// pool and each is searched by [`best_start_position`]. Taken on trust, as
/// the documentation of the crate has it: collecting into a vector gives the
/// same vector as mapping and collecting one item after the other, so result
/// `i` is what the search of order `i` returned.
#[verifier::external_body]
fn par_best_start_positions<F: FitnessFunction + Sync>(
    orders: Vec<(RotorId, RotorId, RotorId)>,
    cipher: &str,
    plugboard: Plugboard,
    f: &F,
) -> (out: Vec<Option<ScoredEnigmaKey>>)
    requires
        is_scorable(cipher@),
    ensures
        out@.len() == orders@.len(),
        forall|i: int|
            0 <= i < orders@.len() ==> result_view(#[trigger] out@[i]) == best_start(
                f,
                cipher@,
                orders@[i],
                plugboard@,
            ),
{
    orders.into_par_iter().map(|order| best_start_position(cipher, order, plugboard, f)).collect()
}

/// The keys of a row of keys as plain values.
pub open spec fn views(keys: Seq<ScoredEnigmaKey>) -> Seq<ScoredView> {
    Seq::new(keys.len(), |i: int| keys[i]@)
}

/// The results of the first `n` searches that found a key, in their order.
pub open spec fn winners_upto(results: Seq<Option<ScoredView>>, n: int) -> Seq<ScoredView>
    decreases n,
{
    if n <= 0 {
        Seq::empty()
    } else {
        let rest = winners_upto(results, n - 1);
        match results[n - 1] {
            Some(k) => rest.push(k),
            None => rest,
        }
    }
}

/// The place of the first key, from `from` on, that scores below `score`; the
/// length of the row where there is none.
pub open spec fn first_below(keys: Seq<ScoredView>, score: int, from: int) -> int
    decreases keys.len() - from,
{
    if from < 0 || from >= keys.len() || keys[from].score < score {
        from
    } else {
        first_below(keys, score, from + 1)
    }
}

/// The ranking with one more key: it goes behind all keys that score as high
/// or higher, and before the first that scores lower.
pub open spec fn insert_ranked(keys: Seq<ScoredView>, k: ScoredView) -> Seq<ScoredView> {
    keys.insert(first_below(keys, k.score, 0), k)
}

/// The keys in the order of their scores, highest first. Keys with the same
/// score stay in the order in which they came.
pub open spec fn ranked(keys: Seq<ScoredView>) -> Seq<ScoredView>
    decreases keys.len(),
{
    if keys.len() == 0 {
        Seq::empty()
    } else {
        insert_ranked(ranked(keys.drop_last()), keys.last())
    }
}

/// No key of the row scores higher than a key before it.
pub open spec fn is_descending(keys: Seq<ScoredView>) -> bool {
    forall|i: int, j: int| 0 <= i <= j < keys.len() ==> keys[i].score >= keys[j].score
}

/// The first `required` keys of a row, or all of them where there are fewer.
pub open spec fn top(keys: Seq<ScoredView>, required: nat) -> Seq<ScoredView> {
    if required < keys.len() {
        keys.take(required as int)
    } else {
        keys
    }
}

/// The ranked results of the searches: the keys that were found, highest
/// score first, cut down to the number that is asked for.
pub open spec fn ranking(results: Seq<Option<ScoredView>>, required: nat) -> Seq<ScoredView> {
    top(ranked(winners_upto(results, results.len() as int)), required)
}

/// Where `first_below` points: within the row, behind keys that score no
/// lower than `score`, and at a key that scores lower or at the end.
pub proof fn lemma_first_below(keys: Seq<ScoredView>, score: int, from: int)
    requires
        0 <= from <= keys.len(),
    ensures
        from <= first_below(keys, score, from) <= keys.len(),
        forall|i: int| from <= i < first_below(keys, score, from) ==> keys[i].score >= score,
        first_below(keys, score, from) < keys.len() ==> keys[first_below(
            keys,
            score,
            from,
        )].score < score,
    decreases keys.len() - from,
{
    if from < keys.len() && keys[from].score >= score {
        lemma_first_below(keys, score, from + 1);
    }
}

/// Putting a key into a descending row keeps the row descending and adds the
/// key to what the row holds, and nothing else.
pub proof fn lemma_insert_ranked(keys: Seq<ScoredView>, k: ScoredView)
    requires
        is_descending(keys),
    ensures
        is_descending(insert_ranked(keys, k)),
        insert_ranked(keys, k).len() == keys.len() + 1,
        insert_ranked(keys, k).to_multiset() == keys.to_multiset().insert(k),
{
    let p = first_below(keys, k.score, 0);
    lemma_first_below(keys, k.score, 0);
    let out = keys.insert(p, k);
    vstd::seq_lib::to_multiset_insert(keys, p, k);
    assert forall|i: int, j: int| 0 <= i <= j < out.len() implies out[i].score
        >= out[j].score by {
        if i < p && j > p {
            assert(keys[i].score >= keys[j - 1].score);
        } else if i == p && j > p {
            assert(keys[p].score >= keys[j - 1].score);
        } else if i > p {
            assert(keys[i - 1].score >= keys[j - 1].score);
        } else if j < p {
            assert(keys[i].score >= keys[j].score);
        }
    }
}

/// The ranking of a row is descending and holds what the row holds: every key
/// as often as the row does.
pub proof fn lemma_ranked(keys: Seq<ScoredView>)
    ensures
        is_descending(ranked(keys)),
        ranked(keys).len() == keys.len(),
        ranked(keys).to_multiset() == keys.to_multiset(),
    decreases keys.len(),
{
    if keys.len() > 0 {
        lemma_ranked(keys.drop_last());
        lemma_insert_ranked(ranked(keys.drop_last()), keys.last());
        vstd::seq_lib::to_multiset_build(keys.drop_last(), keys.last());
        assert(keys.drop_last().push(keys.last()) == keys);
    } else {
        assert(keys =~= Seq::empty());
    }
}

/// What holds of every key that a search found holds of every key of the
/// ranking: the ranking holds no key that no search found.
pub proof fn lemma_ranking_keeps(
    results: Seq<Option<ScoredView>>,
    required: nat,
    holds: spec_fn(ScoredView) -> bool,
)
    requires
        forall|j: int|
            0 <= j < results.len() && (#[trigger] results[j]) is Some ==> holds(results[j]->0),
    ensures
        forall|i: int|
            0 <= i < ranking(results, required).len() ==> holds(
                #[trigger] ranking(results, required)[i],
            ),
{
    let winners = winners_upto(results, results.len() as int);
    lemma_winners_keep(results, results.len() as int, holds);
    lemma_ranked(winners);
    let all = ranked(winners);
    assert forall|i: int| 0 <= i < ranking(results, required).len() implies holds(
        #[trigger] ranking(results, required)[i],
    ) by {
        let k = ranking(results, required)[i];
        assert(k == all[i]);
        vstd::seq_lib::to_multiset_contains(all, k);
        vstd::seq_lib::to_multiset_contains(winners, k);
        assert(all.contains(k));
        assert(winners.contains(k));
        let j = choose|j: int| 0 <= j < winners.len() && winners[j] == k;
        assert(holds(winners[j]));
    }
}

/// What holds of every key that a search found holds of every key among the
/// winners.
proof fn lemma_winners_keep(
    results: Seq<Option<ScoredView>>,
    n: int,
    holds: spec_fn(ScoredView) -> bool,
)
    requires
        0 <= n <= results.len(),
        forall|j: int|
            0 <= j < results.len() && (#[trigger] results[j]) is Some ==> holds(results[j]->0),
    ensures
        forall|i: int|
            0 <= i < winners_upto(results, n).len() ==> holds(
                #[trigger] winners_upto(results, n)[i],
            ),
    decreases n,
{
    if n > 0 {
        lemma_winners_keep(results, n - 1, holds);
        let before = winners_upto(results, n - 1);
        let now = winners_upto(results, n);
        assert(results[n - 1] is Some ==> holds(results[n - 1]->0));
        assert forall|i: int| 0 <= i < now.len() implies holds(#[trigger] now[i]) by {
            if i < before.len() {
                assert(now[i] == before[i]);
            }
        }
    }
}

/// Every order of wheels that the search tries is made of three different
/// wheels.
pub proof fn lemma_orders_different(all: Seq<(RotorId, RotorId, RotorId)>, n: int)
    ensures
        forall|i: int|
            0 <= i < different_upto(all, n).len() ==> all_different(
                #[trigger] different_upto(all, n)[i],
            ),
    decreases n,
{
    if n > 0 {
        lemma_orders_different(all, n - 1);
        let before = different_upto(all, n - 1);
        let now = different_upto(all, n);
        assert forall|i: int| 0 <= i < now.len() implies all_different(#[trigger] now[i]) by {
            if i < before.len() {
                assert(now[i] == before[i]);
            }
        }
    }
}

/// A key as the search for the wheels hands it out: three different wheels,
/// the rings at 0, and the plugboard that the search was given.
pub open spec fn is_rotor_configuration(key: KeyView, plugboard: Seq<u8>) -> bool {
    &&& all_different((key.left.id, key.middle.id, key.right.id))
    &&& key.left.ring == 0
    &&& key.middle.ring == 0
    &&& key.right.ring == 0
    &&& key.plugboard == plugboard
    &&& key.wf()
}

/// Ranks the results of the searches: the keys that were found are put in the
/// order of their scores, highest first, and the first `required_keys` of them
/// are kept. Keys that score the same stay in the order of their searches.
pub fn rank_keys(results: Vec<Option<ScoredEnigmaKey>>, required_keys: usize) -> (keys: Vec<
    ScoredEnigmaKey,
>)
    ensures
        views(keys@) == ranking(Seq::new(results@.len(), |i: int| result_view(results@[i])), required_keys as nat),
        is_descending(views(keys@)),
        keys@.len() <= required_keys,
{
    let ghost plain = Seq::new(results@.len(), |i: int| result_view(results@[i]));
    let mut keys: Vec<ScoredEnigmaKey> = Vec::new();
    let mut i: usize = 0;
    while i < results.len()
        invariant
            i <= results@.len(),
            plain == Seq::new(results@.len(), |i: int| result_view(results@[i])),
            views(keys@) == ranked(winners_upto(plain, i as int)),
        decreases results@.len() - i,
    {
        let ghost before = winners_upto(plain, i as int);
        match results[i] {
            Some(key) => {
                let ghost row = views(keys@);
                let mut p: usize = 0;
                while p < keys.len() && keys[p].score() >= key.score()
                    invariant
                        p <= keys@.len(),
                        row == views(keys@),
                        first_below(row, key@.score, 0) == first_below(row, key@.score, p as int),
                    decreases keys@.len() - p,
                {
                    p += 1;
                }
                keys.insert(p, key);
                proof {
                    let after = winners_upto(plain, i + 1);
                    assert(after.drop_last() == before);
                }
            },
            None => {},
        }
        i += 1;
    }
    proof {
        lemma_ranked(winners_upto(plain, results@.len() as int));
    }
    if required_keys < keys.len() {
        keys.truncate(required_keys);
    }
    proof {
        let full = ranked(winners_upto(plain, results@.len() as int));
        assert(views(keys@) =~= top(full, required_keys as nat));
    }
    keys
}

/// The outcome of the search for the order of the wheels and their starting
/// positions: for every order of three different wheels the best starting
/// position, ranked by score and cut down to the number asked for.
pub open spec fn rotor_configurations<F: FitnessFunction>(
    f: &F,
    cipher: Seq<char>,
    rotors: EnigmaAnalysisRotors,
    plugboard: Seq<u8>,
    required: nat,
) -> Seq<ScoredView> {
    let orders = rotor_orders(rotors);
    ranking(
        Seq::new(orders.len(), |i: int| best_start(f, cipher, orders[i], plugboard)),
        required,
    )
}

/// Searches for the order of the wheels and their starting positions. Every
/// order of three different wheels is tried at all starting positions, with
/// the rings at 0 and the plugboard as given, and the best position of each
/// order is kept. The orders are searched in parallel; the outcome is the
/// same whatever way the work is shared out.
pub fn find_rotor_configurations<F: FitnessFunction + Sync>(
    cipher: &str,
    rotors: EnigmaAnalysisRotors,
    plugboard: &[(char, char)],
    required_keys: usize,
    f: &F,
) -> (keys: Vec<ScoredEnigmaKey>)
    requires
        is_scorable(cipher@),
        valid_connections(plugboard@),
    ensures
        views(keys@) == rotor_configurations(
            f,
            cipher@,
            rotors,
            decode_spec(plugboard@),
            required_keys as nat,
        ),
        is_descending(views(keys@)),
        keys@.len() <= required_keys,
        forall|i: int|
            0 <= i < keys@.len() ==> is_rotor_configuration(
                (#[trigger] views(keys@)[i]).key,
                decode_spec(plugboard@),
            ),
{
    let ghost table = decode_spec(plugboard@);
    let board = Plugboard::new(plugboard);
    let orders = rotor_triples(rotors);
    let ghost order_row = orders@;
    let results = par_best_start_positions(orders, cipher, board, f);
    proof {
        let found = Seq::new(order_row.len(), |i: int| best_start(f, cipher@, order_row[i], table));
        assert(Seq::new(results@.len(), |i: int| result_view(results@[i])) =~= found);
        let all = cube(available_rotors(rotors));
        lemma_orders_different(all, all.len() as int);
        lemma_decode_involution(plugboard@);
        let holds = |k: ScoredView| is_rotor_configuration(k.key, table);
        lemma_ranking_keeps(found, required_keys as nat, holds);
    }
    rank_keys(results, required_keys)
}

} // verus!
