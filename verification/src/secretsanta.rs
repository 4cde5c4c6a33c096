use vstd::prelude::*;
use vstd::string::*;
use rand::seq::SliceRandom;
use crate::error::SecretSantaError;
use crate::participant::{
    has_participant_name, instruction_text, line_name, missing_name_msg, parse_instruction,
    parsed, texts, Participant, ParticipantView,
};

verus! {

/// The participants of one run, each name once, in the order they were added.
pub struct SecretSanta {
    participants: Vec<Participant>,
}

/// The names of the participants, in order.
pub open spec fn names_of(ps: Seq<ParticipantView>) -> Seq<Seq<char>> {
    Seq::new(ps.len(), |i: int| ps[i].name)
}

/// No two participants have the same name.
pub open spec fn unique_names(ps: Seq<ParticipantView>) -> bool {
    forall|i: int, j: int| 0 <= i < j < ps.len() ==> #[trigger] ps[i].name != #[trigger] ps[j].name
}

/// Some participant is called `name`.
pub open spec fn has_participant(ps: Seq<ParticipantView>, name: Seq<char>) -> bool {
    exists|i: int| 0 <= i < ps.len() && #[trigger] ps[i].name == name
}

/// Some participant is paired with `name`.
pub open spec fn is_taken(ps: Seq<ParticipantView>, name: Seq<char>) -> bool {
    exists|j: int| 0 <= j < ps.len() && #[trigger] ps[j].pairing == Some(name)
}

/// The names among the first `k` participants that nobody is paired with yet.
pub open spec fn open_receivers(ps: Seq<ParticipantView>, k: int) -> Seq<Seq<char>>
    decreases k,
{
    if k <= 0 || k > ps.len() {
        Seq::empty()
    } else if !is_taken(ps, ps[k - 1].name) {
        open_receivers(ps, k - 1).push(ps[k - 1].name)
    } else {
        open_receivers(ps, k - 1)
    }
}

/// What participant `i` can still be paired with: the open names that are
/// eligible for it.
pub open spec fn feasible(ps: Seq<ParticipantView>, i: int) -> Seq<Seq<char>> {
    ps[i].matches_of(open_receivers(ps, ps.len() as int))
}

/// The indices of the participants without a pairing.
pub open spec fn unpaired(ps: Seq<ParticipantView>) -> Set<int> {
    Set::new(|i: int| 0 <= i < ps.len() && ps[i].pairing is None)
}

/// The pairing of participant `j`, where it has one, names a participant.
pub open spec fn resolved_at(ps: Seq<ParticipantView>, j: int) -> bool {
    ps[j].pairing matches Some(g) ==> has_participant(ps, g)
}

/// The first participant whose pairing names nobody in the registry.
pub open spec fn is_first_unresolved(ps: Seq<ParticipantView>, i: int) -> bool {
    &&& 0 <= i < ps.len()
    &&& !resolved_at(ps, i)
    &&& forall|j: int| 0 <= j < i ==> #[trigger] resolved_at(ps, j)
}

/// Every pairing names a participant.
pub open spec fn all_resolved(ps: Seq<ParticipantView>) -> bool {
    forall|j: int| 0 <= j < ps.len() ==> #[trigger] resolved_at(ps, j)
}

/// Participant `i` is the one to pair next: the first of those without a
/// pairing that have the fewest feasible names.
pub open spec fn is_most_constrained(ps: Seq<ParticipantView>, i: int) -> bool {
    &&& 0 <= i < ps.len()
    &&& ps[i].pairing is None
    &&& forall|j: int|
        0 <= j < ps.len() && (#[trigger] ps[j]).pairing is None ==> feasible(ps, j).len()
            >= feasible(ps, i).len()
    &&& forall|j: int|
        0 <= j < i && (#[trigger] ps[j]).pairing is None ==> feasible(ps, j).len() > feasible(
            ps,
            i,
        ).len()
}

/// Everybody has a pairing.
pub open spec fn everybody_paired(ps: Seq<ParticipantView>) -> bool {
    forall|j: int| 0 <= j < ps.len() ==> (#[trigger] ps[j]).pairing is Some
}

/// Somebody has no pairing and no feasible name.
pub open spec fn somebody_stuck(ps: Seq<ParticipantView>) -> bool {
    exists|i: int|
        0 <= i < ps.len() && (#[trigger] ps[i]).pairing is None && feasible(ps, i).len() == 0
}

/// `after` holds the same people as `before`, and every pairing that
/// `before` had is still there.
pub open spec fn same_people(before: Seq<ParticipantView>, after: Seq<ParticipantView>) -> bool {
    &&& after.len() == before.len()
    &&& forall|i: int|
        0 <= i < before.len() ==> {
            &&& (#[trigger] after[i]).name == before[i].name
            &&& after[i].blocked == before[i].blocked
            &&& (before[i].pairing is Some ==> after[i].pairing == before[i].pairing)
        }
}

/// Participant `i` got its pairing from the engine, and the pairing is sound:
/// a participant's name, not its own, not blocked, and nobody else's pairing.
pub open spec fn soundly_paired(before: Seq<ParticipantView>, after: Seq<ParticipantView>, i: int) -> bool {
    before[i].pairing is None && after[i].pairing is Some ==> {
        let g = after[i].pairing.unwrap();
        &&& after[i].eligible(g)
        &&& has_participant(after, g)
        &&& forall|j: int| 0 <= j < after.len() && j != i ==> (#[trigger] after[j]).pairing != Some(g)
    }
}

/// `after` completes `before`: everybody is paired, every pairing names a
/// participant, and each pairing that the engine made is sound.
pub open spec fn is_assignment(before: Seq<ParticipantView>, after: Seq<ParticipantView>) -> bool {
    &&& same_people(before, after)
    &&& all_resolved(after)
    &&& everybody_paired(after)
    &&& forall|i: int| 0 <= i < after.len() ==> #[trigger] soundly_paired(before, after, i)
}

/// The message of the error for a second instruction on one name.
pub open spec fn duplicate_msg(name: Seq<char>) -> Seq<char> {
    "recipient "@ + name + " already exists"@
}

/// The message of the error for a participant that nothing can be found for.
pub open spec fn restrictive_msg(name: Seq<char>) -> Seq<char> {
    "Instructions are too restrictive for "@ + name
}

proof fn lemma_matches_member(p: ParticipantView, names: Seq<Seq<char>>, k: int)
    requires
        0 <= k < p.matches_of(names).len(),
    ensures
        p.eligible(p.matches_of(names)[k]),
        names.contains(p.matches_of(names)[k]),
    decreases names.len(),
{
    if names.len() > 0 {
        let rest = p.matches_of(names.drop_last());
        if k < rest.len() {
            lemma_matches_member(p, names.drop_last(), k);
            let w = choose|w: int| 0 <= w < names.drop_last().len() && names.drop_last()[w] == rest[k];
            assert(names[w] == rest[k]);
        } else {
            assert(names[names.len() - 1] == names.last());
        }
    }
}

proof fn lemma_open_member(ps: Seq<ParticipantView>, k: int, x: Seq<char>)
    requires
        0 <= k <= ps.len(),
        open_receivers(ps, k).contains(x),
    ensures
        has_participant(ps, x),
        !is_taken(ps, x),
    decreases k,
{
    if k > 0 {
        let rest = open_receivers(ps, k - 1);
        let w = choose|w: int| 0 <= w < open_receivers(ps, k).len() && open_receivers(ps, k)[w] == x;
        if w < rest.len() {
            assert(rest[w] == x);
            lemma_open_member(ps, k - 1, x);
        } else {
            assert(ps[k - 1].name == x);
        }
    }
}

/// What adding a line makes of the participants: one more, as the line
/// says; or the message of the error, for a line without a name and for a
/// name that is already there.
pub open spec fn added(ps: Seq<ParticipantView>, line: Seq<char>) -> Result<
    Seq<ParticipantView>,
    Seq<char>,
> {
    if !has_participant_name(line) {
        Err(missing_name_msg(instruction_text(line)))
    } else if has_participant(ps, line_name(line)) {
        Err(duplicate_msg(line_name(line)))
    } else {
        Ok(ps.push(parsed(line)))
    }
}

/// A name is added once. After a line was added, a second line with the
/// same name is refused as a duplicate, whatever else it says; the
/// participants then stay as they were, as every refusal leaves them.
pub proof fn lemma_second_add_is_refused(
    ps: Seq<ParticipantView>,
    first: Seq<char>,
    second: Seq<char>,
)
    requires
        added(ps, first) is Ok,
        has_participant_name(second),
        line_name(second) == line_name(first),
    ensures
        added(ps, first) matches Ok(after) && added(after, second) == Err::<
            Seq<ParticipantView>,
            Seq<char>,
        >(duplicate_msg(line_name(first))),
{
    let after = ps.push(parsed(first));
    assert(after[ps.len() as int].name == line_name(first));
}

/// Adding keeps the names unique.
pub proof fn lemma_add_keeps_names_unique(ps: Seq<ParticipantView>, line: Seq<char>)
    requires
        unique_names(ps),
        added(ps, line) is Ok,
    ensures
        added(ps, line) matches Ok(after) && unique_names(after),
{
}

/// The run was refused with `msg`: for the first participant whose
/// pairing names nobody, with nothing changed; or, where every pairing
/// names somebody, for the participant to pair next, which has no feasible
/// name left.
pub open spec fn is_refusal(
    before: Seq<ParticipantView>,
    after: Seq<ParticipantView>,
    msg: Seq<char>,
) -> bool {
    exists|i: int|
        {
            &&& 0 <= i < after.len()
            &&& msg == restrictive_msg((#[trigger] after[i]).name)
            &&& (is_first_unresolved(before, i) && after == before) || (all_resolved(before)
                && is_most_constrained(after, i) && feasible(after, i).len() == 0)
        }
}

/// The participant to pair next.
pub open spec fn next_giver(ps: Seq<ParticipantView>) -> int {
    choose|i: int| is_most_constrained(ps, i)
}

/// The candidate that is taken: the only one; else the one at the position
/// that the next pick gives, modulo their number; the first one when no
/// pick is left.
pub open spec fn picked(candidates: Seq<Seq<char>>, picks: Seq<usize>) -> Seq<char> {
    if candidates.len() == 1 || picks.len() == 0 {
        candidates[0]
    } else {
        candidates[(picks[0] as int) % (candidates.len() as int)]
    }
}

/// The picks that are left after one of the candidates was taken.
pub open spec fn picks_left(candidates: Seq<Seq<char>>, picks: Seq<usize>) -> Seq<usize> {
    if candidates.len() == 1 || picks.len() == 0 {
        picks
    } else {
        picks.skip(1)
    }
}

/// Where the engine ends when it takes its choices from `picks`, in at
/// most `steps` pairings: the participants as they are then, and the
/// participant that it could find nothing for, if it stopped at one.
pub open spec fn completed(ps: Seq<ParticipantView>, picks: Seq<usize>, steps: nat) -> (
    Seq<ParticipantView>,
    Option<int>,
)
    decreases steps,
{
    if steps == 0 || everybody_paired(ps) {
        (ps, None)
    } else {
        let giver = next_giver(ps);
        let candidates = feasible(ps, giver);
        if candidates.len() == 0 {
            (ps, Some(giver))
        } else {
            completed(
                ps.update(giver, ps[giver].paired(picked(candidates, picks))),
                picks_left(candidates, picks),
                (steps - 1) as nat,
            )
        }
    }
}

/// The registry and the result are what `outcome` says: the participants
/// are its participants; the result is `Ok` where it names nobody, and
/// else the error for the participant that it names.
pub open spec fn is_outcome(
    outcome: (Seq<ParticipantView>, Option<int>),
    after: Seq<ParticipantView>,
    r: Result<(), SecretSantaError>,
) -> bool {
    &&& after == outcome.0
    &&& match r {
        Ok(_) => outcome.1 is None,
        Err(e) => outcome.1 matches Some(i) && e.msg@ == restrictive_msg(outcome.0[i].name),
    }
}

/// The participants `ps`, with `steps` pairings to go, are where a run
/// from `start` stands after the picks of `trace`: whatever picks come
/// next, the run ends as the run from `start` does with `trace` before them.
pub open spec fn follows(
    start: Seq<ParticipantView>,
    trace: Seq<usize>,
    ps: Seq<ParticipantView>,
    steps: nat,
) -> bool {
    forall|rest: Seq<usize>| #[trigger]
        completed(ps, rest, steps) == completed(start, trace + rest, start.len())
}

/// The participants and the result are where the engine ends for some
/// picks.
pub open spec fn is_possible_outcome(
    before: Seq<ParticipantView>,
    after: Seq<ParticipantView>,
    r: Result<(), SecretSantaError>,
) -> bool {
    exists|picks: Seq<usize>| is_outcome(#[trigger] completed(before, picks, before.len()), after, r)
}

/// Only one participant is the one to pair next.
pub proof fn lemma_most_constrained_is_one(ps: Seq<ParticipantView>, i: int)
    requires
        is_most_constrained(ps, i),
    ensures
        forall|j: int| is_most_constrained(ps, j) ==> j == i,
        next_giver(ps) == i,
{
    assert forall|k: int| is_most_constrained(ps, k) implies k == i by {
        if k < i {
            assert(ps[k].pairing is None);
            assert(feasible(ps, k).len() > feasible(ps, i).len());
            assert(ps[i].pairing is None);
            assert(feasible(ps, i).len() >= feasible(ps, k).len());
        } else if i < k {
            assert(ps[i].pairing is None);
            assert(feasible(ps, i).len() > feasible(ps, k).len());
            assert(ps[k].pairing is None);
            assert(feasible(ps, k).len() >= feasible(ps, i).len());
        }
    }
}

/// Pairing the next participant with its candidate at `k` is the step
/// that the pick `k` makes; where there is one candidate only, the step
/// that is made without a pick.
proof fn lemma_trace_step(
    start: Seq<ParticipantView>,
    trace: Seq<usize>,
    now: Seq<ParticipantView>,
    steps: nat,
    giver: int,
    k: usize,
)
    requires
        follows(start, trace, now, steps),
        steps > 0,
        is_most_constrained(now, giver),
        0 <= k < feasible(now, giver).len(),
    ensures
        follows(
            start,
            if feasible(now, giver).len() == 1 {
                trace
            } else {
                trace.push(k)
            },
            now.update(giver, now[giver].paired(feasible(now, giver)[k as int])),
            (steps - 1) as nat,
        ),
{
    let c = feasible(now, giver);
    let cur = now.update(giver, now[giver].paired(c[k as int]));
    let after = if c.len() == 1 {
        trace
    } else {
        trace.push(k)
    };
    lemma_most_constrained_is_one(now, giver);
    assert(!everybody_paired(now));
    assert forall|rest: Seq<usize>| #[trigger]
        completed(cur, rest, (steps - 1) as nat) == completed(start, after + rest, start.len()) by {
        if c.len() == 1 {
            assert(completed(now, rest, steps) == completed(start, trace + rest, start.len()));
        } else {
            let more = seq![k] + rest;
            assert(trace + more =~= after + rest);
            assert(completed(now, more, steps) == completed(start, trace + more, start.len()));
            assert(more[0] == k);
            assert(more.skip(1) =~= rest);
            vstd::arithmetic::div_mod::lemma_small_mod(k as nat, c.len());
        }
    }
}

/// One step of the engine keeps what holds of a run: the people stay, every
/// pairing names somebody, each pairing made is sound, and the participant
/// that was paired is no longer without a pairing.
proof fn lemma_pairing_step(
    start: Seq<ParticipantView>,
    now: Seq<ParticipantView>,
    giver: int,
    k: int,
)
    requires
        same_people(start, now),
        all_resolved(now),
        forall|i: int| 0 <= i < now.len() ==> #[trigger] soundly_paired(start, now, i),
        is_most_constrained(now, giver),
        0 <= k < feasible(now, giver).len(),
    ensures
        ({
            let cur = now.update(giver, now[giver].paired(feasible(now, giver)[k]));
            &&& same_people(start, cur)
            &&& all_resolved(cur)
            &&& forall|i: int| 0 <= i < cur.len() ==> #[trigger] soundly_paired(start, cur, i)
            &&& unpaired(cur) == unpaired(now).remove(giver)
            &&& !everybody_paired(now)
            &&& !somebody_stuck(now)
        }),
{
    let receiver = feasible(now, giver)[k];
    let cur = now.update(giver, now[giver].paired(receiver));
    lemma_matches_member(now[giver], open_receivers(now, now.len() as int), k);
    lemma_open_member(now, now.len() as int, receiver);
    assert(unpaired(cur) =~= unpaired(now).remove(giver));
    let w = choose|w: int| 0 <= w < now.len() && #[trigger] now[w].name == receiver;
    assert(cur[w].name == receiver);
    assert forall|j: int| 0 <= j < cur.len() implies #[trigger] resolved_at(cur, j) by {
        if cur[j].pairing is Some {
            let g = cur[j].pairing.unwrap();
            if j == giver {
                assert(cur[w].name == g);
            } else {
                assert(now[j].pairing == Some(g));
                assert(resolved_at(now, j));
                let v = choose|v: int| 0 <= v < now.len() && #[trigger] now[v].name == g;
                assert(cur[v].name == g);
            }
        }
    }
    assert forall|i: int| 0 <= i < cur.len() implies #[trigger] soundly_paired(start, cur, i) by {
        if start[i].pairing is None && cur[i].pairing is Some {
            let g = cur[i].pairing.unwrap();
            if i == giver {
                assert forall|j: int| 0 <= j < cur.len() && j != i implies (#[trigger] cur[j]).pairing
                    != Some(g) by {
                    assert(now[j].pairing == cur[j].pairing);
                }
            } else {
                assert(soundly_paired(start, now, i));
                assert(now[i].pairing == Some(g));
                let v = choose|v: int| 0 <= v < now.len() && #[trigger] now[v].name == g;
                assert(cur[v].name == g);
                assert forall|j: int| 0 <= j < cur.len() && j != i implies (#[trigger] cur[j]).pairing
                    != Some(g) by {
                    if j != giver {
                        assert(now[j].pairing == cur[j].pairing);
                    }
                }
            }
        }
    }
    assert(now[giver].pairing is None);
}

/// What the participants are paired with, in order (for one without a
/// pairing, nothing is said).
pub open spec fn pairings_of(ps: Seq<ParticipantView>) -> Seq<Seq<char>> {
    Seq::new(ps.len(), |i: int| ps[i].pairing.unwrap())
}

/// The pairings that the instructions pinned fit together: none pairs a
/// participant with itself or with a name that it blocks, and no name is
/// pinned twice.
pub open spec fn pinned_soundly(ps: Seq<ParticipantView>) -> bool {
    forall|i: int|
        0 <= i < ps.len() ==> ((#[trigger] ps[i]).pairing matches Some(g) ==> {
            &&& ps[i].eligible(g)
            &&& forall|j: int| 0 <= j < ps.len() && j != i ==> (#[trigger] ps[j]).pairing != Some(g)
        })
}

/// A completed assignment is a bijection. Where the names are unique and
/// the pinned pairings fit together, after a successful run everybody has
/// a pairing, nobody is paired with itself or with a name that it blocks,
/// and the pairings are the participants' names, each exactly once.
pub proof fn lemma_assignment_is_bijection(before: Seq<ParticipantView>, after: Seq<ParticipantView>)
    requires
        unique_names(before),
        pinned_soundly(before),
        is_assignment(before, after),
    ensures
        forall|i: int|
            0 <= i < after.len() ==> (#[trigger] after[i]).pairing is Some && after[i].eligible(
                after[i].pairing.unwrap(),
            ),
        names_of(after).no_duplicates(),
        pairings_of(after).no_duplicates(),
        pairings_of(after).to_set() == names_of(after).to_set(),
        pairings_of(after).to_multiset() == names_of(after).to_multiset(),
{
    let names = names_of(after);
    let pairs = pairings_of(after);
    assert forall|i: int| 0 <= i < after.len() implies (#[trigger] after[i]).pairing is Some
        && after[i].eligible(after[i].pairing.unwrap()) by {
        assert(after[i].pairing is Some);
        assert(soundly_paired(before, after, i));
        if before[i].pairing is Some {
            assert(before[i].pairing == after[i].pairing);
        }
    }
    assert forall|i: int, j: int| 0 <= i < j < names.len() implies names[i] != names[j] by {
        assert(after[i].name == before[i].name);
        assert(after[j].name == before[j].name);
    }
    assert forall|i: int, j: int| 0 <= i < pairs.len() && 0 <= j < pairs.len() && i != j implies pairs[i] != pairs[j] by {
        assert(after[i].pairing is Some && after[j].pairing is Some);
        assert(soundly_paired(before, after, i));
        assert(soundly_paired(before, after, j));
        if before[i].pairing is Some && before[j].pairing is Some {
            assert(before[i].pairing == after[i].pairing);
            assert(before[j].pairing == after[j].pairing);
        }
    }
    assert forall|g: Seq<char>| pairs.to_set().contains(g) implies names.to_set().contains(g) by {
        let i = choose|i: int| 0 <= i < pairs.len() && pairs[i] == g;
        assert(after[i].pairing == Some(g));
        assert(resolved_at(after, i));
        let w = choose|w: int| 0 <= w < after.len() && #[trigger] after[w].name == g;
        assert(names[w] == g);
    }
    names.unique_seq_to_set();
    pairs.unique_seq_to_set();
    vstd::seq_lib::seq_to_set_is_finite(names);
    vstd::seq_lib::seq_to_set_is_finite(pairs);
    vstd::set_lib::lemma_subset_equality(pairs.to_set(), names.to_set());
    names.lemma_multiset_has_no_duplicates();
    pairs.lemma_multiset_has_no_duplicates();
    names.to_multiset_ensures();
    pairs.to_multiset_ensures();
    assert forall|g: Seq<char>| pairs.to_multiset().count(g) == names.to_multiset().count(g) by {
        assert(pairs.contains(g) <==> pairs.to_set().contains(g));
        assert(names.contains(g) <==> names.to_set().contains(g));
    }
    assert(pairs.to_multiset() =~= names.to_multiset());
}

impl View for SecretSanta {
    type V = Seq<ParticipantView>;

    closed spec fn view(&self) -> Seq<ParticipantView> {
        self.participants@.map_values(|p: Participant| p@)
    }
}

impl SecretSanta {
    /// The registry holds each name once.
    pub open spec fn wf(&self) -> bool {
        unique_names(self@)
    }

    /// An empty registry.
    pub fn new() -> (r: SecretSanta)
        ensures
            r@ == Seq::<ParticipantView>::empty(),
            r.wf(),
    {
        let r = SecretSanta { participants: Vec::new() };
        assert(r@ =~= Seq::<ParticipantView>::empty());
        r
    }

    /// The position of the participant called `name`.
    fn find(&self, name: &String) -> (r: Option<usize>)
        ensures
            match r {
                Some(i) => i < self@.len() && self@[i as int].name == name@,
                None => !has_participant(self@, name@),
            },
    {
        let mut i: usize = 0;
        while i < self.participants.len()
            invariant
                i <= self.participants.len(),
                forall|j: int| 0 <= j < i ==> #[trigger] self.participants@[j].name@ != name@,
            decreases self.participants.len() - i,
        {
            if self.participants[i].name == *name {
                return Some(i);
            }
            i += 1;
        }
        None
    }

    /// Whether a participant is called `name`.
    pub fn contains(&self, name: &str) -> (r: bool)
        ensures
            r == has_participant(self@, name@),
    {
        let key = String::from_str(name);
        self.find(&key).is_some()
    }

    /// The participant called `name`.
    pub fn get_name(&self, name: &str) -> (r: Option<&Participant>)
        ensures
            match r {
                Some(p) => p.name@ == name@ && self@.contains(p@),
                None => !has_participant(self@, name@),
            },
    {
        let key = String::from_str(name);
        match self.find(&key) {
            Some(i) => Some(&self.participants[i]),
            None => None,
        }
    }

    /// The names of all participants, in the order they were added.
    pub fn names(&self) -> (r: Vec<String>)
        ensures
            texts(r@) == names_of(self@),
    {
        let mut out: Vec<String> = Vec::new();
        let mut i: usize = 0;
        while i < self.participants.len()
            invariant
                i <= self.participants.len(),
                out@.len() == i,
                forall|j: int| 0 <= j < i ==> #[trigger] out@[j]@ == self.participants@[j].name@,
            decreases self.participants.len() - i,
        {
            let n = self.participants[i].name.clone();
            out.push(n);
            i += 1;
        }
        assert(texts(out@) =~= names_of(self@));
        out
    }

    /// Adds what one line of instructions says. A line without a name and a
    /// name that is already there are refused, and the registry stays as it was.
    pub fn add_instruction(&mut self, instruction: &str) -> (r: Result<(), SecretSantaError>)
        ensures
            old(self).wf() ==> final(self).wf(),
            match r {
                Ok(_) => added(old(self)@, instruction@) == Ok::<Seq<ParticipantView>, Seq<char>>(
                    final(self)@,
                ),
                Err(e) => added(old(self)@, instruction@) == Err::<Seq<ParticipantView>, Seq<char>>(
                    e.msg@,
                ) && final(self)@ == old(self)@,
            },
    {
        let part = match parse_instruction(instruction) {
            Ok(p) => p,
            Err(e) => {
                return Err(e);
            },
        };
        if self.find(&part.name).is_some() {
            let msg = String::from_str("recipient ").concat(part.name.as_str()).concat(
                " already exists",
            );
            return Err(SecretSantaError::new(msg));
        }
        self.participants.push(part);
        assert(self@ =~= old(self)@.push(parsed(instruction@)));
        Ok(())
    }

    /// Pairs participant `giver` with `receiver`.
    pub fn assign(&mut self, giver: usize, receiver: String)
        requires
            giver < old(self)@.len(),
        ensures
            final(self)@ == old(self)@.update(
                giver as int,
                old(self)@[giver as int].paired(receiver@),
            ),
    {
        self.participants[giver].paired_with = Some(receiver);
        assert(self@ =~= old(self)@.update(
            giver as int,
            old(self)@[giver as int].paired(receiver@),
        ));
    }

    /// Whether some participant is paired with `name`.
    fn taken(&self, name: &String) -> (r: bool)
        ensures
            r == is_taken(self@, name@),
    {
        let mut j: usize = 0;
        while j < self.participants.len()
            invariant
                j <= self.participants.len(),
                forall|k: int| 0 <= k < j ==> (#[trigger] self.participants@[k])@.pairing != Some(name@),
            decreases self.participants.len() - j,
        {
            let hit = match &self.participants[j].paired_with {
                Some(g) => *g == *name,
                None => false,
            };
            if hit {
                assert(self@[j as int].pairing == Some(name@));
                return true;
            }
            j += 1;
        }
        false
    }

    /// The names that nobody is paired with yet, in the registry's order.
    pub fn open_names(&self) -> (r: Vec<String>)
        ensures
            texts(r@) == open_receivers(self@, self@.len() as int),
    {
        let mut out: Vec<String> = Vec::new();
        let mut k: usize = 0;
        assert(texts(out@) =~= open_receivers(self@, 0));
        while k < self.participants.len()
            invariant
                k <= self.participants.len(),
                texts(out@) == open_receivers(self@, k as int),
            decreases self.participants.len() - k,
        {
            if !self.taken(&self.participants[k].name) {
                let ghost before = out@;
                let n = self.participants[k].name.clone();
                out.push(n);
                assert(texts(out@) =~= texts(before).push(self@[k as int].name));
            }
            k += 1;
        }
        out
    }

    /// The first participant whose pairing names nobody in the registry.
    pub fn unresolved_reference(&self) -> (r: Option<usize>)
        ensures
            match r {
                Some(i) => is_first_unresolved(self@, i as int),
                None => all_resolved(self@),
            },
    {
        let mut i: usize = 0;
        while i < self.participants.len()
            invariant
                i <= self.participants.len(),
                forall|j: int| 0 <= j < i ==> #[trigger] resolved_at(self@, j),
            decreases self.participants.len() - i,
        {
            let missing = match &self.participants[i].paired_with {
                Some(g) => self.find(g).is_none(),
                None => false,
            };
            if missing {
                return Some(i);
            }
            i += 1;
        }
        None
    }

    /// The participant to pair next, with the names it can still be paired
    /// with: the first of those that have the fewest. `None` when everybody
    /// is paired.
    pub fn next_choice(&self) -> (r: Option<(usize, Vec<String>)>)
        ensures
            match r {
                Some((i, candidates)) => is_most_constrained(self@, i as int) && texts(candidates@)
                    == feasible(self@, i as int),
                None => everybody_paired(self@),
            },
    {
        let open = self.open_names();
        let mut best: Option<(usize, Vec<String>)> = None;
        let mut i: usize = 0;
        while i < self.participants.len()
            invariant
                i <= self.participants.len(),
                texts(open@) == open_receivers(self@, self@.len() as int),
                match best {
                    Some((b, candidates)) => {
                        &&& b < i
                        &&& self@[b as int].pairing is None
                        &&& texts(candidates@) == feasible(self@, b as int)
                        &&& forall|j: int|
                            0 <= j < i && (#[trigger] self@[j]).pairing is None ==> feasible(
                                self@,
                                j,
                            ).len() >= feasible(self@, b as int).len()
                        &&& forall|j: int|
                            0 <= j < b && (#[trigger] self@[j]).pairing is None ==> feasible(
                                self@,
                                j,
                            ).len() > feasible(self@, b as int).len()
                    },
                    None => forall|j: int| 0 <= j < i ==> (#[trigger] self@[j]).pairing is Some,
                },
            decreases self.participants.len() - i,
        {
            if self.participants[i].paired_with.is_none() {
                let found = self.participants[i].find_matches(&open);
                assert(texts(found@).len() == found@.len());
                let better = match &best {
                    Some((_, candidates)) => {
                        assert(texts(candidates@).len() == candidates@.len());
                        found.len() < candidates.len()
                    },
                    None => true,
                };
                if better {
                    best = Some((i, found));
                }
            }
            i += 1;
        }
        best
    }

    /// Completes the pairings, with the random choices taken from `source`
    /// where there is one.
    fn complete(&mut self, source: Option<&Vec<usize>>) -> (r: Result<(), SecretSantaError>)
        ensures
            same_people(old(self)@, final(self)@),
            forall|i: int|
                0 <= i < final(self)@.len() ==> #[trigger] soundly_paired(
                    old(self)@,
                    final(self)@,
                    i,
                ),
            match r {
                Ok(_) => is_assignment(old(self)@, final(self)@),
                Err(e) => is_refusal(old(self)@, final(self)@, e.msg@),
            },
            !all_resolved(old(self)@) ==> r is Err,
            all_resolved(old(self)@) && everybody_paired(old(self)@) ==> r is Ok,
            somebody_stuck(old(self)@) ==> r is Err,
            all_resolved(old(self)@) ==> (source matches Some(picks) ==> is_outcome(
                completed(old(self)@, picks@, old(self)@.len()),
                final(self)@,
                r,
            )),
            all_resolved(old(self)@) ==> is_possible_outcome(old(self)@, final(self)@, r),
    {
        match self.unresolved_reference() {
            Some(i) => {
                assert(self@[i as int] == self.participants@[i as int]@);
                let msg = String::from_str("Instructions are too restrictive for ").concat(
                    self.participants[i].name.as_str(),
                );
                return Err(SecretSantaError::new(msg));
            },
            None => {},
        }
        let ghost start = self@;
        let ghost mut first = true;
        let ghost mut fuel: nat = start.len();
        let ghost mut trace: Seq<usize> = Seq::empty();
        let mut used: usize = 0;
        proof {
            assert forall|rest: Seq<usize>| #[trigger]
                completed(start, rest, fuel) == completed(start, trace + rest, start.len()) by {
                assert(trace + rest =~= rest);
            }
            vstd::set_lib::lemma_int_range(0, self@.len() as int);
            vstd::set_lib::lemma_len_subset(
                unpaired(self@),
                vstd::set_lib::set_int_range(0, self@.len() as int),
            );
            if source is Some {
                assert(source.unwrap()@.skip(0) =~= source.unwrap()@);
            }
        }
        loop
            invariant
                same_people(start, self@),
                start == old(self)@,
                all_resolved(start),
                all_resolved(self@),
                first ==> self@ == start,
                !first ==> !everybody_paired(start) && !somebody_stuck(start),
                unpaired(self@).finite(),
                unpaired(self@).len() <= fuel,
                forall|i: int| 0 <= i < self@.len() ==> #[trigger] soundly_paired(start, self@, i),
                source matches Some(picks) ==> used <= picks@.len() && completed(
                    start,
                    picks@,
                    start.len(),
                ) == completed(self@, picks@.skip(used as int), fuel),
                follows(start, trace, self@, fuel),
            decreases unpaired(self@).len(),
        {
            let ghost now = self@;
            let ghost used_before = used;
            proof {
                let none = Seq::<usize>::empty();
                assert(trace + none =~= trace);
                assert(completed(now, none, fuel) == completed(start, trace, start.len()));
            }
            match self.next_choice() {
                None => {
                    return Ok(());
                },
                Some((giver, candidates)) => {
                    assert(texts(candidates@).len() == candidates@.len());
                    assert(now[giver as int] == self.participants@[giver as int]@);
                    proof {
                        lemma_most_constrained_is_one(now, giver as int);
                        assert(unpaired(now).contains(giver as int));
                        assert(unpaired(now).remove(giver as int).len() >= 0);
                    }
                    if candidates.len() == 0 {
                        let msg = String::from_str("Instructions are too restrictive for ").concat(
                            self.participants[giver].name.as_str(),
                        );
                        return Err(SecretSantaError::new(msg));
                    }
                    let receiver = if candidates.len() == 1 {
                        candidates[0].clone()
                    } else {
                        match source {
                            Some(picks) => {
                                if used < picks.len() {
                                    let k: usize = picks[used] % candidates.len();
                                    used += 1;
                                    candidates[k].clone()
                                } else {
                                    candidates[0].clone()
                                }
                            },
                            None => match choose_one(&candidates) {
                                Some(c) => c,
                                None => candidates[0].clone(),
                            },
                        }
                    };
                    proof {
                        let k = choose|k: int| 0 <= k < candidates@.len() && candidates@[k] == receiver;
                        assert(texts(candidates@)[k] == receiver@);
                        lemma_pairing_step(start, now, giver as int, k);
                        lemma_trace_step(start, trace, now, fuel, giver as int, k as usize);
                        if feasible(now, giver as int).len() != 1 {
                            trace = trace.push(k as usize);
                        }
                        if source is Some {
                            let picks = source.unwrap()@;
                            let rest = picks.skip(used_before as int);
                            let c = feasible(now, giver as int);
                            if c.len() >= 2 && used_before < picks.len() {
                                assert(rest[0] == picks[used_before as int]);
                                assert(rest.skip(1) =~= picks.skip(used as int));
                            }
                            assert(receiver@ == picked(c, rest));
                            assert(picks_left(c, rest) == picks.skip(used as int));
                        }
                    }
                    self.assign(giver, receiver);
                    proof {
                        first = false;
                        fuel = (fuel - 1) as nat;
                    }
                },
            }
        }
    }

    /// Completes the pairings. Pairings that the instructions pinned stay.
    /// Then, as long as somebody has no pairing, the participant with the
    /// fewest feasible names is paired with one of them: with the only one,
    /// or with one picked at random. Fails when a pinned giver is nobody in
    /// the registry, or when the participant to pair next has no feasible
    /// name left; nothing that was decided is undone to avoid that.
    pub fn generate_pairings(&mut self) -> (r: Result<(), SecretSantaError>)
        ensures
            same_people(old(self)@, final(self)@),
            old(self).wf() ==> final(self).wf(),
            forall|i: int|
                0 <= i < final(self)@.len() ==> #[trigger] soundly_paired(
                    old(self)@,
                    final(self)@,
                    i,
                ),
            match r {
                Ok(_) => is_assignment(old(self)@, final(self)@),
                Err(e) => is_refusal(old(self)@, final(self)@, e.msg@),
            },
            !all_resolved(old(self)@) ==> r is Err,
            all_resolved(old(self)@) && everybody_paired(old(self)@) ==> r is Ok,
            somebody_stuck(old(self)@) ==> r is Err,
            all_resolved(old(self)@) ==> is_possible_outcome(old(self)@, final(self)@, r),
    {
        self.complete(None)
    }

    /// Completes the pairings as `generate_pairings` does, with each choice
    /// among two or more feasible names taken from `picks` in place of
    /// chance: the next pick, reduced modulo the number of names, is the
    /// position of the name to take, and the first name is taken once the
    /// picks are used up. The same registry and the same picks give the
    /// same pairings.
    pub fn generate_pairings_with(&mut self, picks: &Vec<usize>) -> (r: Result<
        (),
        SecretSantaError,
    >)
        ensures
            same_people(old(self)@, final(self)@),
            old(self).wf() ==> final(self).wf(),
            forall|i: int|
                0 <= i < final(self)@.len() ==> #[trigger] soundly_paired(
                    old(self)@,
                    final(self)@,
                    i,
                ),
            match r {
                Ok(_) => is_assignment(old(self)@, final(self)@),
                Err(e) => is_refusal(old(self)@, final(self)@, e.msg@),
            },
            !all_resolved(old(self)@) ==> r is Err,
            all_resolved(old(self)@) ==> is_outcome(
                completed(old(self)@, picks@, old(self)@.len()),
                final(self)@,
                r,
            ),
    {
        self.complete(Some(picks))
    }

    /// Each name with what it is paired with, or with `Undefined` where it
    /// has no pairing, in the registry's order.
    pub fn get_pairings(&self) -> (r: Vec<(String, String)>)
        ensures
            r@.len() == self@.len(),
            forall|i: int|
                0 <= i < self@.len() ==> (#[trigger] r@[i]).0@ == self@[i].name && r@[i].1@ == (
                match self@[i].pairing {
                    Some(g) => g,
                    None => "Undefined"@,
                }),
    {
        let mut out: Vec<(String, String)> = Vec::new();
        let mut i: usize = 0;
        while i < self.participants.len()
            invariant
                i <= self.participants.len(),
                out@.len() == i,
                forall|j: int|
                    0 <= j < i ==> (#[trigger] out@[j]).0@ == self@[j].name && out@[j].1@ == (
                    match self@[j].pairing {
                        Some(g) => g,
                        None => "Undefined"@,
                    }),
            decreases self.participants.len() - i,
        {
            let name = self.participants[i].name.clone();
            let pairing = match &self.participants[i].paired_with {
                Some(g) => g.clone(),
                None => String::from_str("Undefined"),
            };
            out.push((name, pairing));
            i += 1;
        }
        out
    }
}

/// Picks one of the candidates at random: `choose` of rand's `SliceRandom`
/// on the slice, with `rand::thread_rng()`. It gives `None` for an empty
/// slice and otherwise one of the slice's elements; which one is not said.
#[verifier::external_body]
fn choose_one(candidates: &Vec<String>) -> (r: Option<String>)
    ensures
        candidates@.len() == 0 ==> r is None,
        candidates@.len() > 0 ==> r is Some && candidates@.contains(r.unwrap()),
{
    candidates.as_slice().choose(&mut rand::thread_rng()).cloned()
}

} // verus!
