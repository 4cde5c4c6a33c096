use vstd::prelude::*;
use vstd::string::*;
use crate::crypto::encrypt_msg;
use crate::error::SecretSantaError;
use crate::pairing::{encrypt_secret_santa, revealed, sealable, EncryptedSecretSanta};
use crate::participant::{
    has_participant_name, instruction_text, line_blocked, line_forced, line_name,
    missing_name_msg, parsed, texts, trim, trimmed, ParticipantView,
};
use crate::secretsanta::{
    all_resolved, duplicate_msg, everybody_paired, is_assignment, is_possible_outcome,
    has_participant, is_refusal, resolved_at, same_people, somebody_stuck, soundly_paired,
    SecretSanta,
};

verus! {

/// The lines of a text: what stands between its line feeds, so one more
/// than it has line feeds.
pub open spec fn split_lines(s: Seq<char>) -> Seq<Seq<char>>
    decreases s.len(),
{
    if s.len() == 0 {
        seq![Seq::<char>::empty()]
    } else {
        let rest = split_lines(s.drop_last());
        if s.last() == '\n' {
            rest.push(Seq::<char>::empty())
        } else {
            rest.drop_last().push(rest.last().push(s.last()))
        }
    }
}

/// The instructions of a text: the lines of the trimmed text.
pub open spec fn instruction_lines(text: Seq<char>) -> Seq<Seq<char>> {
    split_lines(trimmed(text))
}

/// Line `k` can be added after the lines before it: it names a
/// participant, and none of them names the same.
pub open spec fn line_fits(lines: Seq<Seq<char>>, k: int) -> bool {
    &&& has_participant_name(lines[k])
    &&& forall|j: int| 0 <= j < k ==> line_name(#[trigger] lines[j]) != line_name(lines[k])
}

/// Every line can be added after the lines before it.
pub open spec fn all_lines_fit(lines: Seq<Seq<char>>) -> bool {
    forall|k: int| 0 <= k < lines.len() ==> #[trigger] line_fits(lines, k)
}

/// Line `k` is the first that cannot be added.
pub open spec fn is_first_misfit(lines: Seq<Seq<char>>, k: int) -> bool {
    &&& 0 <= k < lines.len()
    &&& !line_fits(lines, k)
    &&& forall|j: int| 0 <= j < k ==> #[trigger] line_fits(lines, j)
}

/// The message of the error for a line that cannot be added.
pub open spec fn misfit_msg(line: Seq<char>) -> Seq<char> {
    if has_participant_name(line) {
        duplicate_msg(line_name(line))
    } else {
        missing_name_msg(instruction_text(line))
    }
}

/// The participants that the lines say, one for each line, in order.
pub open spec fn registry_of(lines: Seq<Seq<char>>) -> Seq<ParticipantView> {
    Seq::new(lines.len(), |i: int| parsed(lines[i]))
}

/// Every name of the lines can be sealed.
pub open spec fn all_sealable(lines: Seq<Seq<char>>) -> bool {
    forall|k: int| 0 <= k < lines.len() ==> sealable(line_name(#[trigger] lines[k]))
}

/// The engine can take the participants `ps` to `after` with the result
/// `res`. The people stay. Where every pinned giver is somebody, this is
/// where the engine ends for some picks; else it fails. It succeeds where
/// nobody is left to pair, and fails where somebody is stuck from the
/// start. A success is a complete assignment, and a failure is the refusal
/// that its message says.
pub open spec fn is_run(
    ps: Seq<ParticipantView>,
    after: Seq<ParticipantView>,
    res: Result<(), SecretSantaError>,
) -> bool {
    &&& same_people(ps, after)
    &&& all_resolved(ps) ==> is_possible_outcome(ps, after, res)
    &&& !all_resolved(ps) ==> res is Err
    &&& all_resolved(ps) && everybody_paired(ps) ==> res is Ok
    &&& somebody_stuck(ps) ==> res is Err
    &&& match res {
        Ok(_) => is_assignment(ps, after),
        Err(e) => is_refusal(ps, after, e.msg@),
    }
}

/// The result hands on what the engine's run gave. A failure of the run is
/// handed on with its message. After a success there is one entry for each
/// participant, in order, with its name, which reveals its pairing; unless
/// a name cannot be sealed, which is an error of its own. So where every
/// name can be sealed, the result succeeds exactly when the run does.
pub open spec fn hands_on(
    lines: Seq<Seq<char>>,
    after: Seq<ParticipantView>,
    res: Result<(), SecretSantaError>,
    r: Result<Vec<(String, EncryptedSecretSanta)>, SecretSantaError>,
) -> bool {
    &&& match r {
        Ok(out) => {
            &&& res is Ok
            &&& out@.len() == after.len()
            &&& forall|i: int|
                0 <= i < out@.len() ==> out@[i].0@ == after[i].name && #[trigger] reveals(out@, i)
                    == Ok::<Seq<char>, Seq<char>>(after[i].pairing.unwrap())
        },
        Err(e) => match res {
            Ok(_) => e.msg@ == encrypt_msg() && !all_sealable(lines),
            Err(refusal) => e.msg@ == refusal.msg@ && is_refusal(
                registry_of(lines),
                after,
                e.msg@,
            ),
        },
    }
    &&& all_sealable(lines) ==> (r is Ok <==> res is Ok)
}

/// What entry `i` of the result reveals.
pub open spec fn reveals(out: Seq<(String, EncryptedSecretSanta)>, i: int) -> Result<
    Seq<char>,
    Seq<char>,
> {
    revealed(out[i].1.key@, out[i].1.nonce@, out[i].1.pairing@)
}

/// Entry `i` stands for line `i`: it has the line's name, and it reveals a
/// name of the lines. Where the line pins a giver, that giver; else a name
/// that is not the line's own, that the line does not block, and that no
/// other entry reveals.
pub open spec fn entry_fits(
    lines: Seq<Seq<char>>,
    out: Seq<(String, EncryptedSecretSanta)>,
    i: int,
) -> bool {
    &&& out[i].0@ == line_name(lines[i])
    &&& reveals(out, i) matches Ok(g) && {
        &&& exists|j: int| 0 <= j < lines.len() && line_name(#[trigger] lines[j]) == g
        &&& match line_forced(lines[i]) {
            Some(f) => g == f,
            None => {
                &&& g != line_name(lines[i])
                &&& !(line_blocked(lines[i]) matches Some(b) && b.contains(g))
                &&& forall|j: int|
                    0 <= j < out.len() && j != i ==> #[trigger] reveals(out, j) != Ok::<
                        Seq<char>,
                        Seq<char>,
                    >(g)
            },
        }
    }
}

/// The result is a sealed assignment for the lines: every line could be
/// added, and there is one fitting entry for each, in order.
pub open spec fn sealed_assignment(
    lines: Seq<Seq<char>>,
    out: Seq<(String, EncryptedSecretSanta)>,
) -> bool {
    &&& all_lines_fit(lines)
    &&& out.len() == lines.len()
    &&& forall|i: int| 0 <= i < out.len() ==> #[trigger] entry_fits(lines, out, i)
}

/// Splits a text at its line feeds.
pub fn lines_of(text: &str) -> (r: Vec<String>)
    ensures
        texts(r@) == split_lines(text@),
{
    let n: usize = text.unicode_len();
    let mut out: Vec<String> = Vec::new();
    let mut start: usize = 0;
    let mut i: usize = 0;
    assert(text@.take(0) =~= Seq::<char>::empty());
    assert(split_lines(text@.take(0)) =~= texts(out@).push(text@.subrange(0, 0)));
    while i < n
        invariant
            start <= i <= n,
            n == text@.len(),
            split_lines(text@.take(i as int)) == texts(out@).push(
                text@.subrange(start as int, i as int),
            ),
        decreases n - i,
    {
        let ghost before = out@;
        let ghost cur = text@.subrange(start as int, i as int);
        proof {
            assert(text@.take(i + 1).drop_last() =~= text@.take(i as int));
            assert(text@.take(i + 1).last() == text@[i as int]);
            assert(texts(before).push(cur).drop_last() =~= texts(before));
        }
        if text.get_char(i) == '\n' {
            out.push(String::from_str(text.substring_char(start, i)));
            start = i + 1;
            assert(texts(out@) =~= texts(before).push(cur));
            assert(text@.subrange(start as int, i + 1) =~= Seq::<char>::empty());
        } else {
            assert(text@.subrange(start as int, i + 1) =~= cur.push(text@[i as int]));
        }
        i += 1;
    }
    let ghost before = out@;
    out.push(String::from_str(text.substring_char(start, n)));
    assert(text@.take(n as int) =~= text@);
    assert(texts(out@) =~= texts(before).push(text@.subrange(start as int, n as int)));
    out
}

/// Seals each pairing, keeping the names and the order.
pub fn seal_pairings(pairings: &Vec<(String, String)>) -> (r: Result<
    Vec<(String, EncryptedSecretSanta)>,
    SecretSantaError,
>)
    ensures
        match r {
            Ok(out) => {
                &&& out@.len() == pairings@.len()
                &&& forall|i: int|
                    0 <= i < out@.len() ==> (#[trigger] out@[i]).0@ == pairings@[i].0@ && reveals(
                        out@,
                        i,
                    ) == Ok::<Seq<char>, Seq<char>>(pairings@[i].1@)
            },
            Err(e) => e.msg@ == encrypt_msg(),
        },
        r is Ok <==> forall|i: int| 0 <= i < pairings@.len() ==> sealable((#[trigger] pairings@[i]).1@),
{
    let mut out: Vec<(String, EncryptedSecretSanta)> = Vec::new();
    let mut i: usize = 0;
    while i < pairings.len()
        invariant
            i <= pairings.len(),
            out@.len() == i,
            forall|j: int| 0 <= j < i ==> sealable((#[trigger] pairings@[j]).1@),
            forall|j: int|
                0 <= j < i ==> (#[trigger] out@[j]).0@ == pairings@[j].0@ && reveals(out@, j) == Ok::<
                    Seq<char>,
                    Seq<char>,
                >(pairings@[j].1@),
        decreases pairings.len() - i,
    {
        let enc = match encrypt_secret_santa(pairings[i].1.as_str()) {
            Ok(enc) => enc,
            Err(e) => {
                return Err(e);
            },
        };
        let name = pairings[i].0.clone();
        out.push((name, enc));
        i += 1;
    }
    Ok(out)
}

/// Computes the pairings for a text of instructions, one instruction on
/// each line of the trimmed text, and seals each of them. The first line
/// that cannot be added ends the run with its error. Where every line can
/// be added, the engine runs on the participants that the lines say, and
/// its failure is the result; after its success every pairing is sealed,
/// which fails only for a name that cannot be sealed. So where every line
/// can be added and every name can be sealed, the result succeeds exactly
/// when the engine does: always where nobody is left to pair, never where a
/// pinned giver is nobody or somebody is stuck from the start.
pub fn get_secret_santas(instructions: &str) -> (r: Result<
    Vec<(String, EncryptedSecretSanta)>,
    SecretSantaError,
>)
    ensures
        match r {
            Ok(out) => sealed_assignment(instruction_lines(instructions@), out@),
            Err(e) => {
                let lines = instruction_lines(instructions@);
                ||| (exists|k: int| #[trigger] is_first_misfit(lines, k) && e.msg@ == misfit_msg(lines[k]))
                ||| (all_lines_fit(lines) && e.msg@ == encrypt_msg() && !all_sealable(lines))
                ||| (all_lines_fit(lines) && exists|after: Seq<ParticipantView>| #[trigger]
                    is_refusal(registry_of(lines), after, e.msg@))
            },
        },
        ({
            let lines = instruction_lines(instructions@);
            let ps = registry_of(lines);
            &&& all_lines_fit(lines) ==> exists|
                after: Seq<ParticipantView>,
                res: Result<(), SecretSantaError>,
            | #[trigger] is_run(ps, after, res) && hands_on(lines, after, res, r)
            &&& all_lines_fit(lines) && all_sealable(lines) ==> exists|
                after: Seq<ParticipantView>,
                res: Result<(), SecretSantaError>,
            |
                (all_resolved(ps) ==> #[trigger] is_possible_outcome(ps, after, res)) && (
                !all_resolved(ps) ==> res is Err) && (r is Ok <==> res is Ok) && (r matches Err(e)
                    ==> is_refusal(ps, after, e.msg@))
            &&& all_lines_fit(lines) && all_sealable(lines) && all_resolved(ps) && everybody_paired(
                ps,
            ) ==> r is Ok
            &&& all_lines_fit(lines) && (!all_resolved(ps) || somebody_stuck(ps)) ==> r is Err
        }),
{
    let lines = lines_of(trim(instructions));
    let ghost ls = instruction_lines(instructions@);
    let mut santa = match read_lines(&lines) {
        Ok(santa) => santa,
        Err(e) => {
            proof {
                let k = choose|k: int| #[trigger] is_first_misfit(ls, k) && e.msg@ == misfit_msg(ls[k]);
                assert(!line_fits(ls, k));
            }
            return Err(e);
        },
    };
    let res = santa.generate_pairings();
    let ghost run = res;
    let ghost after = santa@;
    assert(is_run(registry_of(ls), after, run));
    match res {
        Ok(_) => {},
        Err(e) => {
            proof {
                let ps = registry_of(ls);
                assert(hands_on(ls, after, run, Err(e)));
                assert(run is Err && is_refusal(ps, after, e.msg@));
                if is_possible_outcome(ps, after, run) {
                    assert(is_refusal(ps, after, e.msg@));
                } else {
                    assert(!all_resolved(ps));
                }
            }
            return Err(e);
        },
    }
    let pairings = santa.get_pairings();
    proof {
        lemma_pairings_can_be_sealed(ls, after, pairings@);
    }
    match seal_pairings(&pairings) {
        Ok(out) => {
            proof {
                lemma_sealed_entries_fit(ls, after, pairings@, out@);
                assert(hands_on(ls, after, run, Ok(out)));
            }
            Ok(out)
        },
        Err(e) => {
            assert(hands_on(ls, after, run, Err(e)));
            Err(e)
        },
    }
}

/// Adds the lines to a new registry, in order, up to the first that cannot
/// be added.
fn read_lines(lines: &Vec<String>) -> (r: Result<SecretSanta, SecretSantaError>)
    ensures
        match r {
            Ok(santa) => all_lines_fit(texts(lines@)) && santa@ == registry_of(texts(lines@)),
            Err(e) => exists|k: int| #[trigger]
                is_first_misfit(texts(lines@), k) && e.msg@ == misfit_msg(texts(lines@)[k]),
        },
{
    let ghost ls = texts(lines@);
    let mut santa = SecretSanta::new();
    let mut k: usize = 0;
    while k < lines.len()
        invariant
            k <= lines.len(),
            texts(lines@) == ls,
            santa@.len() == k,
            forall|i: int| 0 <= i < k ==> #[trigger] santa@[i] == parsed(ls[i]),
            forall|j: int| 0 <= j < k ==> #[trigger] line_fits(ls, j),
        decreases lines.len() - k,
    {
        let ghost before = santa@;
        assert(texts(lines@)[k as int] == lines@[k as int]@);
        match santa.add_instruction(lines[k].as_str()) {
            Ok(_) => {
                proof {
                    assert forall|i: int| 0 <= i < k + 1 implies #[trigger] santa@[i] == parsed(
                        ls[i],
                    ) by {
                        if i < k {
                            assert(santa@[i] == before[i]);
                        }
                    }
                    assert forall|j: int| 0 <= j < k implies line_name(#[trigger] ls[j]) != line_name(
                        ls[k as int],
                    ) by {
                        assert(before[j].name == line_name(ls[j]));
                    }
                    assert(line_fits(ls, k as int));
                }
            },
            Err(e) => {
                proof {
                    if has_participant_name(ls[k as int]) {
                        let w = choose|w: int|
                            0 <= w < before.len() && #[trigger] before[w].name == line_name(
                                ls[k as int],
                            );
                        assert(line_name(ls[w]) == line_name(ls[k as int]));
                    }
                    assert(is_first_misfit(ls, k as int));
                    assert(e.msg@ == misfit_msg(ls[k as int]));
                }
                return Err(e);
            },
        }
        k += 1;
    }
    assert(santa@ =~= registry_of(ls));
    Ok(santa)
}

/// After a complete run, the pairings to seal are the participants'
/// pairings, and all of them can be sealed where every name of the lines
/// can; so one that cannot be sealed shows a name that cannot.
proof fn lemma_pairings_can_be_sealed(
    lines: Seq<Seq<char>>,
    after: Seq<ParticipantView>,
    pairings: Seq<(String, String)>,
)
    requires
        is_assignment(registry_of(lines), after),
        pairings.len() == after.len(),
        forall|i: int|
            0 <= i < after.len() ==> (#[trigger] pairings[i]).0@ == after[i].name && pairings[i].1@
                == (match after[i].pairing {
                Some(g) => g,
                None => "Undefined"@,
            }),
    ensures
        forall|i: int| 0 <= i < after.len() ==> (#[trigger] pairings[i]).1@ == after[i].pairing.unwrap(),
        all_sealable(lines) ==> forall|i: int|
            0 <= i < pairings.len() ==> sealable((#[trigger] pairings[i]).1@),
{
    lemma_pairings_are_names(lines, after);
    assert forall|i: int| 0 <= i < after.len() implies (#[trigger] pairings[i]).1@
        == after[i].pairing.unwrap() by {
        assert(after[i].pairing is Some);
    }
    if all_sealable(lines) {
        assert forall|i: int| 0 <= i < pairings.len() implies sealable(
            (#[trigger] pairings[i]).1@,
        ) by {
            assert(after[i].pairing is Some);
            let w = choose|w: int|
                0 <= w < lines.len() && line_name(#[trigger] lines[w]) == after[i].pairing.unwrap();
            assert(sealable(line_name(lines[w])));
        }
    }
}

/// The sealed entries of a complete run have the participants' names,
/// reveal their pairings, and fit the lines one by one.
proof fn lemma_sealed_entries_fit(
    lines: Seq<Seq<char>>,
    after: Seq<ParticipantView>,
    pairings: Seq<(String, String)>,
    out: Seq<(String, EncryptedSecretSanta)>,
)
    requires
        is_assignment(registry_of(lines), after),
        pairings.len() == after.len(),
        out.len() == pairings.len(),
        forall|i: int|
            0 <= i < after.len() ==> (#[trigger] pairings[i]).0@ == after[i].name && pairings[i].1@
                == after[i].pairing.unwrap(),
        forall|i: int|
            0 <= i < out.len() ==> (#[trigger] out[i]).0@ == pairings[i].0@ && reveals(out, i) == Ok::<
                Seq<char>,
                Seq<char>,
            >(pairings[i].1@),
    ensures
        forall|i: int|
            0 <= i < out.len() ==> out[i].0@ == after[i].name && #[trigger] reveals(out, i) == Ok::<
                Seq<char>,
                Seq<char>,
            >(after[i].pairing.unwrap()),
        forall|i: int| 0 <= i < out.len() ==> #[trigger] entry_fits(lines, out, i),
{
    assert forall|i: int| 0 <= i < out.len() implies out[i].0@ == after[i].name
        && #[trigger] reveals(out, i) == Ok::<Seq<char>, Seq<char>>(after[i].pairing.unwrap()) by {
        assert(out[i].0@ == pairings[i].0@);
    }
    assert forall|i: int| 0 <= i < out.len() implies #[trigger] entry_fits(lines, out, i) by {
        lemma_entry_fits(lines, after, out, i);
    }
}

/// After a run on the participants of the lines, every pairing is the name
/// of a line.
proof fn lemma_pairings_are_names(lines: Seq<Seq<char>>, after: Seq<ParticipantView>)
    requires
        same_people(registry_of(lines), after),
        all_resolved(after),
    ensures
        forall|i: int|
            0 <= i < after.len() && (#[trigger] after[i]).pairing is Some ==> exists|w: int|
                0 <= w < lines.len() && line_name(#[trigger] lines[w]) == after[i].pairing.unwrap(),
{
    let ps = registry_of(lines);
    assert forall|i: int| 0 <= i < after.len() && (#[trigger] after[i]).pairing is Some implies exists|
        w: int,
    |
        0 <= w < lines.len() && line_name(#[trigger] lines[w]) == after[i].pairing.unwrap() by {
        let g = after[i].pairing.unwrap();
        assert(resolved_at(after, i));
        assert(has_participant(after, g));
        let w = choose|w: int| 0 <= w < after.len() && #[trigger] after[w].name == g;
        assert(after[w].name == ps[w].name);
        assert(ps[w] == parsed(lines[w]));
        assert(line_name(lines[w]) == g);
    }
}

/// What the engine found for a line that pins no giver is sound in the
/// terms of the line: not the line's own name, not a name that it blocks,
/// and no other participant's pairing.
proof fn lemma_unpinned_is_sound(lines: Seq<Seq<char>>, after: Seq<ParticipantView>, i: int)
    requires
        same_people(registry_of(lines), after),
        0 <= i < after.len(),
        after[i].pairing is Some,
        soundly_paired(registry_of(lines), after, i),
        line_forced(lines[i]) is None,
    ensures
        after[i].pairing.unwrap() != line_name(lines[i]),
        !(line_blocked(lines[i]) matches Some(b) && b.contains(after[i].pairing.unwrap())),
        forall|j: int|
            0 <= j < after.len() && j != i ==> (#[trigger] after[j]).pairing != after[i].pairing,
{
    let ps = registry_of(lines);
    let g = after[i].pairing.unwrap();
    assert(ps[i] == parsed(lines[i]));
    assert(ps[i].pairing is None);
    assert(after[i].name == ps[i].name);
    assert(after[i].blocked == ps[i].blocked);
    assert(after[i].eligible(g));
    assert(after[i].blocked == line_blocked(lines[i]));
}

/// A line that pins a giver keeps it.
proof fn lemma_pinned_stays(lines: Seq<Seq<char>>, after: Seq<ParticipantView>, i: int)
    requires
        same_people(registry_of(lines), after),
        0 <= i < after.len(),
        line_forced(lines[i]) is Some,
    ensures
        after[i].pairing == line_forced(lines[i]),
{
    let ps = registry_of(lines);
    assert(ps[i] == parsed(lines[i]));
    assert(ps[i].pairing is Some);
    assert(after[i].pairing == ps[i].pairing);
}

/// The entry for line `i` fits the line, where every entry has its
/// participant's name and reveals its pairing.
proof fn lemma_entry_fits(
    lines: Seq<Seq<char>>,
    after: Seq<ParticipantView>,
    out: Seq<(String, EncryptedSecretSanta)>,
    i: int,
)
    requires
        is_assignment(registry_of(lines), after),
        out.len() == after.len(),
        0 <= i < out.len(),
        forall|j: int|
            0 <= j < out.len() ==> out[j].0@ == after[j].name && #[trigger] reveals(out, j) == Ok::<
                Seq<char>,
                Seq<char>,
            >(after[j].pairing.unwrap()),
    ensures
        entry_fits(lines, out, i),
{
    let ps = registry_of(lines);
    let g = after[i].pairing.unwrap();
    assert(after[i].pairing is Some);
    assert(after[i].name == ps[i].name);
    assert(ps[i] == parsed(lines[i]));
    assert(out[i].0@ == line_name(lines[i]));
    assert(reveals(out, i) == Ok::<Seq<char>, Seq<char>>(g));
    lemma_pairings_are_names(lines, after);
    assert(exists|w: int| 0 <= w < lines.len() && line_name(#[trigger] lines[w]) == g);
    if line_forced(lines[i]) is None {
        assert(soundly_paired(ps, after, i));
        lemma_unpinned_is_sound(lines, after, i);
        assert forall|j: int| 0 <= j < out.len() && j != i implies #[trigger] reveals(out, j) != Ok::<
            Seq<char>,
            Seq<char>,
        >(g) by {
            assert(after[j].pairing is Some);
            assert(after[j].pairing != after[i].pairing);
            assert(reveals(out, j) == Ok::<Seq<char>, Seq<char>>(after[j].pairing.unwrap()));
        }
    } else {
        lemma_pinned_stays(lines, after, i);
    }
}

} // verus!
