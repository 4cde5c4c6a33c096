use vstd::prelude::*;
use vstd::std_specs::cmp::PartialEqSpecImpl;
use vstd::string::*;
use crate::error::SecretSantaError;

verus! {

/// Unicode white space, the characters that trimming removes.
pub open spec fn is_space(c: char) -> bool {
    let n = c as u32;
    (9 <= n && n <= 13) || n == 32 || n == 0x85 || n == 0xA0 || n == 0x1680
        || (0x2000 <= n && n <= 0x200A) || n == 0x2028 || n == 0x2029 || n == 0x202F
        || n == 0x205F || n == 0x3000
}

/// The characters that end a name or a token.
pub open spec fn is_stop(c: char) -> bool {
    c == '=' || c == '!' || c == '#'
}

/// The first position from `i` on that holds no white space.
pub open spec fn skip_spaces(s: Seq<char>, i: int) -> int
    decreases s.len() - i,
{
    if 0 <= i < s.len() && is_space(s[i]) {
        skip_spaces(s, i + 1)
    } else {
        i
    }
}

/// The end of `s[lo..j]` once its trailing white space is dropped.
pub open spec fn drop_spaces(s: Seq<char>, lo: int, j: int) -> int
    decreases j - lo,
{
    if lo < j <= s.len() && is_space(s[j - 1]) {
        drop_spaces(s, lo, j - 1)
    } else {
        j
    }
}

/// `s` without its leading and trailing white space.
pub open spec fn trimmed(s: Seq<char>) -> Seq<char> {
    let a = skip_spaces(s, 0);
    s.subrange(a, drop_spaces(s, a, s.len() as int))
}

/// The first position from `i` on that holds `#`, or the length.
pub open spec fn comment_start(s: Seq<char>, i: int) -> int
    decreases s.len() - i,
{
    if 0 <= i < s.len() && s[i] != '#' {
        comment_start(s, i + 1)
    } else {
        i
    }
}

/// The first position from `i` on that holds `=`, `!` or `#`, or the length.
pub open spec fn run_end(s: Seq<char>, i: int) -> int
    decreases s.len() - i,
{
    if 0 <= i < s.len() && !is_stop(s[i]) {
        run_end(s, i + 1)
    } else {
        i
    }
}

/// The instruction that a line holds: what stands before the first `#`, trimmed.
pub open spec fn instruction_text(line: Seq<char>) -> Seq<char> {
    trimmed(line.subrange(0, comment_start(line, 0)))
}

/// The leading run of an instruction up to its first marker, trimmed.
pub open spec fn name_text(s: Seq<char>) -> Seq<char> {
    trimmed(s.subrange(0, run_end(s, 0)))
}

/// Position `i` holds `marker` and a run of at least one character follows it.
pub open spec fn has_token(s: Seq<char>, i: int, marker: char) -> bool {
    0 <= i < s.len() && s[i] == marker && run_end(s, i + 1) > i + 1
}

/// The run that follows the marker at `i`, trimmed.
pub open spec fn token_at(s: Seq<char>, i: int) -> Seq<char> {
    trimmed(s.subrange(i + 1, run_end(s, i + 1)))
}

/// The token of the first `=` from `i` on that has one.
pub open spec fn first_forced(s: Seq<char>, i: int) -> Option<Seq<char>>
    decreases s.len() - i,
{
    if i < 0 || i >= s.len() {
        None
    } else if has_token(s, i, '=') {
        Some(token_at(s, i))
    } else {
        first_forced(s, i + 1)
    }
}

/// The tokens of every `!` from `i` on that has one.
pub open spec fn blocked_names(s: Seq<char>, i: int) -> Set<Seq<char>>
    decreases s.len() - i,
{
    if i < 0 || i >= s.len() {
        Set::empty()
    } else if has_token(s, i, '!') {
        blocked_names(s, i + 1).insert(token_at(s, i))
    } else {
        blocked_names(s, i + 1)
    }
}

/// The names that a vector of strings holds.
pub open spec fn name_set(v: Seq<String>) -> Set<Seq<char>> {
    Set::new(|t: Seq<char>| exists|k: int| 0 <= k < v.len() && #[trigger] v[k]@ == t)
}

/// The texts of a vector of strings, in order.
pub open spec fn texts(v: Seq<String>) -> Seq<Seq<char>> {
    Seq::new(v.len(), |k: int| v[k]@)
}

/// No text occurs twice in `v`.
pub open spec fn distinct(v: Seq<String>) -> bool {
    forall|i: int, j: int| 0 <= i < j < v.len() ==> #[trigger] v[i]@ != #[trigger] v[j]@
}

proof fn lemma_name_set_push(v: Seq<String>, x: String)
    ensures
        name_set(v.push(x)) =~= name_set(v).insert(x@),
{
    let w = v.push(x);
    assert forall|t: Seq<char>| name_set(w).contains(t) implies name_set(v).insert(x@).contains(
        t,
    ) by {
        let k = choose|k: int| 0 <= k < w.len() && #[trigger] w[k]@ == t;
        if k < v.len() {
            assert(v[k]@ == t);
        }
    }
    assert forall|t: Seq<char>| name_set(v).insert(x@).contains(t) implies name_set(w).contains(
        t,
    ) by {
        if t == x@ {
            assert(w[v.len() as int]@ == t);
        } else {
            let k = choose|k: int| 0 <= k < v.len() && #[trigger] v[k]@ == t;
            assert(w[k]@ == t);
        }
    }
}

/// Whether `c` is white space.
pub fn is_whitespace(c: char) -> (r: bool)
    ensures
        r == is_space(c),
{
    let n: u32 = c as u32;
    (9 <= n && n <= 13) || n == 32 || n == 0x85 || n == 0xA0 || n == 0x1680
        || (0x2000 <= n && n <= 0x200A) || n == 0x2028 || n == 0x2029 || n == 0x202F
        || n == 0x205F || n == 0x3000
}

/// Removes leading and trailing white space.
pub fn trim<'a>(s: &'a str) -> (r: &'a str)
    ensures
        r@ == trimmed(s@),
{
    let n: usize = s.unicode_len();
    let mut a: usize = 0;
    while a < n && is_whitespace(s.get_char(a))
        invariant
            a <= n,
            n == s@.len(),
            skip_spaces(s@, 0) == skip_spaces(s@, a as int),
        decreases n - a,
    {
        a += 1;
    }
    let mut b: usize = n;
    while b > a && is_whitespace(s.get_char(b - 1))
        invariant
            a <= b <= n,
            n == s@.len(),
            drop_spaces(s@, a as int, n as int) == drop_spaces(s@, a as int, b as int),
        decreases b,
    {
        b -= 1;
    }
    s.substring_char(a, b)
}

/// The end of the run of characters from `i` on that are no `=`, `!` or `#`.
fn scan_run(s: &str, n: usize, i: usize) -> (e: usize)
    requires
        n == s@.len(),
        i <= n,
    ensures
        e == run_end(s@, i as int),
        i <= e <= n,
{
    let mut e: usize = i;
    while e < n && !is_stop_char(s.get_char(e))
        invariant
            i <= e <= n,
            n == s@.len(),
            run_end(s@, i as int) == run_end(s@, e as int),
        decreases n - e,
    {
        e += 1;
    }
    e
}

/// Whether `c` ends a name or a token.
fn is_stop_char(c: char) -> (r: bool)
    ensures
        r == is_stop(c),
{
    c == '=' || c == '!' || c == '#'
}

/// Removes a comment, which starts at the first `#`, and trims what is left.
pub fn get_instruction<'a>(instruction: &'a str) -> (r: &'a str)
    ensures
        r@ == instruction_text(instruction@),
{
    let n: usize = instruction.unicode_len();
    let mut e: usize = 0;
    while e < n && instruction.get_char(e) != '#'
        invariant
            e <= n,
            n == instruction@.len(),
            comment_start(instruction@, 0) == comment_start(instruction@, e as int),
        decreases n - e,
    {
        e += 1;
    }
    trim(instruction.substring_char(0, e))
}

/// One participant: a name, the giver pinned to them or found for them, and
/// the givers they must never get.
#[derive(Debug, Clone)]
pub struct Participant {
    pub name: String,
    pub paired_with: Option<String>,
    pub blocklist: Option<Vec<String>>,
}

/// The participant with an empty name, no pairing and no blocklist.
impl Default for Participant {
    fn default() -> (r: Participant)
        ensures
            r@ == (ParticipantView { name: Seq::<char>::empty(), pairing: None, blocked: None }),
            r.paired_with is None,
            r.blocklist is None,
    {
        Participant { name: String::new(), paired_with: None, blocklist: None }
    }
}

/// Two participants are the same when their names are: the name is the identity.
impl PartialEq for Participant {
    fn eq(&self, other: &Self) -> (r: bool) {
        self.name == other.name
    }
}

impl PartialEqSpecImpl for Participant {
    open spec fn obeys_eq_spec() -> bool {
        true
    }

    open spec fn eq_spec(&self, other: &Self) -> bool {
        self.name@ == other.name@
    }
}

impl Eq for Participant {

}

/// A participant is the same as its name.
impl PartialEq<String> for Participant {
    fn eq(&self, other: &String) -> (r: bool) {
        self.name == *other
    }
}

impl PartialEqSpecImpl<String> for Participant {
    open spec fn obeys_eq_spec() -> bool {
        true
    }

    open spec fn eq_spec(&self, other: &String) -> bool {
        self.name@ == other@
    }
}

/// A name is the same as the participant that has it.
impl PartialEq<Participant> for String {
    fn eq(&self, other: &Participant) -> (r: bool) {
        *self == other.name
    }
}

impl PartialEqSpecImpl<Participant> for String {
    open spec fn obeys_eq_spec() -> bool {
        true
    }

    open spec fn eq_spec(&self, other: &Participant) -> bool {
        self@ == other.name@
    }
}

/// What a participant is: its name, the name it is paired with, if any,
/// and the set of names it blocks, if it has a blocklist.
pub struct ParticipantView {
    pub name: Seq<char>,
    pub pairing: Option<Seq<char>>,
    pub blocked: Option<Set<Seq<char>>>,
}

impl ParticipantView {
    /// Whether `r` is blocked.
    pub open spec fn blocks(self, r: Seq<char>) -> bool {
        match self.blocked {
            Some(b) => b.contains(r),
            None => false,
        }
    }

    /// `r` may be paired with this participant: it is another name, and
    /// not blocked.
    pub open spec fn eligible(self, r: Seq<char>) -> bool {
        r != self.name && !self.blocks(r)
    }

    /// Those of `names` that are eligible, in their order.
    pub open spec fn matches_of(self, names: Seq<Seq<char>>) -> Seq<Seq<char>>
        decreases names.len(),
    {
        if names.len() == 0 {
            Seq::empty()
        } else if self.eligible(names.last()) {
            self.matches_of(names.drop_last()).push(names.last())
        } else {
            self.matches_of(names.drop_last())
        }
    }

    /// The same participant, paired with `r`.
    pub open spec fn paired(self, r: Seq<char>) -> ParticipantView {
        ParticipantView { name: self.name, pairing: Some(r), blocked: self.blocked }
    }
}

impl View for Participant {
    type V = ParticipantView;

    open spec fn view(&self) -> ParticipantView {
        ParticipantView {
            name: self.name@,
            pairing: match self.paired_with {
                Some(g) => Some(g@),
                None => None,
            },
            blocked: match self.blocklist {
                Some(b) => Some(name_set(b@)),
                None => None,
            },
        }
    }
}

impl Participant {
    /// The names among `names` that this participant can be paired with.
    pub fn find_matches(&self, names: &Vec<String>) -> (r: Vec<String>)
        ensures
            texts(r@) == self@.matches_of(texts(names@)),
    {
        let mut out: Vec<String> = Vec::new();
        let mut i: usize = 0;
        while i < names.len()
            invariant
                i <= names.len(),
                texts(out@) == self@.matches_of(texts(names@).take(i as int)),
            decreases names.len() - i,
        {
            let ghost pre = texts(names@).take(i as int);
            let ghost cur = texts(names@).take(i + 1);
            assert(cur.drop_last() =~= pre);
            assert(cur.last() == names@[i as int]@);
            let blocked = match &self.blocklist {
                Some(b) => has_name(b, &names[i]),
                None => false,
            };
            if names[i] != self.name && !blocked {
                let ghost before = out@;
                let n = names[i].clone();
                out.push(n);
                assert(texts(out@) =~= texts(before).push(names@[i as int]@));
            }
            i += 1;
        }
        assert(texts(names@).take(i as int) =~= texts(names@));
        out
    }

    /// A participant with nothing but a name.
    pub fn new(name: String) -> (r: Participant)
        ensures
            r.name == name,
            r.paired_with is None,
            r.blocklist is None,
            r@ == (ParticipantView { name: name@, pairing: None, blocked: None }),
    {
        Participant { name, blocklist: None, paired_with: None }
    }

    /// Sets or clears the pairing; the name and the blocklist stay.
    pub fn set_paired_with(&mut self, pairing: Option<String>)
        ensures
            final(self).paired_with == pairing,
            final(self).name == old(self).name,
            final(self).blocklist == old(self).blocklist,
            final(self)@.name == old(self)@.name,
            final(self)@.blocked == old(self)@.blocked,
            final(self)@.pairing == (match pairing {
                Some(g) => Some(g@),
                None => None,
            }),
    {
        self.paired_with = pairing;
    }
}

/// Whether `v` holds `name`.
pub fn has_name(v: &Vec<String>, name: &String) -> (r: bool)
    ensures
        r == name_set(v@).contains(name@),
{
    let mut k: usize = 0;
    while k < v.len()
        invariant
            k <= v.len(),
            forall|j: int| 0 <= j < k ==> #[trigger] v@[j]@ != name@,
        decreases v.len() - k,
    {
        if v[k] == *name {
            return true;
        }
        k += 1;
    }
    false
}

/// The message of the error for an instruction without a name.
pub open spec fn missing_name_msg(instruction: Seq<char>) -> Seq<char> {
    "Could not determine participant from: "@ + instruction
}

/// The name of the participant: the text before the first marker, trimmed.
/// An instruction that holds no such text has no participant.
pub fn parse_participant<'a>(instruction: &'a str) -> (r: Result<&'a str, SecretSantaError>)
    ensures
        match r {
            Ok(name) => name@ == name_text(instruction@) && name@.len() > 0,
            Err(e) => name_text(instruction@).len() == 0 && e.msg@ == missing_name_msg(
                instruction@,
            ),
        },
{
    let n: usize = instruction.unicode_len();
    let e: usize = scan_run(instruction, n, 0);
    let name = trim(instruction.substring_char(0, e));
    if name.unicode_len() == 0 {
        let msg = String::from_str("Could not determine participant from: ").concat(instruction);
        Err(SecretSantaError::new(msg))
    } else {
        Ok(name)
    }
}

/// The first `=` of `instruction` that a token follows, with that token.
fn forced_giver<'a>(instruction: &'a str) -> (r: Option<&'a str>)
    ensures
        match r {
            Some(g) => first_forced(instruction@, 0) == Some(g@),
            None => first_forced(instruction@, 0) is None,
        },
{
    let n: usize = instruction.unicode_len();
    let mut i: usize = 0;
    while i < n
        invariant
            i <= n,
            n == instruction@.len(),
            first_forced(instruction@, 0) == first_forced(instruction@, i as int),
        decreases n - i,
    {
        if instruction.get_char(i) == '=' {
            let e: usize = scan_run(instruction, n, i + 1);
            if e > i + 1 {
                return Some(trim(instruction.substring_char(i + 1, e)));
            }
        }
        i += 1;
    }
    None
}

/// The giver pinned by the first `=` that a token follows, looked for in the
/// trimmed instruction.
pub fn parse_forced_pairing<'a>(instruction: &'a str) -> (r: Option<&'a str>)
    ensures
        match r {
            Some(g) => first_forced(trimmed(instruction@), 0) == Some(g@),
            None => first_forced(trimmed(instruction@), 0) is None,
        },
{
    forced_giver(trim(instruction))
}

/// The givers blocked by each `!` that a token follows, each once, or `None`
/// where there is none.
pub fn parse_blocks(instruction: &str) -> (r: Option<Vec<String>>)
    ensures
        match r {
            Some(b) => name_set(b@) == blocked_names(instruction@, 0) && distinct(b@) && b@.len()
                > 0,
            None => blocked_names(instruction@, 0) == Set::<Seq<char>>::empty(),
        },
{
    let n: usize = instruction.unicode_len();
    let mut blocks: Vec<String> = Vec::new();
    let mut i: usize = 0;
    assert(name_set(blocks@) =~= Set::<Seq<char>>::empty());
    while i < n
        invariant
            i <= n,
            n == instruction@.len(),
            distinct(blocks@),
            blocked_names(instruction@, 0) =~= name_set(blocks@).union(
                blocked_names(instruction@, i as int),
            ),
        decreases n - i,
    {
        if instruction.get_char(i) == '!' {
            let e: usize = scan_run(instruction, n, i + 1);
            if e > i + 1 {
                let token = String::from_str(trim(instruction.substring_char(i + 1, e)));
                if !has_name(&blocks, &token) {
                    proof {
                        lemma_name_set_push(blocks@, token);
                    }
                    blocks.push(token);
                }
            }
        }
        i += 1;
    }
    if blocks.len() == 0 {
        assert(name_set(blocks@) =~= Set::<Seq<char>>::empty());
        None
    } else {
        assert(name_set(blocks@).contains(blocks@[0]@));
        Some(blocks)
    }
}

/// The line names a participant.
pub open spec fn has_participant_name(line: Seq<char>) -> bool {
    name_text(instruction_text(line)).len() > 0
}

/// The name of the participant that the line is about.
pub open spec fn line_name(line: Seq<char>) -> Seq<char> {
    name_text(instruction_text(line))
}

/// The giver that the line pins, if any: the token of its first `=`.
pub open spec fn line_forced(line: Seq<char>) -> Option<Seq<char>> {
    first_forced(instruction_text(line), 0)
}

/// The givers that the line blocks, or `None` where it blocks none.
pub open spec fn line_blocked(line: Seq<char>) -> Option<Set<Seq<char>>> {
    let all = blocked_names(instruction_text(line), 0);
    if all == Set::<Seq<char>>::empty() {
        None
    } else {
        Some(all)
    }
}

/// What the line says of its participant: the name, the pinned giver as
/// the pairing, and the blocked givers.
pub open spec fn parsed(line: Seq<char>) -> ParticipantView {
    ParticipantView {
        name: line_name(line),
        pairing: line_forced(line),
        blocked: line_blocked(line),
    }
}

/// `p` is what the line says, and holds each blocked giver once.
pub open spec fn parses_to(line: Seq<char>, p: Participant) -> bool {
    &&& has_participant_name(line)
    &&& p@ == parsed(line)
    &&& (p.blocklist matches Some(b) ==> distinct(b@))
}

/// Parses one line of instructions: a name, then in any order `=giver` to pin
/// a giver (the first one counts) and `!giver` to block one; `#` starts a
/// comment. The pairing of the result is the pinned giver.
pub fn parse_instruction(instruction: &str) -> (r: Result<Participant, SecretSantaError>)
    ensures
        match r {
            Ok(p) => parses_to(instruction@, p),
            Err(e) => !has_participant_name(instruction@) && e.msg@ == missing_name_msg(
                instruction_text(instruction@),
            ),
        },
{
    let clean = get_instruction(instruction);
    let name = match parse_participant(clean) {
        Ok(n) => n,
        Err(e) => {
            return Err(e);
        },
    };
    let blocklist = parse_blocks(clean);
    proof {
        if blocklist is Some {
            let b = blocklist.unwrap();
            assert(name_set(b@).contains(b@[0]@));
        }
    }
    let paired_with = match forced_giver(clean) {
        Some(g) => Some(String::from_str(g)),
        None => None,
    };
    Ok(Participant { name: String::from_str(name), paired_with, blocklist })
}

proof fn lemma_plain_run(s: Seq<char>, i: int)
    requires
        0 <= i <= s.len(),
        forall|k: int| 0 <= k < s.len() ==> !is_stop(#[trigger] s[k]),
    ensures
        comment_start(s, i) == s.len(),
        run_end(s, i) == s.len(),
        first_forced(s, i) is None,
        blocked_names(s, i) == Set::<Seq<char>>::empty(),
    decreases s.len() - i,
{
    if i < s.len() {
        assert(!is_stop(s[i]));
        lemma_plain_run(s, i + 1);
    }
}

/// A line that is a bare name says just that: a name that is not empty,
/// holds no `=`, `!` or `#` and neither starts nor ends with white space
/// parses to itself, with no pinned giver and no blocklist.
pub proof fn lemma_plain_name_parses_to_itself(name: Seq<char>)
    requires
        name.len() > 0,
        forall|k: int| 0 <= k < name.len() ==> !is_stop(#[trigger] name[k]),
        !is_space(name.first()),
        !is_space(name.last()),
    ensures
        has_participant_name(name),
        line_name(name) == name,
        line_forced(name) is None,
        line_blocked(name) is None,
{
    lemma_plain_run(name, 0);
    assert(name.subrange(0, name.len() as int) =~= name);
    assert(skip_spaces(name, 0) == 0);
    assert(drop_spaces(name, 0, name.len() as int) == name.len());
    assert(trimmed(name) =~= name);
}

proof fn lemma_comment_start_at_hash(s: Seq<char>, n: int, i: int)
    requires
        0 <= i <= n <= s.len(),
        forall|k: int| 0 <= k < n ==> #[trigger] s[k] != '#',
        n < s.len() ==> s[n] == '#',
    ensures
        comment_start(s, i) == n,
    decreases n - i,
{
    if i < n {
        assert(s[i] != '#');
        lemma_comment_start_at_hash(s, n, i + 1);
    }
}

/// A comment is ignored: what follows the first `#` of a line, and the `#`
/// itself, changes nothing of what the line says.
pub proof fn lemma_comment_is_ignored(head: Seq<char>, tail: Seq<char>)
    requires
        forall|k: int| 0 <= k < head.len() ==> #[trigger] head[k] != '#',
    ensures
        instruction_text(head + seq!['#'] + tail) == instruction_text(head),
        has_participant_name(head + seq!['#'] + tail) == has_participant_name(head),
        parsed(head + seq!['#'] + tail) == parsed(head),
{
    let line = head + seq!['#'] + tail;
    let n = head.len() as int;
    assert(line[n] == '#');
    assert forall|k: int| 0 <= k < n implies #[trigger] line[k] != '#' by {
        assert(line[k] == head[k]);
    }
    lemma_comment_start_at_hash(line, n, 0);
    lemma_comment_start_at_hash(head, n, 0);
    assert(line.subrange(0, n) =~= head.subrange(0, n));
}

} // verus!
