//! Byte-level BPE: pretokenization and the merge loop.
//!
//! Merges are ranked by their position in the file's merge list. Encoding
//! repeatedly applies the lowest-ranked applicable merge until none is left,
//! which is what makes the result reproducible across implementations.

use std::collections::HashMap;

use vstd::prelude::*;

use super::ids::Ids;
use crate::text::{self, concat, lemma_concat_add, texts};

verus! {

broadcast use vstd::std_specs::hash::group_hash_axioms;

// ---------------------------------------------------------------------- merges

/// `(left id, right id) -> (rank, merged id)`.
pub struct Merges {
    table: HashMap<u64, (u32, u32)>,
    count: usize,
}

/// A pair of ids as one number.
pub open spec fn packed(left: u32, right: u32) -> u64 {
    (left * 0x1_0000_0000 + right) as u64
}

fn pack(left: u32, right: u32) -> (key: u64)
    ensures
        key == packed(left, right),
{
    left as u64 * 0x1_0000_0000 + right as u64
}

proof fn lemma_packed_injective(a: (u32, u32), b: (u32, u32))
    requires
        packed(a.0, a.1) == packed(b.0, b.1),
    ensures
        a == b,
{
}

impl View for Merges {
    type V = Map<(u32, u32), (u32, u32)>;

    closed spec fn view(&self) -> Map<(u32, u32), (u32, u32)> {
        Map::new(
            |pair: (u32, u32)| self.table@.contains_key(packed(pair.0, pair.1)),
            |pair: (u32, u32)| self.table@[packed(pair.0, pair.1)],
        )
    }
}

impl Merges {
    /// The count is right.
    pub closed spec fn wf(&self) -> bool {
        self@.dom().finite() && self.count == self@.len()
    }

    /// An empty table.
    pub fn new() -> (merges: Self)
        ensures
            merges.wf(),
            merges@ == Map::<(u32, u32), (u32, u32)>::empty(),
    {
        let merges = Merges { table: HashMap::new(), count: 0 };
        proof {
            assert(merges@ =~= Map::<(u32, u32), (u32, u32)>::empty());
        }
        merges
    }

    /// The rank and the result of merging a pair.
    pub fn get(&self, left: u32, right: u32) -> (found: Option<(u32, u32)>)
        ensures
            found == (if self@.contains_key((left, right)) { Some(self@[(left, right)]) } else { None::<(u32, u32)> }),
    {
        match self.table.get(&pack(left, right)) {
            Some(entry) => Some(*entry),
            None => None,
        }
    }

    /// How many merges there are.
    pub fn len(&self) -> (n: usize)
        requires
            self.wf(),
        ensures
            n == self@.len(),
    {
        self.count
    }

    fn insert(&mut self, left: u32, right: u32, entry: (u32, u32))
        requires
            old(self).wf(),
            old(self).count < usize::MAX,
            !old(self)@.contains_key((left, right)),
        ensures
            final(self).wf(),
            final(self).count == old(self).count + 1,
            final(self)@ == old(self)@.insert((left, right), entry),
    {
        self.table.insert(pack(left, right), entry);
        self.count += 1;
        proof {
            assert forall|pair: (u32, u32)| packed(pair.0, pair.1) == packed(left, right) implies pair == (left, right) by {
                lemma_packed_injective(pair, (left, right));
            }
            assert(self@ =~= old(self)@.insert((left, right), entry));
        }
    }
}

/// Where the first space of a text stands; the length if there is none.
pub open spec fn first_space(s: Seq<char>) -> int
    decreases s.len(),
{
    if s.len() == 0 || s[0] == ' ' {
        0
    } else {
        1 + first_space(s.drop_first())
    }
}

/// What one line of the merge list means: the pair, and the token it makes.
/// Nothing unless there is a space, and both sides and the whole are tokens.
pub open spec fn merge_of(line: Seq<char>, ids: Map<Seq<char>, u32>) -> Option<((u32, u32), u32)> {
    let at = first_space(line);
    let left = line.take(at);
    let right = line.skip(at + 1);
    if at < line.len() && ids.contains_key(left) && ids.contains_key(right) && ids.contains_key(left + right) {
        Some(((ids[left], ids[right]), ids[left + right]))
    } else {
        None
    }
}

/// The merge table of the first `n` lines: ranks are line numbers, and the
/// first line about a pair counts.
pub open spec fn merge_table(lines: Seq<Seq<char>>, ids: Map<Seq<char>, u32>, n: nat) -> Map<(u32, u32), (u32, u32)>
    decreases n,
{
    if n == 0 {
        Map::empty()
    } else {
        let table = merge_table(lines, ids, (n - 1) as nat);
        match merge_of(lines[n - 1], ids) {
            None => table,
            Some((pair, merged)) => if table.contains_key(pair) {
                table
            } else {
                table.insert(pair, ((n - 1) as u32, merged))
            },
        }
    }
}

/// The texts of a list of slices.
pub open spec fn slices(list: Seq<&str>) -> Seq<Seq<char>> {
    Seq::new(list.len(), |i: int| list[i]@)
}

proof fn lemma_first_space(s: Seq<char>, at: int)
    requires
        0 <= at <= s.len(),
        forall|j: int| 0 <= j < at ==> s[j] != ' ',
        at < s.len() ==> s[at] == ' ',
    ensures
        first_space(s) == at,
    decreases s.len(),
{
    if at > 0 {
        let rest = s.drop_first();
        assert forall|j: int| 0 <= j < at - 1 implies rest[j] != ' ' by {
            assert(s[j + 1] != ' ');
        }
        lemma_first_space(rest, at - 1);
    }
}

fn parse_merge(line: &str, ids: &Ids) -> (found: Option<((u32, u32), u32)>)
    ensures
        found == merge_of(line@, ids@),
{
    let chars = text::to_chars(line);
    let mut at: usize = 0;
    while at < chars.len() && chars[at] != ' '
        invariant
            at <= chars@.len(),
            forall|j: int| 0 <= j < at ==> chars@[j] != ' ',
        decreases chars@.len() - at,
    {
        at += 1;
    }
    proof {
        lemma_first_space(line@, at as int);
    }
    if at == chars.len() {
        return None;
    }
    let left = text::from_chars(chars.as_slice(), 0, at);
    let right = text::from_chars(chars.as_slice(), at + 1, chars.len());
    let mut whole = left.clone();
    whole.append(right.as_str());
    proof {
        assert(left@ =~= line@.take(at as int));
        assert(right@ =~= line@.skip(at + 1));
    }
    match (ids.get(left.as_str()), ids.get(right.as_str()), ids.get(whole.as_str())) {
        (Some(l), Some(r), Some(merged)) => Some(((l, r), merged)),
        _ => None,
    }
}

/// Builds the merge table from `tokenizer.ggml.merges`, whose entries look like
/// `"Ġt he"`: two token texts separated by a space. Space itself is stored as
/// `Ġ` in these vocabs, so splitting on the first literal space is unambiguous.
pub fn load_merges(list: &[&str], ids: &Ids) -> (merges: Merges)
    ensures
        merges.wf(),
        merges@ == merge_table(slices(list@), ids@, list@.len()),
{
    let mut merges = Merges::new();
    let mut i: usize = 0;
    while i < list.len()
        invariant
            i <= list@.len(),
            merges.wf(),
            merges.count <= i,
            merges@ == merge_table(slices(list@), ids@, i as nat),
        decreases list@.len() - i,
    {
        proof {
            assert(slices(list@)[i as int] == list@[i as int]@);
        }
        match parse_merge(list[i], ids) {
            Some((pair, merged)) => {
                if merges.get(pair.0, pair.1).is_none() {
                    merges.insert(pair.0, pair.1, (i as u32, merged));
                }
            },
            None => {},
        }
        i += 1;
    }
    merges
}

/// Whether the neighbours at `i` can be merged.
pub open spec fn mergeable(merges: Map<(u32, u32), (u32, u32)>, symbols: Seq<u32>, i: int) -> bool {
    0 <= i && i + 1 < symbols.len() && merges.contains_key((symbols[i], symbols[i + 1]))
}

/// The rank of merging the neighbours at `i`.
pub open spec fn rank_at(merges: Map<(u32, u32), (u32, u32)>, symbols: Seq<u32>, i: int) -> u32 {
    merges[(symbols[i], symbols[i + 1])].0
}

/// Whether `i` is the merge to apply: of the lowest rank, and the leftmost of
/// those.
pub open spec fn is_next(merges: Map<(u32, u32), (u32, u32)>, symbols: Seq<u32>, i: int) -> bool {
    &&& mergeable(merges, symbols, i)
    &&& forall|j: int| #[trigger]
        mergeable(merges, symbols, j) ==> rank_at(merges, symbols, i) < rank_at(merges, symbols, j) || (rank_at(
            merges,
            symbols,
            i,
        ) == rank_at(merges, symbols, j) && i <= j)
}

/// The symbols after the neighbours at `i` were merged.
pub open spec fn merged_at(merges: Map<(u32, u32), (u32, u32)>, symbols: Seq<u32>, i: int) -> Seq<u32> {
    symbols.update(i, merges[(symbols[i], symbols[i + 1])].1).remove(i + 1)
}

/// The symbols after no merge is left.
pub open spec fn collapsed(merges: Map<(u32, u32), (u32, u32)>, symbols: Seq<u32>) -> Seq<u32>
    decreases symbols.len(),
{
    if exists|i: int| is_next(merges, symbols, i) {
        let i = choose|i: int| is_next(merges, symbols, i);
        collapsed(merges, merged_at(merges, symbols, i))
    } else {
        symbols
    }
}

fn find_next(merges: &Merges, symbols: &[u32]) -> (best: Option<(usize, u32)>)
    ensures
        match best {
            Some((at, merged)) => is_next(merges@, symbols@, at as int) && merged == merges@[(
                symbols@[at as int],
                symbols@[at + 1],
            )].1,
            None => forall|i: int| !#[trigger] mergeable(merges@, symbols@, i),
        },
{
    let mut best: Option<(usize, u32, u32)> = None;
    let mut i: usize = 0;
    while i < symbols.len() && i + 1 < symbols.len()
        invariant
            i <= symbols@.len(),
            match best {
                Some((at, rank, merged)) => {
                    &&& at < i
                    &&& mergeable(merges@, symbols@, at as int)
                    &&& rank == rank_at(merges@, symbols@, at as int)
                    &&& merged == merges@[(symbols@[at as int], symbols@[at + 1])].1
                    &&& forall|j: int| j < i && #[trigger] mergeable(merges@, symbols@, j) ==> rank < rank_at(
                        merges@,
                        symbols@,
                        j,
                    ) || (rank == rank_at(merges@, symbols@, j) && at <= j)
                },
                None => forall|j: int| j < i ==> !#[trigger] mergeable(merges@, symbols@, j),
            },
        decreases symbols@.len() - i,
    {
        if let Some((rank, merged)) = merges.get(symbols[i], symbols[i + 1]) {
            let better: bool = match best {
                None => true,
                Some((_, best_rank, _)) => rank < best_rank,
            };
            if better {
                best = Some((i, rank, merged));
            }
        }
        i += 1;
    }
    match best {
        Some((at, _, merged)) => Some((at, merged)),
        None => None,
    }
}

proof fn lemma_next_unique(merges: Map<(u32, u32), (u32, u32)>, symbols: Seq<u32>, i: int)
    requires
        is_next(merges, symbols, i),
    ensures
        collapsed(merges, symbols) == collapsed(merges, merged_at(merges, symbols, i)),
{
    let k = choose|k: int| is_next(merges, symbols, k);
    assert(mergeable(merges, symbols, i));
    assert(mergeable(merges, symbols, k));
}

/// Collapses the symbols, lowest rank first.
pub fn apply_merges(merges: &Merges, symbols: &mut Vec<u32>)
    ensures
        final(symbols)@ == collapsed(merges@, old(symbols)@),
{
    // Rescanning is quadratic in the length of one pretoken, and a pretoken is
    // a word.
    loop
        invariant
            collapsed(merges@, symbols@) == collapsed(merges@, old(symbols)@),
        ensures
            symbols@ == collapsed(merges@, old(symbols)@),
        decreases symbols@.len(),
    {
        match find_next(merges, symbols.as_slice()) {
            None => {
                proof {
                    assert forall|i: int| !is_next(merges@, symbols@, i) by {
                        assert(!mergeable(merges@, symbols@, i));
                    }
                }
                break;
            },
            Some((at, merged)) => {
                proof {
                    lemma_next_unique(merges@, symbols@, at as int);
                }
                let n: usize = symbols.len();
                assert(at + 1 < n);
                symbols[at] = merged;
                symbols.remove(at + 1);
            },
        }
    }
}

/// What symbols spell, token by token.
pub open spec fn spelled(tokens: Seq<Seq<char>>, symbols: Seq<u32>) -> Seq<char> {
    concat(symbols.map_values(|id: u32| tokens[id as int]))
}

/// Whether every id of the index is the place of its token.
pub open spec fn places(ids: Map<Seq<char>, u32>, tokens: Seq<Seq<char>>) -> bool {
    forall|token: Seq<char>| #[trigger]
        ids.contains_key(token) ==> ids[token] < tokens.len() && tokens[ids[token] as int] == token
}

/// Whether every merge makes the token that its two sides spell.
pub open spec fn faithful(merges: Map<(u32, u32), (u32, u32)>, tokens: Seq<Seq<char>>) -> bool {
    forall|pair: (u32, u32)| #[trigger]
        merges.contains_key(pair) ==> tokens[merges[pair].1 as int] == tokens[pair.0 as int] + tokens[pair.1 as int]
}

/// A loaded merge makes the token that its two sides spell.
pub proof fn lemma_loaded_merges_are_faithful(
    lines: Seq<Seq<char>>,
    ids: Map<Seq<char>, u32>,
    tokens: Seq<Seq<char>>,
    n: nat,
)
    requires
        places(ids, tokens),
        n <= lines.len(),
    ensures
        faithful(merge_table(lines, ids, n), tokens),
    decreases n,
{
    if n > 0 {
        lemma_loaded_merges_are_faithful(lines, ids, tokens, (n - 1) as nat);
    }
}

proof fn lemma_merge_keeps_text(tokens: Seq<Seq<char>>, merges: Map<(u32, u32), (u32, u32)>, symbols: Seq<u32>, i: int)
    requires
        faithful(merges, tokens),
        mergeable(merges, symbols, i),
    ensures
        spelled(tokens, merged_at(merges, symbols, i)) == spelled(tokens, symbols),
{
    let f = |id: u32| tokens[id as int];
    let before = symbols.map_values(f);
    let after = merged_at(merges, symbols, i).map_values(f);
    let head = before.take(i);
    let tail = before.skip(i + 2);
    let pair = seq![before[i], before[i + 1]];
    let one = seq![before[i] + before[i + 1]];
    assert(before =~= head + pair + tail);
    assert(after =~= head + one + tail);
    lemma_concat_add(head + pair, tail);
    lemma_concat_add(head, pair);
    lemma_concat_add(head + one, tail);
    lemma_concat_add(head, one);
    assert(concat(pair) =~= before[i] + before[i + 1]) by {
        assert(pair.drop_last() =~= seq![before[i]]);
        assert(seq![before[i]].drop_last() =~= Seq::empty());
        reveal_with_fuel(concat, 3);
    }
    assert(concat(one) =~= before[i] + before[i + 1]) by {
        assert(one.drop_last() =~= Seq::empty());
        reveal_with_fuel(concat, 2);
    }
}

/// Merging never changes what the symbols spell.
pub proof fn lemma_merging_keeps_text(
    tokens: Seq<Seq<char>>,
    merges: Map<(u32, u32), (u32, u32)>,
    symbols: Seq<u32>,
)
    requires
        faithful(merges, tokens),
    ensures
        spelled(tokens, collapsed(merges, symbols)) == spelled(tokens, symbols),
    decreases symbols.len(),
{
    if exists|i: int| is_next(merges, symbols, i) {
        let i = choose|i: int| is_next(merges, symbols, i);
        lemma_merge_keeps_text(tokens, merges, symbols, i);
        lemma_merging_keeps_text(tokens, merges, merged_at(merges, symbols, i));
    }
}

proof fn lemma_next_exists(merges: Map<(u32, u32), (u32, u32)>, symbols: Seq<u32>, j: int)
    requires
        mergeable(merges, symbols, j),
    ensures
        exists|i: int| is_next(merges, symbols, i),
    decreases rank_at(merges, symbols, j), j,
{
    if !is_next(merges, symbols, j) {
        let k = choose|k: int|
            #![trigger mergeable(merges, symbols, k)]
            mergeable(merges, symbols, k) && !(rank_at(merges, symbols, j) < rank_at(merges, symbols, k) || (rank_at(
                merges,
                symbols,
                j,
            ) == rank_at(merges, symbols, k) && j <= k));
        lemma_next_exists(merges, symbols, k);
    }
}

/// After merging no two neighbours can be merged.
pub proof fn lemma_nothing_left_to_merge(merges: Map<(u32, u32), (u32, u32)>, symbols: Seq<u32>, j: int)
    ensures
        !mergeable(merges, collapsed(merges, symbols), j),
    decreases symbols.len(),
{
    if exists|i: int| is_next(merges, symbols, i) {
        let i = choose|i: int| is_next(merges, symbols, i);
        lemma_nothing_left_to_merge(merges, merged_at(merges, symbols, i), j);
    } else if mergeable(merges, symbols, j) {
        lemma_next_exists(merges, symbols, j);
    }
}

// -------------------------------------------------------------- pretokenization

/// What `char::is_alphabetic` says of a character.
pub uninterp spec fn alphabetic(ch: char) -> bool;

/// What `char::is_numeric` says of a character.
pub uninterp spec fn numeric(ch: char) -> bool;

/// The characters with the Unicode property `White_Space`.
pub open spec fn whitespace(ch: char) -> bool {
    let c = ch as u32;
    ||| 0x9 <= c <= 0xD
    ||| c == 0x20 || c == 0x85 || c == 0xA0 || c == 0x1680
    ||| 0x2000 <= c <= 0x200A
    ||| c == 0x2028 || c == 0x2029 || c == 0x202F || c == 0x205F || c == 0x3000
}

/// `char::is_alphabetic` goes by the Unicode tables, and by its name here.
pub assume_specification[ char::is_alphabetic ](ch: char) -> (yes: bool)
    ensures
        yes == alphabetic(ch),
;

/// `char::is_numeric` goes by the Unicode tables, and by its name here.
pub assume_specification[ char::is_numeric ](ch: char) -> (yes: bool)
    ensures
        yes == numeric(ch),
;

/// `char::is_whitespace` is true exactly of the characters with the property
/// `White_Space`, which are listed here.
pub assume_specification[ char::is_whitespace ](ch: char) -> (yes: bool)
    ensures
        yes == whitespace(ch),
;

/// Character classes that never share a chunk.
#[derive(Clone, Copy, Debug, PartialEq, Eq, Structural)]
pub enum Class {
    Space,
    Letter,
    Digit,
    Other,
}

/// The class of a character.
pub open spec fn class(ch: char) -> Class {
    if whitespace(ch) {
        Class::Space
    } else if alphabetic(ch) {
        Class::Letter
    } else if numeric(ch) {
        Class::Digit
    } else {
        Class::Other
    }
}

/// The classes of the characters of a text.
pub open spec fn classes(text: Seq<char>) -> Seq<Class> {
    text.map_values(|ch: char| class(ch))
}

fn class_of(ch: char) -> (c: Class)
    ensures
        c == class(ch),
{
    if ch.is_whitespace() {
        Class::Space
    } else if ch.is_alphabetic() {
        Class::Letter
    } else if ch.is_numeric() {
        Class::Digit
    } else {
        Class::Other
    }
}

/// The classes of the characters of a text.
pub fn classify(text: &str) -> (marks: Vec<Class>)
    ensures
        marks@ == classes(text@),
{
    let chars = text::to_chars(text);
    let mut marks: Vec<Class> = Vec::new();
    let mut i: usize = 0;
    while i < chars.len()
        invariant
            chars@ == text@,
            i <= chars@.len(),
            marks@ == classes(text@).take(i as int),
        decreases chars@.len() - i,
    {
        marks.push(class_of(chars[i]));
        proof {
            assert(marks@ =~= classes(text@).take(i + 1));
        }
        i += 1;
    }
    proof {
        assert(classes(text@).take(i as int) =~= classes(text@));
    }
    marks
}

/// How long a contraction at `i` is: `'s 't 're 've 'm 'll 'd` are split off.
pub open spec fn contraction(text: Seq<char>, i: int) -> int {
    if i + 1 >= text.len() || text[i] != '\'' {
        0
    } else if text[i + 1] == 's' || text[i + 1] == 't' || text[i + 1] == 'm' || text[i + 1] == 'd' {
        2
    } else if i + 2 < text.len() && ((text[i + 1] == 'r' && text[i + 2] == 'e') || (text[i + 1] == 'v' && text[i + 2]
        == 'e') || (text[i + 1] == 'l' && text[i + 2] == 'l')) {
        3
    } else {
        0
    }
}

/// Where the run of one class at `i` ends.
pub open spec fn run_end(marks: Seq<Class>, i: int, c: Class) -> int
    decreases marks.len() - i,
{
    if 0 <= i < marks.len() && marks[i] == c {
        run_end(marks, i + 1, c)
    } else {
        i
    }
}

/// Where the chunks that start at `i` end.
pub open spec fn step_end(text: Seq<char>, marks: Seq<Class>, i: int) -> int {
    let run = run_end(marks, i, marks[i]);
    if contraction(text, i) > 0 {
        i + contraction(text, i)
    } else if marks[i] == Class::Space && run < text.len() {
        run_end(marks, run, marks[run])
    } else {
        run
    }
}

/// The chunks that start at `i`: a contraction, a run of one class, or a run of
/// whitespace, whose last character goes with the word that follows.
pub open spec fn step(text: Seq<char>, marks: Seq<Class>, i: int) -> Seq<Seq<char>> {
    let run = run_end(marks, i, marks[i]);
    let end = step_end(text, marks, i);
    if contraction(text, i) == 0 && marks[i] == Class::Space && run < text.len() {
        if run - i > 1 {
            seq![text.subrange(i, run - 1), text.subrange(run - 1, end)]
        } else {
            seq![text.subrange(run - 1, end)]
        }
    } else {
        seq![text.subrange(i, end)]
    }
}

proof fn lemma_run_end(marks: Seq<Class>, i: int, c: Class)
    requires
        0 <= i <= marks.len(),
    ensures
        i <= run_end(marks, i, c) <= marks.len(),
        i < marks.len() && marks[i] == c ==> i < run_end(marks, i, c),
    decreases marks.len() - i,
{
    if i < marks.len() && marks[i] == c {
        lemma_run_end(marks, i + 1, c);
    }
}

proof fn lemma_step_end(text: Seq<char>, marks: Seq<Class>, i: int)
    requires
        0 <= i < text.len(),
        marks.len() == text.len(),
    ensures
        i < step_end(text, marks, i) <= text.len(),
{
    let run = run_end(marks, i, marks[i]);
    lemma_run_end(marks, i, marks[i]);
    if run < text.len() {
        lemma_run_end(marks, run, marks[run]);
    }
}

/// The chunks of a marked text from `i` on.
pub open spec fn chunks_from(text: Seq<char>, marks: Seq<Class>, i: int) -> Seq<Seq<char>>
    decreases text.len() - i,
    via chunks_end
{
    if 0 <= i < text.len() && marks.len() == text.len() {
        step(text, marks, i) + chunks_from(text, marks, step_end(text, marks, i))
    } else {
        Seq::empty()
    }
}

#[via_fn]
proof fn chunks_end(text: Seq<char>, marks: Seq<Class>, i: int) {
    if 0 <= i < text.len() && marks.len() == text.len() {
        lemma_step_end(text, marks, i);
    }
}

/// The chunks of a text.
pub open spec fn pretokens(text: Seq<char>) -> Seq<Seq<char>> {
    chunks_from(text, classes(text), 0)
}

fn scan(marks: &[Class], i: usize) -> (end: usize)
    requires
        i < marks@.len(),
    ensures
        end == run_end(marks@, i as int, marks@[i as int]),
        i < end <= marks@.len(),
{
    let c = marks[i];
    let mut end: usize = i + 1;
    while end < marks.len() && marks[end] == c
        invariant
            i < end <= marks@.len(),
            run_end(marks@, end as int, c) == run_end(marks@, i as int, c),
        decreases marks@.len() - end,
    {
        end += 1;
    }
    end
}

fn contraction_at(chars: &[char], i: usize) -> (n: usize)
    requires
        i < chars@.len(),
    ensures
        n == contraction(chars@, i as int),
        i + n <= chars@.len(),
{
    let left: usize = chars.len() - i;
    if left < 2 || chars[i] != '\'' {
        return 0;
    }
    let a = chars[i + 1];
    if a == 's' || a == 't' || a == 'm' || a == 'd' {
        return 2;
    }
    if left < 3 {
        return 0;
    }
    let b = chars[i + 2];
    if (a == 'r' && b == 'e') || (a == 'v' && b == 'e') || (a == 'l' && b == 'l') {
        3
    } else {
        0
    }
}

/// Splits text into the chunks BPE merges within. Merges never cross a chunk
/// boundary, so this decides tokenization as much as the merge table does.
///
/// This has the behaviour of the GPT-2 pattern, without a regex engine: a
/// single leading space attaches to the following word, runs of letters, digits
/// and punctuation split apart, and a whitespace run keeps all but its last
/// character.
pub fn pretokenize(text: &str) -> (out: Vec<String>)
    ensures
        texts(out@) == pretokens(text@),
{
    let marks = classify(text);
    split(text, marks.as_slice())
}

/// Splits a text whose characters are marked with their classes.
pub fn split(text: &str, marks: &[Class]) -> (out: Vec<String>)
    requires
        marks@.len() == text@.len(),
    ensures
        texts(out@) == chunks_from(text@, marks@, 0),
{
    let chars = text::to_chars(text);
    let mut out: Vec<String> = Vec::new();
    let mut i: usize = 0;
    proof {
        assert(texts(out@) + chunks_from(text@, marks@, 0) =~= chunks_from(text@, marks@, 0));
    }
    while i < chars.len()
        invariant
            chars@ == text@,
            marks@.len() == text@.len(),
            i <= chars@.len(),
            texts(out@) + chunks_from(text@, marks@, i as int) == chunks_from(text@, marks@, 0),
        decreases chars@.len() - i,
    {
        let ghost before = out@;
        let ghost start = i as int;
        proof {
            lemma_step_end(text@, marks@, start);
        }
        let short: usize = contraction_at(chars.as_slice(), i);
        if short > 0 {
            push_chunk(&mut out, chars.as_slice(), i, i + short);
            i = i + short;
        } else {
            let run: usize = scan(marks, i);
            if marks[i] == Class::Space && run < chars.len() {
                // Everything but the final space is its own chunk; the final
                // space belongs to the word that follows.
                if run - i > 1 {
                    push_chunk(&mut out, chars.as_slice(), i, run - 1);
                }
                let end: usize = scan(marks, run);
                push_chunk(&mut out, chars.as_slice(), run - 1, end);
                i = end;
            } else {
                push_chunk(&mut out, chars.as_slice(), i, run);
                i = run;
            }
        }
        proof {
            assert(i == step_end(text@, marks@, start));
            assert(texts(out@) =~= texts(before) + step(text@, marks@, start));
            assert(texts(before) + (step(text@, marks@, start) + chunks_from(text@, marks@, i as int)) =~= texts(out@)
                + chunks_from(text@, marks@, i as int));
        }
    }
    proof {
        assert(texts(out@) + chunks_from(text@, marks@, i as int) =~= texts(out@));
    }
    out
}

fn push_chunk(out: &mut Vec<String>, chars: &[char], from: usize, to: usize)
    requires
        from <= to <= chars@.len(),
    ensures
        texts(final(out)@) == texts(old(out)@).push(chars@.subrange(from as int, to as int)),
{
    let chunk = text::from_chars(chars, from, to);
    out.push(chunk);
    proof {
        assert(texts(out@) =~= texts(old(out)@).push(chunk@));
    }
}

proof fn lemma_step_text(text: Seq<char>, marks: Seq<Class>, i: int)
    requires
        0 <= i < text.len(),
        marks.len() == text.len(),
    ensures
        concat(step(text, marks, i)) == text.subrange(i, step_end(text, marks, i)),
        forall|k: int| 0 <= k < step(text, marks, i).len() ==> (#[trigger] step(text, marks, i)[k]).len() > 0,
{
    lemma_step_end(text, marks, i);
    lemma_run_end(marks, i, marks[i]);
    let run = run_end(marks, i, marks[i]);
    let end = step_end(text, marks, i);
    let chunks = step(text, marks, i);
    if run < text.len() {
        lemma_run_end(marks, run, marks[run]);
    }
    reveal_with_fuel(concat, 3);
    if chunks.len() == 2 {
        assert(chunks.drop_last() =~= seq![text.subrange(i, run - 1)]);
        assert(chunks.drop_last().drop_last() =~= Seq::empty());
        assert(concat(chunks) =~= text.subrange(i, end));
    } else {
        assert(chunks.drop_last() =~= Seq::empty());
        assert(concat(chunks) =~= text.subrange(i, end));
    }
}

proof fn lemma_chunks_partition(text: Seq<char>, marks: Seq<Class>, i: int)
    requires
        0 <= i <= text.len(),
        marks.len() == text.len(),
    ensures
        concat(chunks_from(text, marks, i)) == text.skip(i),
        forall|k: int| 0 <= k < chunks_from(text, marks, i).len() ==> (#[trigger] chunks_from(text, marks, i)[k]).len() > 0,
    decreases text.len() - i,
{
    if i < text.len() {
        let next = step_end(text, marks, i);
        lemma_step_end(text, marks, i);
        lemma_step_text(text, marks, i);
        lemma_chunks_partition(text, marks, next);
        lemma_concat_add(step(text, marks, i), chunks_from(text, marks, next));
        assert(text.subrange(i, next) + text.skip(next) =~= text.skip(i));
    } else {
        assert(concat(chunks_from(text, marks, i)) =~= text.skip(i));
    }
}

/// The chunks partition the text: none is empty, nothing is lost and nothing is
/// duplicated.
pub proof fn lemma_pretokens_partition(text: Seq<char>)
    ensures
        concat(pretokens(text)) == text,
        forall|k: int| 0 <= k < pretokens(text).len() ==> (#[trigger] pretokens(text)[k]).len() > 0,
{
    lemma_chunks_partition(text, classes(text), 0);
    assert(text.skip(0) =~= text);
}

} // verus!
