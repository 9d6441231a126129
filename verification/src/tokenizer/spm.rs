//! SentencePiece-style tokenization for `llama` vocabs.
//!
//! Where BPE ranks merges by position in a list, SentencePiece scores every
//! token and merges the highest-scoring adjacent pair first: with a doubly
//! linked list of symbols and a max-heap of candidate merges, re-seeded around
//! each merge. That is proved to be what the plain statement says: merge the
//! best pair until none is left.

use vstd::multiset::Multiset;
use vstd::prelude::*;
use vstd::utf8::encode_utf8;

use super::heap::{leads, Candidate, Heap};
use super::{Tokenizer, TokenizerView};
use crate::float::total_rank;
use crate::text::{self, concat, lemma_concat_push};

verus! {

/// SentencePiece's stand-in for a space, U+2581 LOWER ONE EIGHTH BLOCK.
pub const SPACE: char = '\u{2581}';

// ------------------------------------------------------------------------ spec

/// A text with the stand-in for its spaces, and one in front.
pub open spec fn normalized(text: Seq<char>) -> Seq<char> {
    seq![SPACE] + text.map_values(
        |ch: char|
            if ch == ' ' {
                SPACE
            } else {
                ch
            },
    )
}

/// The characters of a text, each a part of its own.
pub open spec fn singles(text: Seq<char>) -> Seq<Seq<char>> {
    Seq::new(text.len(), |i: int| seq![text[i]])
}

/// Whether the parts at `i` and `i + 1` make a token together.
pub open spec fn joinable(v: TokenizerView, parts: Seq<Seq<char>>, i: int) -> bool {
    0 <= i && i + 1 < parts.len() && v.ids().contains_key(parts[i] + parts[i + 1])
}

/// The score of the token that the parts at `i` and `i + 1` make.
pub open spec fn score_at(v: TokenizerView, parts: Seq<Seq<char>>, i: int) -> u32 {
    v.score(v.ids()[parts[i] + parts[i + 1]])
}

/// Whether `i` is the pair to join: of the highest score, and the leftmost of
/// those.
pub open spec fn is_top(v: TokenizerView, parts: Seq<Seq<char>>, i: int) -> bool {
    &&& joinable(v, parts, i)
    &&& forall|j: int| #[trigger]
        joinable(v, parts, j) ==> total_rank(score_at(v, parts, i)) > total_rank(score_at(v, parts, j)) || (total_rank(
            score_at(v, parts, i),
        ) == total_rank(score_at(v, parts, j)) && i <= j)
}

/// The parts after those at `i` and `i + 1` were joined.
pub open spec fn joined_at(parts: Seq<Seq<char>>, i: int) -> Seq<Seq<char>> {
    parts.update(i, parts[i] + parts[i + 1]).remove(i + 1)
}

/// The parts after no pair is left to join.
pub open spec fn segmented(v: TokenizerView, parts: Seq<Seq<char>>) -> Seq<Seq<char>>
    decreases parts.len(),
{
    if exists|i: int| is_top(v, parts, i) {
        let i = choose|i: int| is_top(v, parts, i);
        segmented(v, joined_at(parts, i))
    } else {
        parts
    }
}

/// The ids of the first `n` bytes of a part that is no token: the byte's own,
/// else that of the unknown token, else none.
pub open spec fn byte_ids(v: TokenizerView, bytes: Seq<u8>, n: nat) -> Seq<u32>
    decreases n,
{
    if n == 0 {
        Seq::empty()
    } else {
        let before = byte_ids(v, bytes, (n - 1) as nat);
        match v.byte_id(bytes[n - 1]) {
            Some(id) => before.push(id),
            None => match v.unknown {
                Some(id) => before.push(id),
                None => before,
            },
        }
    }
}

/// The ids of a part.
pub open spec fn part_ids(v: TokenizerView, part: Seq<char>) -> Seq<u32> {
    match v.id(part) {
        Some(id) => seq![id],
        None => byte_ids(v, encode_utf8(part), encode_utf8(part).len()),
    }
}

/// The ids of parts, one after the other.
pub open spec fn parts_ids(v: TokenizerView, parts: Seq<Seq<char>>) -> Seq<u32> {
    concat(Seq::new(parts.len(), |i: int| part_ids(v, parts[i])))
}

/// The ids of a text.
pub open spec fn encoded(v: TokenizerView, text: Seq<char>) -> Seq<u32> {
    parts_ids(v, segmented(v, singles(normalized(text))))
}

proof fn lemma_top_unique(v: TokenizerView, parts: Seq<Seq<char>>, i: int)
    requires
        is_top(v, parts, i),
    ensures
        segmented(v, parts) == segmented(v, joined_at(parts, i)),
{
    let k = choose|k: int| is_top(v, parts, k);
    assert(joinable(v, parts, i));
    assert(joinable(v, parts, k));
}

/// Joining parts never changes the text they make together.
pub proof fn lemma_segmenting_keeps_text(v: TokenizerView, parts: Seq<Seq<char>>)
    ensures
        concat(segmented(v, parts)) == concat(parts),
    decreases parts.len(),
{
    if exists|i: int| is_top(v, parts, i) {
        let i = choose|i: int| is_top(v, parts, i);
        let after = joined_at(parts, i);
        let head = parts.take(i);
        let tail = parts.skip(i + 2);
        let pair = seq![parts[i], parts[i + 1]];
        let one = seq![parts[i] + parts[i + 1]];
        assert(parts =~= head + pair + tail);
        assert(after =~= head + one + tail);
        text::lemma_concat_add(head + pair, tail);
        text::lemma_concat_add(head, pair);
        text::lemma_concat_add(head + one, tail);
        text::lemma_concat_add(head, one);
        assert(concat(pair) =~= concat(one)) by {
            assert(pair.drop_last() =~= seq![parts[i]]);
            assert(seq![parts[i]].drop_last() =~= Seq::empty());
            assert(one.drop_last() =~= Seq::empty());
            reveal_with_fuel(concat, 3);
        }
        lemma_segmenting_keeps_text(v, after);
    }
}

proof fn lemma_singles_text(text: Seq<char>)
    ensures
        concat(singles(text)) == text,
    decreases text.len(),
{
    if text.len() > 0 {
        lemma_singles_text(text.drop_last());
        assert(singles(text).drop_last() =~= singles(text.drop_last()));
        assert(concat(singles(text)) =~= text);
    } else {
        assert(concat(singles(text)) =~= text);
    }
}

/// The parts of a text partition its normalized form.
pub proof fn lemma_parts_partition(v: TokenizerView, text: Seq<char>)
    ensures
        concat(segmented(v, singles(normalized(text)))) == normalized(text),
{
    lemma_segmenting_keeps_text(v, singles(normalized(text)));
    lemma_singles_text(normalized(text));
}

proof fn lemma_top_exists(v: TokenizerView, parts: Seq<Seq<char>>, j: int)
    requires
        joinable(v, parts, j),
    ensures
        exists|i: int| is_top(v, parts, i),
    decreases 0x8000_0000 - total_rank(score_at(v, parts, j)), j,
{
    if !is_top(v, parts, j) {
        let mine = total_rank(score_at(v, parts, j));
        let k = choose|k: int|
            #![trigger joinable(v, parts, k)]
            joinable(v, parts, k) && !(mine > total_rank(score_at(v, parts, k)) || (mine == total_rank(
                score_at(v, parts, k),
            ) && j <= k));
        lemma_top_exists(v, parts, k);
    }
}

/// After joining no two neighbours make a token together.
pub proof fn lemma_nothing_left_to_join(v: TokenizerView, parts: Seq<Seq<char>>, j: int)
    ensures
        !joinable(v, segmented(v, parts), j),
    decreases parts.len(),
{
    if exists|i: int| is_top(v, parts, i) {
        let i = choose|i: int| is_top(v, parts, i);
        lemma_nothing_left_to_join(v, joined_at(parts, i), j);
    } else if joinable(v, parts, j) {
        lemma_top_exists(v, parts, j);
    }
}

// -------------------------------------------------------------------- symbols

/// A symbol: it starts at the character of its own index.
#[derive(Clone, Copy)]
struct Symbol {
    prev: Option<usize>,
    next: Option<usize>,
    /// Zero once the symbol has been merged into its left neighbour.
    len: usize,
}

/// Where the part of the `k`th symbol ends.
spec fn end_of(order: Seq<int>, n: int, k: int) -> int {
    if k + 1 < order.len() {
        order[k + 1]
    } else {
        n
    }
}

/// The parts that the live symbols cut a text into.
spec fn parts_of(text: Seq<char>, order: Seq<int>) -> Seq<Seq<char>> {
    Seq::new(order.len(), |k: int| text.subrange(order[k], end_of(order, text.len() as int, k)))
}

/// The symbols are linked in `order`, and the others are dead.
spec fn linked(symbols: Seq<Symbol>, order: Seq<int>) -> bool {
    &&& order.len() > 0
    &&& order[0] == 0
    &&& forall|k: int| 0 <= k < order.len() ==> live_at(symbols, order, k)
    &&& forall|i: int| 0 <= i < symbols.len() && (#[trigger] symbols[i]).len > 0 ==> order.contains(i)
    &&& forall|j: int, k: int| 0 <= j < k < order.len() ==> #[trigger] order[j] < #[trigger] order[k]
}

spec fn live_at(symbols: Seq<Symbol>, order: Seq<int>, k: int) -> bool {
    let i = order[k];
    &&& 0 <= i < symbols.len()
    &&& symbols[i].len > 0
    &&& i + symbols[i].len == end_of(order, symbols.len() as int, k)
    &&& symbols[i].next == (if k + 1 < order.len() { Some(order[k + 1] as usize) } else { None::<usize> })
    &&& symbols[i].prev == (if k > 0 { Some(order[k - 1] as usize) } else { None::<usize> })
}

/// The candidate for joining the `k`th symbol with the next.
spec fn candidate_at(v: TokenizerView, text: Seq<char>, order: Seq<int>, k: int) -> Candidate {
    Candidate {
        left: order[k] as usize,
        right: order[k + 1] as usize,
        score: score_at(v, parts_of(text, order), k),
        size: (end_of(order, text.len() as int, k + 1) - order[k]) as usize,
    }
}

/// What holds of every queued candidate: its text is a token of its score, and
/// its two symbols are neighbours while both live.
spec fn sound(v: TokenizerView, text: Seq<char>, symbols: Seq<Symbol>, c: Candidate) -> bool {
    &&& c.left < c.right < symbols.len()
    &&& c.left + c.size <= text.len()
    &&& v.ids().contains_key(text.subrange(c.left as int, c.left + c.size))
    &&& c.score == v.score(v.ids()[text.subrange(c.left as int, c.left + c.size)])
    &&& symbols[c.left as int].len > 0 && symbols[c.right as int].len > 0 ==> symbols[c.left as int].next == Some(
        c.right,
    )
}

/// Every candidate is sound, and every pair that can be joined is queued.
spec fn queued(v: TokenizerView, text: Seq<char>, symbols: Seq<Symbol>, order: Seq<int>, queue: Multiset<Candidate>) -> bool {
    &&& forall|c: Candidate| #[trigger] queue.count(c) > 0 ==> sound(v, text, symbols, c)
    &&& forall|k: int| #[trigger]
        joinable(v, parts_of(text, order), k) ==> queue.count(candidate_at(v, text, order, k)) > 0
}

/// The pair of the `k`th symbol and the next spells the text between them.
proof fn lemma_pair_text(text: Seq<char>, symbols: Seq<Symbol>, order: Seq<int>, k: int)
    requires
        linked(symbols, order),
        symbols.len() == text.len(),
        0 <= k,
        k + 1 < order.len(),
    ensures
        parts_of(text, order)[k] + parts_of(text, order)[k + 1] == text.subrange(
            order[k],
            end_of(order, text.len() as int, k + 1),
        ),
        order[k] < order[k + 1] < end_of(order, text.len() as int, k + 1) <= text.len(),
{
    assert(live_at(symbols, order, k));
    assert(live_at(symbols, order, k + 1));
    if k + 2 < order.len() {
        assert(live_at(symbols, order, k + 2));
    }
    let parts = parts_of(text, order);
    assert(parts[k] + parts[k + 1] =~= text.subrange(order[k], end_of(order, text.len() as int, k + 1)));
}

/// The state after the `k`th symbol took in the next.
proof fn lemma_join(text: Seq<char>, before: Seq<Symbol>, after: Seq<Symbol>, order: Seq<int>, k: int)
    requires
        linked(before, order),
        before.len() == text.len(),
        0 <= k,
        k + 1 < order.len(),
        before.len() <= usize::MAX,
        after.len() == before.len(),
        ({
            let l = order[k];
            let r = order[k + 1];
            &&& after[l].len == before[l].len + before[r].len
            &&& after[l].next == before[r].next
            &&& after[l].prev == before[l].prev
            &&& after[r].len == 0
            &&& forall|i: int|
                0 <= i < before.len() && i != l && i != r ==> (#[trigger] after[i]).len == before[i].len
                    && after[i].next == before[i].next && after[i].prev == (if k + 2 < order.len() && i == order[k + 2] {
                    Some(l as usize)
                } else {
                    before[i].prev
                })
        }),
    ensures
        linked(after, order.remove(k + 1)),
        parts_of(text, order.remove(k + 1)) == joined_at(parts_of(text, order), k),
{
    let shorter = order.remove(k + 1);
    let n = text.len() as int;
    lemma_pair_text(text, before, order, k);
    assert forall|j: int, m: int| 0 <= j < m < shorter.len() implies #[trigger] shorter[j] < #[trigger] shorter[m] by {
        let j0 = if j <= k { j } else { j + 1 };
        let m0 = if m <= k { m } else { m + 1 };
        assert(order[j0] < order[m0]);
    }
    assert forall|j: int| 0 <= j < shorter.len() implies live_at(after, shorter, j) by {
        let j0 = if j <= k { j } else { j + 1 };
        assert(live_at(before, order, j0));
        assert(live_at(before, order, k));
        assert(live_at(before, order, k + 1));
        assert(shorter[j] == order[j0]);
        if j0 != k {
            assert(order[j0] != order[k]) by {
                if j0 < k {
                    assert(order[j0] < order[k]);
                } else {
                    assert(order[k] < order[j0]);
                }
            }
            assert(order[j0] != order[k + 1]) by {
                if j0 < k + 1 {
                    assert(order[j0] < order[k + 1]);
                } else {
                    assert(order[k + 1] < order[j0]);
                }
            }
            if k + 2 < order.len() && j0 != k + 2 {
                assert(order[j0] != order[k + 2]) by {
                    if j0 < k + 2 {
                        assert(order[j0] < order[k + 2]);
                    } else {
                        assert(order[k + 2] < order[j0]);
                    }
                }
            }
        }
    }
    assert forall|i: int| 0 <= i < after.len() && (#[trigger] after[i]).len > 0 implies shorter.contains(i) by {
        assert(before[i].len > 0) by {
            assert(live_at(before, order, k));
        }
        let m = choose|m: int| 0 <= m < order.len() && order[m] == i;
        assert(m != k + 1);
        let m1 = if m <= k { m } else { m - 1 };
        assert(shorter[m1] == i);
    }
    let parts = parts_of(text, order);
    let joined = parts_of(text, shorter);
    assert forall|j: int| 0 <= j < joined.len() implies joined[j] == joined_at(parts, k)[j] by {
        let j0 = if j <= k { j } else { j + 1 };
        assert(shorter[j] == order[j0]);
    }
    assert(joined =~= joined_at(parts, k));
}

// ------------------------------------------------------------------------ exec

/// Prepends the dummy prefix and swaps spaces for U+2581, the form the vocab
/// was built against.
pub fn normalize(text: &str) -> (out: String)
    ensures
        out@ == normalized(text@),
{
    let mut out = String::new();
    out.push(SPACE);
    let chars = text::to_chars(text);
    let mut i: usize = 0;
    proof {
        assert(out@ =~= normalized(text@.take(0)));
    }
    while i < chars.len()
        invariant
            chars@ == text@,
            i <= chars@.len(),
            out@ == normalized(text@.take(i as int)),
        decreases chars@.len() - i,
    {
        out.push(if chars[i] == ' ' { SPACE } else { chars[i] });
        proof {
            assert(out@ =~= normalized(text@.take(i + 1)));
        }
        i += 1;
    }
    proof {
        assert(text@.take(i as int) =~= text@);
    }
    out
}

/// Queues a pair of neighbours, if they make a token together.
fn enqueue(heap: &mut Heap, symbols: &[Symbol], chars: &[char], tok: &Tokenizer, left: usize, right: usize, Ghost(order): Ghost<Seq<int>>, Ghost(k): Ghost<int>)
    requires
        tok.wf(),
        old(heap).wf(),
        symbols@.len() == chars@.len(),
        linked(symbols@, order),
        0 <= k,
        k + 1 < order.len(),
        left == order[k],
        right == order[k + 1],
        forall|c: Candidate| #[trigger] old(heap)@.count(c) > 0 ==> sound(tok@, chars@, symbols@, c),
    ensures
        final(heap).wf(),
        forall|c: Candidate| #[trigger] final(heap)@.count(c) > 0 ==> sound(tok@, chars@, symbols@, c),
        forall|c: Candidate| #[trigger] old(heap)@.count(c) > 0 ==> final(heap)@.count(c) > 0,
        joinable(tok@, parts_of(chars@, order), k) ==> final(heap)@.count(candidate_at(tok@, chars@, order, k)) > 0,
{
    proof {
        lemma_pair_text(chars@, symbols@, order, k);
        assert(live_at(symbols@, order, k));
        assert(live_at(symbols@, order, k + 1));
    }
    let end: usize = right + symbols[right].len;
    let piece = text::from_chars(chars, left, end);
    if let Some(id) = tok.id(piece.as_str()) {
        let c = Candidate { left, right, score: tok.score(id), size: end - left };
        proof {
            assert(chars@.subrange(left as int, left + c.size) == piece@);
            assert(c == candidate_at(tok@, chars@, order, k));
            assert(sound(tok@, chars@, symbols@, c));
        }
        heap.push(c);
    }
}

/// Appends the ids of one part.
fn push_part(tok: &Tokenizer, piece: &str, out: &mut Vec<u32>)
    requires
        tok.wf(),
    ensures
        final(out)@ == old(out)@ + part_ids(tok@, piece@),
{
    match tok.id(piece) {
        Some(id) => {
            out.push(id);
            proof {
                assert(out@ =~= old(out)@ + part_ids(tok@, piece@));
            }
        },
        // Unsegmentable text falls back to one token per byte, which is why
        // these vocabs carry <0x00>..<0xFF>.
        None => {
            let bytes = piece.as_bytes();
            let mut i: usize = 0;
            proof {
                assert(out@ =~= old(out)@ + byte_ids(tok@, bytes@, 0));
            }
            while i < bytes.len()
                invariant
                    tok.wf(),
                    i <= bytes@.len(),
                    out@ == old(out)@ + byte_ids(tok@, bytes@, i as nat),
                decreases bytes@.len() - i,
            {
                let ghost before = out@;
                match tok.byte_id(bytes[i]) {
                    Some(id) => out.push(id),
                    None => match tok.unknown_id() {
                        Some(id) => out.push(id),
                        None => {},
                    },
                }
                proof {
                    assert(out@ =~= old(out)@ + byte_ids(tok@, bytes@, (i + 1) as nat));
                }
                i += 1;
            }
        },
    }
}

/// One symbol per character, linked in a row.
fn link(n: usize) -> (symbols: Vec<Symbol>)
    requires
        n > 0,
    ensures
        symbols@.len() == n,
        linked(symbols@, count_up(n as nat)),
{
    let mut symbols: Vec<Symbol> = Vec::new();
    let mut i: usize = 0;
    while i < n
        invariant
            i <= n,
            symbols@.len() == i,
            forall|j: int|
                0 <= j < i ==> (#[trigger] symbols@[j]).len == 1 && symbols@[j].prev == (if j > 0 {
                    Some((j - 1) as usize)
                } else {
                    None::<usize>
                }) && symbols@[j].next == (if j + 1 < n { Some((j + 1) as usize) } else { None::<usize> }),
        decreases n - i,
    {
        symbols.push(
            Symbol {
                prev: if i > 0 { Some(i - 1) } else { None },
                next: if i < n - 1 { Some(i + 1) } else { None },
                len: 1,
            },
        );
        i += 1;
    }
    proof {
        let order = count_up(n as nat);
        assert forall|k: int| 0 <= k < order.len() implies live_at(symbols@, order, k) by {
            assert(symbols@[k].len == 1);
        }
        assert forall|i: int| 0 <= i < symbols@.len() && (#[trigger] symbols@[i]).len > 0 implies order.contains(i) by {
            assert(order[i] == i);
        }
    }
    symbols
}

/// A candidate that came out on top and is not stale is the pair to join.
proof fn lemma_fresh(
    v: TokenizerView,
    text: Seq<char>,
    symbols: Seq<Symbol>,
    order: Seq<int>,
    queue: Multiset<Candidate>,
    c: Candidate,
) -> (k: int)
    requires
        linked(symbols, order),
        symbols.len() == text.len() <= usize::MAX,
        queued(v, text, symbols, order, queue),
        queue.count(c) > 0,
        forall|x: Candidate| #[trigger] queue.count(x) > 0 ==> leads(c, x),
        symbols[c.left as int].len > 0,
        symbols[c.right as int].len > 0,
        symbols[c.left as int].len + symbols[c.right as int].len == c.size,
    ensures
        0 <= k,
        k + 1 < order.len(),
        order[k] == c.left,
        order[k + 1] == c.right,
        c == candidate_at(v, text, order, k),
        is_top(v, parts_of(text, order), k),
{
    assert(sound(v, text, symbols, c));
    let k = choose|k: int| 0 <= k < order.len() && order[k] == c.left;
    assert(order.contains(c.left as int));
    assert(live_at(symbols, order, k));
    assert(live_at(symbols, order, k + 1));
    lemma_pair_text(text, symbols, order, k);
    let parts = parts_of(text, order);
    assert(joinable(v, parts, k));
    assert forall|j: int| #[trigger] joinable(v, parts, j) implies total_rank(score_at(v, parts, k)) > total_rank(
        score_at(v, parts, j),
    ) || (total_rank(score_at(v, parts, k)) == total_rank(score_at(v, parts, j)) && k <= j) by {
        let other = candidate_at(v, text, order, j);
        assert(queue.count(other) > 0);
        assert(leads(c, other));
        assert(live_at(symbols, order, j));
        if j < k {
            assert(order[j] < order[k]);
        }
    }
    k
}

/// A stale candidate stands for no pair that can be joined.
proof fn lemma_stale(
    v: TokenizerView,
    text: Seq<char>,
    symbols: Seq<Symbol>,
    order: Seq<int>,
    queue: Multiset<Candidate>,
    c: Candidate,
)
    requires
        linked(symbols, order),
        symbols.len() == text.len() <= usize::MAX,
        queued(v, text, symbols, order, queue.insert(c)),
        symbols[c.left as int].len == 0 || symbols[c.right as int].len == 0 || symbols[c.left as int].len
            + symbols[c.right as int].len != c.size,
    ensures
        queued(v, text, symbols, order, queue),
{
    assert forall|x: Candidate| #[trigger] queue.count(x) > 0 implies sound(v, text, symbols, x) by {
        assert(queue.insert(c).count(x) > 0);
    }
    assert forall|k: int| #[trigger] joinable(v, parts_of(text, order), k) implies queue.count(
        candidate_at(v, text, order, k),
    ) > 0 by {
        let own = candidate_at(v, text, order, k);
        assert(queue.insert(c).count(own) > 0);
        assert(live_at(symbols, order, k));
        assert(live_at(symbols, order, k + 1));
        lemma_pair_text(text, symbols, order, k);
        if own == c {
            assert(order[k] == c.left);
            assert(order[k + 1] == c.right);
            assert(c.size == end_of(order, text.len() as int, k + 1) - order[k]);
        }
    }
}

/// What is still queued after a join, apart from the new neighbours' pairs.
proof fn lemma_after_join(
    v: TokenizerView,
    text: Seq<char>,
    before: Seq<Symbol>,
    after: Seq<Symbol>,
    order: Seq<int>,
    queue: Multiset<Candidate>,
    k: int,
)
    requires
        linked(before, order),
        linked(after, order.remove(k + 1)),
        before.len() == text.len() <= usize::MAX,
        after.len() == before.len(),
        0 <= k,
        k + 1 < order.len(),
        queued(v, text, before, order, queue.insert(candidate_at(v, text, order, k))),
        parts_of(text, order.remove(k + 1)) == joined_at(parts_of(text, order), k),
        after[order[k + 1]].len == 0,
        forall|i: int|
            0 <= i < before.len() && i != order[k] && i != order[k + 1] ==> (#[trigger] after[i]).len == before[i].len
                && after[i].next == before[i].next,
    ensures
        forall|c: Candidate| #[trigger] queue.count(c) > 0 ==> sound(v, text, after, c),
        forall|j: int|
            j != k - 1 && j != k && #[trigger] joinable(v, parts_of(text, order.remove(k + 1)), j) ==> queue.count(
                candidate_at(v, text, order.remove(k + 1), j),
            ) > 0,
{
    let c0 = candidate_at(v, text, order, k);
    let shorter = order.remove(k + 1);
    let parts = parts_of(text, order);
    let joined = parts_of(text, shorter);
    assert forall|c: Candidate| #[trigger] queue.count(c) > 0 implies sound(v, text, after, c) by {
        assert(queue.insert(c0).count(c) > 0);
        assert(sound(v, text, before, c));
        assert(live_at(before, order, k));
        assert(live_at(before, order, k + 1));
        if after[c.left as int].len > 0 && after[c.right as int].len > 0 {
            assert(c.right != order[k + 1] && c.left != order[k + 1]);
            if c.left == order[k] {
                // Its neighbour was the symbol that is gone now.
                assert(before[c.left as int].next == Some(order[k + 1] as usize));
                assert(before[c.right as int].len > 0);
            }
        }
    }
    assert forall|j: int| j != k - 1 && j != k && #[trigger] joinable(v, joined, j) implies queue.count(
        candidate_at(v, text, shorter, j),
    ) > 0 by {
        let j0 = if j < k { j } else { j + 1 };
        assert(joined[j] == parts[j0]);
        assert(joined[j + 1] == parts[j0 + 1]);
        assert(joinable(v, parts, j0));
        let own = candidate_at(v, text, order, j0);
        assert(queue.insert(c0).count(own) > 0);
        assert(own == candidate_at(v, text, shorter, j));
        assert(live_at(before, order, j0));
        assert(live_at(before, order, k));
        if j0 < k {
            assert(order[j0] < order[k]);
        } else {
            assert(order[k] < order[j0]);
        }
        assert(own != c0);
    }
}

/// Merges the symbol `right` into its left neighbour.
fn absorb(symbols: &mut Vec<Symbol>, left: usize, right: usize, Ghost(text): Ghost<Seq<char>>, Ghost(order): Ghost<Seq<int>>, Ghost(k): Ghost<int>)
    requires
        linked(old(symbols)@, order),
        old(symbols)@.len() == text.len(),
        0 <= k,
        k + 1 < order.len(),
        order[k] == left,
        order[k + 1] == right,
    ensures
        final(symbols)@.len() == old(symbols)@.len(),
        linked(final(symbols)@, order.remove(k + 1)),
        parts_of(text, order.remove(k + 1)) == joined_at(parts_of(text, order), k),
        final(symbols)@[right as int].len == 0,
        forall|i: int|
            0 <= i < old(symbols)@.len() && i != left && i != right ==> (#[trigger] final(symbols)@[i]).len == old(
                symbols,
            )@[i].len && final(symbols)@[i].next == old(symbols)@[i].next,
{
    let ghost before = symbols@;
    proof {
        assert(live_at(before, order, k));
        assert(live_at(before, order, k + 1));
        if k + 2 < order.len() {
            assert(live_at(before, order, k + 2));
            assert(order[k + 1] < order[k + 2]);
        }
    }
    let n: usize = symbols.len();
    let absorbed = symbols[right];
    let grown = symbols[left];
    assert(left + grown.len + absorbed.len <= n);
    symbols[left] = Symbol { prev: grown.prev, next: absorbed.next, len: grown.len + absorbed.len };
    symbols[right] = Symbol { prev: absorbed.prev, next: absorbed.next, len: 0 };
    if let Some(next) = absorbed.next {
        let neighbour = symbols[next];
        symbols[next] = Symbol { prev: Some(left), next: neighbour.next, len: neighbour.len };
    }
    proof {
        lemma_join(text, before, symbols@, order, k);
    }
}

/// The order of symbols that are all alive.
spec fn count_up(n: nat) -> Seq<int> {
    Seq::new(n, |i: int| i)
}

/// The ids of a text.
pub fn encode(tok: &Tokenizer, text: &str) -> (ids: Vec<u32>)
    requires
        tok.wf(),
    ensures
        ids@ == encoded(tok@, text@),
{
    let chars = text::to_chars(normalize(text).as_str());
    let n: usize = chars.len();
    let mut symbols = link(n);
    let ghost v = tok@;
    let ghost line = chars@;
    let ghost mut order = count_up(n as nat);
    proof {
        assert(parts_of(line, order) =~= singles(line)) by {
            assert forall|k: int| 0 <= k < n implies parts_of(line, order)[k] == singles(line)[k] by {
                assert(line.subrange(k, k + 1) =~= seq![line[k]]);
            }
        }
    }
    let mut heap = Heap::new();
    let mut i: usize = 1;
    while i < n
        invariant
            1 <= i,
            tok.wf(),
            v == tok@,
            line == chars@,
            n == line.len() == symbols@.len(),
            order == count_up(n as nat),
            linked(symbols@, order),
            heap.wf(),
            forall|c: Candidate| #[trigger] heap@.count(c) > 0 ==> sound(v, line, symbols@, c),
            forall|k: int|
                k + 1 < i && #[trigger] joinable(v, parts_of(line, order), k) ==> heap@.count(
                    candidate_at(v, line, order, k),
                ) > 0,
        decreases n - i,
    {
        enqueue(
            &mut heap,
            symbols.as_slice(),
            chars.as_slice(),
            tok,
            i - 1,
            i,
            Ghost(order),
            Ghost(i - 1),
        );
        i += 1;
    }
    proof {
        assert(queued(v, line, symbols@, order, heap@)) by {
            assert forall|k: int| #[trigger] joinable(v, parts_of(line, order), k) implies heap@.count(
                candidate_at(v, line, order, k),
            ) > 0 by {
                assert(k + 1 < i);
            }
        }
    }
    loop
        invariant_except_break
            queued(v, line, symbols@, order, heap@),
        invariant
            tok.wf(),
            v == tok@,
            line == chars@,
            n == line.len() == symbols@.len(),
            linked(symbols@, order),
            heap.wf(),
            segmented(v, parts_of(line, order)) == segmented(v, singles(line)),
        ensures
            parts_of(line, order) == segmented(v, singles(line)),
        decreases order.len(), heap@.len(),
    {
        let ghost queue = heap@;
        let c = match heap.pop() {
            Some(c) => c,
            None => {
                proof {
                    assert forall|k: int| !is_top(v, parts_of(line, order), k) by {
                        if joinable(v, parts_of(line, order), k) {
                            assert(queue.count(candidate_at(v, line, order, k)) > 0);
                        }
                    }
                }
                break;
            },
        };
        proof {
            assert(queue.count(c) > 0);
            assert(sound(v, line, symbols@, c));
        }
        let left: usize = c.left;
        let right: usize = c.right;
        // Both symbols are still the size they were when this pair was queued;
        // otherwise a different merge got there first and this entry is stale.
        if symbols[left].len == 0 || symbols[right].len == 0 || symbols[right].len > c.size || symbols[left].len
            != c.size - symbols[right].len {
            proof {
                lemma_stale(v, line, symbols@, order, heap@, c);
            }
            continue;
        }
        let ghost k = lemma_fresh(v, line, symbols@, order, queue, c);
        let ghost before = symbols@;
        let ghost longer = order;
        proof {
            lemma_top_unique(v, parts_of(line, order), k);
        }
        absorb(&mut symbols, left, right, Ghost(line), Ghost(order), Ghost(k));
        proof {
            order = longer.remove(k + 1);
            lemma_after_join(v, line, before, symbols@, longer, heap@, k);
            assert(live_at(symbols@, order, k));
        }
        if let Some(prev) = symbols[left].prev {
            enqueue(
                &mut heap,
                symbols.as_slice(),
                chars.as_slice(),
                tok,
                prev,
                left,
                Ghost(order),
                Ghost(k - 1),
            );
        }
        if let Some(next) = symbols[left].next {
            enqueue(&mut heap, symbols.as_slice(), chars.as_slice(), tok, left, next, Ghost(order), Ghost(k));
        }
        proof {
            assert forall|j: int| #[trigger] joinable(v, parts_of(line, order), j) implies heap@.count(
                candidate_at(v, line, order, j),
            ) > 0 by {}
        }
    }
    let mut out: Vec<u32> = Vec::new();
    let mut at: Option<usize> = Some(0);
    let ghost mut k: int = 0;
    let ghost parts = parts_of(line, order);
    proof {
        assert(live_at(symbols@, order, 0));
        assert(out@ =~= parts_ids(v, parts.take(0)));
    }
    while at.is_some()
        invariant
            tok.wf(),
            v == tok@,
            line == chars@,
            n == line.len() == symbols@.len(),
            linked(symbols@, order),
            parts == parts_of(line, order),
            0 <= k <= order.len(),
            at == (if k < order.len() { Some(order[k] as usize) } else { None::<usize> }),
            out@ == parts_ids(v, parts.take(k)),
        decreases order.len() - k,
    {
        proof {
            assert(live_at(symbols@, order, k));
            if k + 1 < order.len() {
                assert(live_at(symbols@, order, k + 1));
            }
        }
        let index: usize = at.unwrap();
        let end: usize = index + symbols[index].len;
        let piece = text::from_chars(chars.as_slice(), index, end);
        proof {
            assert(piece@ == parts[k]);
            let ids_of = |s: Seq<Seq<char>>| Seq::new(s.len(), |i: int| part_ids(v, s[i]));
            assert(ids_of(parts.take(k + 1)) =~= ids_of(parts.take(k)).push(part_ids(v, parts[k])));
            lemma_concat_push(ids_of(parts.take(k)), part_ids(v, parts[k]));
        }
        push_part(tok, piece.as_str(), &mut out);
        at = symbols[index].next;
        proof {
            k = k + 1;
        }
    }
    proof {
        assert(parts.take(k) =~= parts);
    }
    out
}

} // verus!
