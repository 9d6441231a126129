//! The shape of the chunks that a text is cut into before merging.
//!
//! Each law speaks of a chunk, of where it starts in the text and of the
//! characters around it, and says which chunk must stand there.

use vstd::prelude::*;

use super::bpe::{
    alphabetic, chunks_from, class, classes, contraction, numeric, pretokens, run_end, step, step_end, whitespace, Class,
};
use crate::text::{concat, lemma_concat_add, stands_at};

verus! {

/// Whether two characters are of one kind: whitespace, else letters, else
/// digits, else anything.
pub open spec fn alike(a: char, b: char) -> bool {
    &&& whitespace(a) == whitespace(b)
    &&& !whitespace(a) ==> alphabetic(a) == alphabetic(b)
    &&& !whitespace(a) && !alphabetic(a) ==> numeric(a) == numeric(b)
}

/// Whether one of the seven English contractions stands at a place.
pub open spec fn contracted(text: Seq<char>, at: int) -> bool {
    ||| stands_at(text, "'s"@, at)
    ||| stands_at(text, "'t"@, at)
    ||| stands_at(text, "'re"@, at)
    ||| stands_at(text, "'ve"@, at)
    ||| stands_at(text, "'m"@, at)
    ||| stands_at(text, "'ll"@, at)
    ||| stands_at(text, "'d"@, at)
}

/// Where chunk `k` starts: behind the chunks before it.
pub open spec fn start_of(chunks: Seq<Seq<char>>, k: int) -> int {
    concat(chunks.take(k)).len() as int
}

/// Whether `chunk` is what must stand at `at`, where it is no contraction.
/// - A word is a run of characters of one kind, as long as it can be.
/// - One whitespace character right before a word goes with the word.
/// - Whitespace alone runs to the end of the text, or up to the one character
///   that goes with the next word.
pub open spec fn well_cut(text: Seq<char>, at: int, chunk: Seq<char>) -> bool {
    let end = at + chunk.len();
    let from: int = if whitespace(chunk[0]) && !whitespace(chunk.last()) {
        1
    } else {
        0
    };
    &&& forall|j: int| from <= j < chunk.len() ==> alike(#[trigger] chunk[j], chunk.last())
    &&& !whitespace(chunk.last()) ==> end == text.len() || !alike(text[end], chunk.last())
    &&& whitespace(chunk.last()) ==> end == text.len() || (whitespace(text[end]) && end + 1 < text.len()
        && !whitespace(text[end + 1]))
}

/// Whether the chunk that starts at `at` is the one that must stand there.
pub open spec fn right_chunk(text: Seq<char>, at: int, chunk: Seq<char>) -> bool {
    &&& chunk.len() > 0
    &&& stands_at(text, chunk, at)
    &&& stands_at(text, "'s"@, at) ==> chunk == "'s"@
    &&& stands_at(text, "'t"@, at) ==> chunk == "'t"@
    &&& stands_at(text, "'re"@, at) ==> chunk == "'re"@
    &&& stands_at(text, "'ve"@, at) ==> chunk == "'ve"@
    &&& stands_at(text, "'m"@, at) ==> chunk == "'m"@
    &&& stands_at(text, "'ll"@, at) ==> chunk == "'ll"@
    &&& stands_at(text, "'d"@, at) ==> chunk == "'d"@
    &&& !contracted(text, at) ==> well_cut(text, at, chunk)
}

proof fn lemma_run(text: Seq<char>, i: int, c: Class)
    requires
        0 <= i <= text.len(),
    ensures
        ({
            let end = run_end(classes(text), i, c);
            &&& i <= end <= text.len()
            &&& forall|j: int| i <= j < end ==> class(#[trigger] text[j]) == c
            &&& end < text.len() ==> class(text[end]) != c
        }),
    decreases text.len() - i,
{
    let marks = classes(text);
    if i < marks.len() && marks[i] == c {
        lemma_run(text, i + 1, c);
        assert(class(text[i]) == c);
    }
}

proof fn lemma_two_stand(text: Seq<char>, word: Seq<char>, at: int)
    requires
        word.len() == 2,
        0 <= at,
    ensures
        stands_at(text, word, at) == (at + 1 < text.len() && text[at] == word[0] && text[at + 1] == word[1]),
{
    if at + 2 <= text.len() {
        let part = text.subrange(at, at + 2);
        assert(part[0] == text[at] && part[1] == text[at + 1]);
        if text[at] == word[0] && text[at + 1] == word[1] {
            assert(part =~= word);
        }
    }
}

proof fn lemma_three_stand(text: Seq<char>, word: Seq<char>, at: int)
    requires
        word.len() == 3,
        0 <= at,
    ensures
        stands_at(text, word, at) == (at + 2 < text.len() && text[at] == word[0] && text[at + 1] == word[1] && text[at
            + 2] == word[2]),
{
    if at + 3 <= text.len() {
        let part = text.subrange(at, at + 3);
        assert(part[0] == text[at] && part[1] == text[at + 1] && part[2] == text[at + 2]);
        if text[at] == word[0] && text[at + 1] == word[1] && text[at + 2] == word[2] {
            assert(part =~= word);
        }
    }
}

proof fn lemma_contraction_lengths(text: Seq<char>, i: int)
    requires
        0 <= i < text.len(),
    ensures
        (contraction(text, i) > 0) == contracted(text, i),
        0 <= contraction(text, i) <= text.len() - i,
        contracted(text, i) ==> right_chunk(text, i, text.subrange(i, i + contraction(text, i))),
{
    reveal_strlit("'s");
    reveal_strlit("'t");
    reveal_strlit("'re");
    reveal_strlit("'ve");
    reveal_strlit("'m");
    reveal_strlit("'ll");
    reveal_strlit("'d");
    lemma_two_stand(text, "'s"@, i);
    lemma_two_stand(text, "'t"@, i);
    lemma_two_stand(text, "'m"@, i);
    lemma_two_stand(text, "'d"@, i);
    lemma_three_stand(text, "'re"@, i);
    lemma_three_stand(text, "'ve"@, i);
    lemma_three_stand(text, "'ll"@, i);
    let n = contraction(text, i);
    if n > 0 {
        let chunk = text.subrange(i, i + n);
        assert(stands_at(text, chunk, i));
    }
}

/// No contraction starts with whitespace.
proof fn lemma_space_not_contracted(text: Seq<char>, at: int)
    requires
        0 <= at < text.len(),
        whitespace(text[at]),
    ensures
        !contracted(text, at),
{
    lemma_contraction_lengths(text, at);
}

proof fn lemma_step_right(text: Seq<char>, i: int)
    requires
        0 <= i < text.len(),
    ensures
        ({
            let chunks = step(text, classes(text), i);
            let end = step_end(text, classes(text), i);
            &&& i < end <= text.len()
            &&& chunks.len() == 1 || chunks.len() == 2
            &&& right_chunk(text, i, chunks[0])
            &&& chunks.len() == 1 ==> i + chunks[0].len() == end
            &&& chunks.len() == 2 ==> right_chunk(text, i + chunks[0].len(), chunks[1]) && i + chunks[0].len()
                + chunks[1].len() == end
        }),
{
    let marks = classes(text);
    let run = run_end(marks, i, marks[i]);
    let end = step_end(text, marks, i);
    let chunks = step(text, marks, i);
    lemma_run(text, i, marks[i]);
    lemma_contraction_lengths(text, i);
    assert(class(text[i]) == marks[i]);
    if contraction(text, i) == 0 {
        if marks[i] == Class::Space && run < text.len() {
            lemma_run(text, run, marks[run]);
            assert(class(text[run]) == marks[run]);
            let word = text.subrange(run - 1, end);
            assert(class(text[run - 1]) == Class::Space);
            lemma_space_not_contracted(text, run - 1);
            assert(word.last() == text[end - 1] && class(text[end - 1]) == marks[run]);
            assert(word[0] == text[run - 1]);
            assert forall|j: int| 1 <= j < word.len() implies alike(#[trigger] word[j], word.last()) by {
                assert(word[j] == text[run - 1 + j]);
            }
            if end < text.len() {
                assert(class(text[end]) != marks[run]);
            }
            assert(right_chunk(text, run - 1, word));
            if run - i > 1 {
                let gap = text.subrange(i, run - 1);
                assert(gap.last() == text[run - 2] && class(text[run - 2]) == Class::Space);
                assert(gap[0] == text[i]);
                assert forall|j: int| 0 <= j < gap.len() implies alike(#[trigger] gap[j], gap.last()) by {
                    assert(gap[j] == text[i + j]);
                }
                assert(right_chunk(text, i, gap));
            }
        } else {
            let chunk = text.subrange(i, run);
            assert(chunk.last() == text[run - 1] && class(text[run - 1]) == marks[i]);
            assert(chunk[0] == text[i]);
            assert forall|j: int| 0 <= j < chunk.len() implies alike(#[trigger] chunk[j], chunk.last()) by {
                assert(chunk[j] == text[i + j]);
            }
            if run < text.len() {
                assert(class(text[run]) != marks[i]);
            }
            assert(right_chunk(text, i, chunk));
        }
    }
}

proof fn lemma_chunks_right(text: Seq<char>, i: int, k: int)
    requires
        0 <= i <= text.len(),
        0 <= k < chunks_from(text, classes(text), i).len(),
    ensures
        right_chunk(
            text,
            i + start_of(chunks_from(text, classes(text), i), k),
            chunks_from(text, classes(text), i)[k],
        ),
    decreases text.len() - i,
{
    let marks = classes(text);
    let all = chunks_from(text, marks, i);
    assert(i < text.len());
    let first = step(text, marks, i);
    let next = step_end(text, marks, i);
    let rest = chunks_from(text, marks, next);
    lemma_step_right(text, i);
    assert(all == first + rest);
    reveal_with_fuel(concat, 3);
    if k == 0 {
        assert(all.take(0) =~= Seq::empty());
    } else if k < first.len() {
        assert(all.take(1).drop_last() =~= Seq::empty());
        assert(concat(all.take(1)) =~= first[0]);
    } else {
        let m = k - first.len();
        assert(all.take(k) =~= first + rest.take(m));
        lemma_concat_add(first, rest.take(m));
        if first.len() == 1 {
            assert(first.drop_last() =~= Seq::empty());
        } else {
            assert(first.drop_last().drop_last() =~= Seq::empty());
        }
        assert(i + concat(first).len() == next);
        lemma_chunks_right(text, next, m);
        assert(all[k] == rest[m]);
    }
}

/// Every chunk of a text is the one that must stand where it starts. Where one
/// of the seven contractions starts a chunk, the chunk is exactly that
/// contraction; any other chunk is a whole run of one kind, with at most one
/// whitespace character in front of a word.
pub proof fn lemma_pretoken_is_right(text: Seq<char>, k: int)
    requires
        0 <= k < pretokens(text).len(),
    ensures
        right_chunk(text, start_of(pretokens(text), k), pretokens(text)[k]),
{
    lemma_chunks_right(text, 0, k);
}

/// Where the chunk at a place is right, no other is: the laws leave one way to
/// cut a text.
pub proof fn lemma_right_chunk_is_unique(text: Seq<char>, at: int, a: Seq<char>, b: Seq<char>)
    requires
        right_chunk(text, at, a),
        right_chunk(text, at, b),
    ensures
        a == b,
{
    lemma_shorter(text, at, a, b);
    lemma_shorter(text, at, b, a);
    assert(a =~= text.subrange(at, at + a.len()));
}

proof fn lemma_shorter(text: Seq<char>, at: int, a: Seq<char>, b: Seq<char>)
    requires
        right_chunk(text, at, a),
        right_chunk(text, at, b),
    ensures
        a.len() >= b.len(),
{
    if a.len() < b.len() {
        let n = a.len() as int;
        assert forall|j: int| 0 <= j < b.len() implies b[j] == text[at + j] by {
            assert(text.subrange(at, at + b.len())[j] == text[at + j]);
        }
        assert forall|j: int| 0 <= j < n implies a[j] == text[at + j] by {
            assert(text.subrange(at, at + n)[j] == text[at + j]);
        }
        assert(a.last() == b[n - 1] && a[0] == b[0]);
        if !contracted(text, at) {
            assert(alike(b[n], b.last()));
            if !whitespace(a.last()) {
                assert(alike(b[n - 1], b.last()));
            } else {
                if n + 1 < b.len() {
                    assert(text[at + n + 1] == b[n + 1]);
                    assert(alike(b[n + 1], b.last()));
                }
            }
        }
    }
}

} // verus!
