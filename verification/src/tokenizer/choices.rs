//! Which pair is put together next, and what a vocabulary says.
//!
//! Both families of vocabularies put neighbours together until nothing is left
//! to do. The laws say, of any state on the way, which pair is next and what
//! stands there afterwards.

use vstd::prelude::*;

use super::bpe::{collapsed, first_space, is_next, merge_of, merge_table, mergeable, merged_at, places};
use super::spm::{is_top, joinable, joined_at, normalized, segmented};
use super::{
    byte_of_token, byte_token, first_ids, hex_digit, hex_value, kind_of_number, spaced, special, special_at, special_ids,
    TokenKind, TokenizerView,
};
use crate::order::{finite, lemma_total_order_is_numeric, number};
use crate::text::stands_at;

verus! {

// ------------------------------------------------------------ joining by score

/// Whether the neighbours at `i` spell a token.
pub open spec fn spells(v: TokenizerView, parts: Seq<Seq<char>>, i: int) -> bool {
    0 <= i && i + 1 < parts.len() && v.id(parts[i] + parts[i + 1]) is Some
}

/// The score of the token that the neighbours at `i` spell.
pub open spec fn pair_score(v: TokenizerView, parts: Seq<Seq<char>>, i: int) -> u32 {
    v.score(v.id(parts[i] + parts[i + 1])->Some_0)
}

/// The pair whose score is the largest number is joined first; of pairs with one
/// score, the leftmost. The two parts become one and nothing else changes.
pub proof fn lemma_largest_score_joins_first(v: TokenizerView, parts: Seq<Seq<char>>, i: int)
    requires
        spells(v, parts, i),
        forall|j: int| #[trigger] spells(v, parts, j) ==> finite(pair_score(v, parts, j)),
        forall|j: int| #[trigger]
            spells(v, parts, j) && j != i ==> number(pair_score(v, parts, j)) < number(pair_score(v, parts, i)) || (
            pair_score(v, parts, j) == pair_score(v, parts, i) && i < j),
    ensures
        segmented(v, parts) == segmented(v, parts.take(i) + seq![parts[i] + parts[i + 1]] + parts.skip(i + 2)),
{
    assert forall|j: int| joinable(v, parts, j) == #[trigger] spells(v, parts, j) by {}
    assert(joinable(v, parts, i));
    assert forall|k: int| #[trigger] is_top(v, parts, k) implies k == i by {
        assert(joinable(v, parts, k));
        assert(spells(v, parts, k));
        if k != i {
            lemma_total_order_is_numeric(pair_score(v, parts, k), pair_score(v, parts, i));
        }
    }
    assert forall|j: int| #[trigger] joinable(v, parts, j) implies j == i || crate::float::total_rank(
        pair_score(v, parts, i),
    ) > crate::float::total_rank(pair_score(v, parts, j)) || (pair_score(v, parts, j) == pair_score(v, parts, i) && i
        < j) by {
        assert(spells(v, parts, j));
        lemma_total_order_is_numeric(pair_score(v, parts, j), pair_score(v, parts, i));
    }
    assert(is_top(v, parts, i));
    assert(joined_at(parts, i) =~= parts.take(i) + seq![parts[i] + parts[i + 1]] + parts.skip(i + 2));
}

/// Nothing is joined where no neighbours spell a token.
pub proof fn lemma_no_token_no_join(v: TokenizerView, parts: Seq<Seq<char>>)
    requires
        forall|j: int| !#[trigger] spells(v, parts, j),
    ensures
        segmented(v, parts) == parts,
{
    assert forall|k: int| !#[trigger] is_top(v, parts, k) by {
        assert(!spells(v, parts, k));
    }
}

/// A SentencePiece text starts with U+2581, and has it for every space; the
/// spaces come back where pieces are shown.
pub proof fn lemma_normalized_text(text: Seq<char>)
    ensures
        normalized(text).len() == text.len() + 1,
        normalized(text)[0] == '\u{2581}',
        forall|i: int|
            0 <= i < text.len() ==> #[trigger] normalized(text)[i + 1] == (if text[i] == ' ' {
                '\u{2581}'
            } else {
                text[i]
            }),
        spaced(text).len() == text.len(),
        forall|i: int|
            0 <= i < text.len() ==> #[trigger] spaced(text)[i] == (if text[i] == '\u{2581}' {
                ' '
            } else {
                text[i]
            }),
{
}

// ------------------------------------------------------------- merging by rank

/// Whether a merge is listed for the neighbours at `i`.
pub open spec fn listed(merges: Map<(u32, u32), (u32, u32)>, symbols: Seq<u32>, i: int) -> bool {
    0 <= i && i + 1 < symbols.len() && merges.contains_key((symbols[i], symbols[i + 1]))
}

/// The merge of the lowest rank comes first; where it applies twice, at the
/// leftmost place. The two symbols become the merged one and nothing else
/// changes.
pub proof fn lemma_lowest_rank_merges_first(merges: Map<(u32, u32), (u32, u32)>, symbols: Seq<u32>, i: int)
    requires
        listed(merges, symbols, i),
        forall|j: int| #[trigger]
            listed(merges, symbols, j) && j != i ==> merges[(symbols[i], symbols[i + 1])].0 < merges[(
                symbols[j],
                symbols[j + 1],
            )].0 || (merges[(symbols[i], symbols[i + 1])].0 == merges[(symbols[j], symbols[j + 1])].0 && i < j),
    ensures
        collapsed(merges, symbols) == collapsed(
            merges,
            symbols.take(i) + seq![merges[(symbols[i], symbols[i + 1])].1] + symbols.skip(i + 2),
        ),
{
    assert forall|j: int| mergeable(merges, symbols, j) == #[trigger] listed(merges, symbols, j) by {}
    assert forall|j: int| #[trigger] mergeable(merges, symbols, j) implies listed(merges, symbols, j) by {}
    assert(mergeable(merges, symbols, i));
    assert(is_next(merges, symbols, i));
    assert forall|k: int| #[trigger] is_next(merges, symbols, k) implies k == i by {
        assert(mergeable(merges, symbols, k));
        assert(listed(merges, symbols, k));
    }
    assert(merged_at(merges, symbols, i) =~= symbols.take(i) + seq![merges[(symbols[i], symbols[i + 1])].1]
        + symbols.skip(i + 2));
}

/// Nothing is merged where no merge is listed.
pub proof fn lemma_unlisted_stays(merges: Map<(u32, u32), (u32, u32)>, symbols: Seq<u32>)
    requires
        forall|j: int| !#[trigger] listed(merges, symbols, j),
    ensures
        collapsed(merges, symbols) == symbols,
{
    assert forall|k: int| !#[trigger] is_next(merges, symbols, k) by {
        assert(!listed(merges, symbols, k));
    }
}

proof fn lemma_space_at(line: Seq<char>, left: Seq<char>, right: Seq<char>)
    requires
        line == left + seq![' '] + right,
        !left.contains(' '),
    ensures
        first_space(line) == left.len(),
    decreases left.len(),
{
    if left.len() > 0 {
        assert(line[0] == left[0]);
        assert(left.contains(left[0]));
        let rest = left.drop_first();
        assert(line.drop_first() =~= rest + seq![' '] + right);
        assert forall|ch: char| rest.contains(ch) implies left.contains(ch) by {
            let k = choose|k: int| 0 <= k < rest.len() && rest[k] == ch;
            assert(left[k + 1] == ch);
        }
        lemma_space_at(line.drop_first(), rest, right);
    } else {
        assert(line[0] == ' ');
    }
}

proof fn lemma_line(line: Seq<char>, left: Seq<char>, right: Seq<char>, ids: Map<Seq<char>, u32>)
    requires
        line == left + seq![' '] + right,
        !left.contains(' '),
        ids.contains_key(left),
        ids.contains_key(right),
        ids.contains_key(left + right),
    ensures
        merge_of(line, ids) == Some(((ids[left], ids[right]), ids[left + right])),
{
    lemma_space_at(line, left, right);
    assert(line.take(left.len() as int) =~= left);
    assert(line.skip(left.len() as int + 1) =~= right);
}

proof fn lemma_first_space_splits(line: Seq<char>)
    ensures
        0 <= first_space(line) <= line.len(),
        first_space(line) < line.len() ==> line[first_space(line)] == ' ',
        !line.take(first_space(line)).contains(' '),
    decreases line.len(),
{
    let at = first_space(line);
    if line.len() > 0 && line[0] != ' ' {
        let rest = line.drop_first();
        lemma_first_space_splits(rest);
        assert forall|k: int| 0 <= k < at implies line.take(at)[k] != ' ' by {
            if k > 0 {
                assert(rest.take(at - 1)[k - 1] == line[k]);
                assert(rest.take(at - 1).contains(rest.take(at - 1)[k - 1]));
            }
        }
    }
}

/// A line `left right` of the merge list, between tokens that make a token
/// together, ranks its pair by its own number, unless the same line stood there
/// before.
pub proof fn lemma_line_ranks_its_pair(
    lines: Seq<Seq<char>>,
    ids: Map<Seq<char>, u32>,
    tokens: Seq<Seq<char>>,
    l: int,
    left: Seq<char>,
    right: Seq<char>,
    n: nat,
)
    requires
        places(ids, tokens),
        0 <= l < n <= lines.len(),
        l <= u32::MAX,
        lines[l] == left + seq![' '] + right,
        !left.contains(' '),
        ids.contains_key(left),
        ids.contains_key(right),
        ids.contains_key(left + right),
        forall|m: int| 0 <= m < l ==> #[trigger] lines[m] != lines[l],
    ensures
        merge_table(lines, ids, n).contains_key((ids[left], ids[right])),
        merge_table(lines, ids, n)[(ids[left], ids[right])] == (l as u32, ids[left + right]),
    decreases n,
{
    lemma_line(lines[l], left, right, ids);
    if n == l + 1 {
        lemma_unlisted_pair(lines, ids, tokens, lines[l], left, right, l as nat);
    } else {
        lemma_line_ranks_its_pair(lines, ids, tokens, l, left, right, (n - 1) as nat);
    }
}

proof fn lemma_unlisted_pair(
    lines: Seq<Seq<char>>,
    ids: Map<Seq<char>, u32>,
    tokens: Seq<Seq<char>>,
    line: Seq<char>,
    left: Seq<char>,
    right: Seq<char>,
    n: nat,
)
    requires
        places(ids, tokens),
        n <= lines.len(),
        line == left + seq![' '] + right,
        ids.contains_key(left),
        ids.contains_key(right),
        forall|m: int| 0 <= m < n ==> #[trigger] lines[m] != line,
    ensures
        !merge_table(lines, ids, n).contains_key((ids[left], ids[right])),
    decreases n,
{
    if n > 0 {
        lemma_unlisted_pair(lines, ids, tokens, line, left, right, (n - 1) as nat);
        let other = lines[n - 1];
        if merge_of(other, ids) is Some {
            let at = first_space(other);
            lemma_first_space_splits(other);
            let (a, b) = (other.take(at), other.skip(at + 1));
            if ids[a] == ids[left] && ids[b] == ids[right] {
                assert(a == tokens[ids[a] as int] && left == tokens[ids[left] as int]);
                assert(b == tokens[ids[b] as int] && right == tokens[ids[right] as int]);
                assert(other =~= a + seq![' '] + b);
            }
        }
    }
}

/// Every merge comes from a line of the list: two tokens with a space between
/// them, which make the merged token together. Its rank is the line's number.
pub proof fn lemma_merges_come_from_lines(
    lines: Seq<Seq<char>>,
    ids: Map<Seq<char>, u32>,
    n: nat,
    pair: (u32, u32),
) -> (found: (int, Seq<char>, Seq<char>))
    requires
        n <= lines.len(),
        n <= u32::MAX,
        merge_table(lines, ids, n).contains_key(pair),
    ensures
        ({
            let (l, left, right) = found;
            let entry = merge_table(lines, ids, n)[pair];
            &&& 0 <= l < n
            &&& entry.0 == l
            &&& lines[l] == left + seq![' '] + right
            &&& ids.contains_key(left) && ids[left] == pair.0
            &&& ids.contains_key(right) && ids[right] == pair.1
            &&& ids.contains_key(left + right) && ids[left + right] == entry.1
        }),
    decreases n,
{
    let before = merge_table(lines, ids, (n - 1) as nat);
    if before.contains_key(pair) {
        lemma_merges_come_from_lines(lines, ids, (n - 1) as nat, pair)
    } else {
        let line = lines[n - 1];
        let at = first_space(line);
        lemma_first_space_splits(line);
        let (left, right) = (line.take(at), line.skip(at + 1));
        assert(line =~= left + seq![' '] + right);
        (n - 1, left, right)
    }
}

// ---------------------------------------------------------------- vocabularies

/// A token's id is the place where its text first stands in the vocabulary.
pub proof fn lemma_id_is_first_place(tokens: Seq<Seq<char>>, n: nat, token: Seq<char>)
    requires
        n <= tokens.len(),
        n <= u32::MAX,
    ensures
        first_ids(tokens, n).contains_key(token) == (exists|i: int| 0 <= i < n && #[trigger] tokens[i] == token),
        first_ids(tokens, n).contains_key(token) ==> {
            let id = first_ids(tokens, n)[token];
            &&& id < n
            &&& tokens[id as int] == token
            &&& forall|i: int| 0 <= i < id ==> #[trigger] tokens[i] != token
        },
    decreases n,
{
    if n > 0 {
        let m = (n - 1) as nat;
        lemma_id_is_first_place(tokens, m, token);
        lemma_id_is_first_place(tokens, m, tokens[n - 1]);
        if first_ids(tokens, m).contains_key(token) {
            let i = choose|i: int| 0 <= i < m && #[trigger] tokens[i] == token;
            assert(tokens[i] == token);
        }
        if exists|i: int| 0 <= i < n && #[trigger] tokens[i] == token {
            let i = choose|i: int| 0 <= i < n && #[trigger] tokens[i] == token;
            assert(i < m || i == n - 1);
        }
        if first_ids(tokens, n).contains_key(token) && !first_ids(tokens, m).contains_key(token) {
            assert(tokens[n - 1] == token);
        }
    }
}

/// A text is looked up as the first token that has it, and a token's text, kind
/// and score stand at its own place. What is behind the end has no text, is
/// ordinary, and scores 0.
pub proof fn lemma_lookups(v: TokenizerView, token: Seq<char>, id: u32)
    requires
        v.tokens.len() <= u32::MAX,
    ensures
        (v.id(token) == Some(id)) == (id < v.tokens.len() && v.tokens[id as int] == token && forall|i: int|
            0 <= i < id ==> #[trigger] v.tokens[i] != token),
        (v.id(token) is None) == (forall|i: int| 0 <= i < v.tokens.len() ==> #[trigger] v.tokens[i] != token),
        id < v.tokens.len() ==> v.token(id) == Some(v.tokens[id as int]),
        id >= v.tokens.len() ==> v.token(id) is None,
        id < v.kinds.len() ==> v.kind_of(id) == v.kinds[id as int],
        id >= v.kinds.len() ==> v.kind_of(id) == TokenKind::Normal,
        id < v.scores.len() ==> v.score(id) == v.scores[id as int],
        id >= v.scores.len() ==> v.score(id) == 0,
{
    lemma_id_is_first_place(v.tokens, v.tokens.len(), token);
    if v.id(token) is Some {
        let found = v.id(token)->Some_0;
        assert(v.tokens[found as int] == token);
    }
    if id < v.tokens.len() && v.tokens[id as int] == token {
        assert(v.id(token) is Some);
    }
}

/// The numbers of `token_type`: 1 is an ordinary token, 2 the unknown one, 3 a
/// control token, 4 one of the user's, 5 an unused one, 6 a byte; any other
/// number is taken for 1. Only 3 and 4 are matched as they stand in a text.
pub proof fn lemma_token_types(n: u64)
    ensures
        (kind_of_number(n) == TokenKind::Unknown) == (n == 2),
        (kind_of_number(n) == TokenKind::Control) == (n == 3),
        (kind_of_number(n) == TokenKind::UserDefined) == (n == 4),
        (kind_of_number(n) == TokenKind::Unused) == (n == 5),
        (kind_of_number(n) == TokenKind::Byte) == (n == 6),
        (kind_of_number(n) == TokenKind::Normal) == (n < 2 || n > 6),
        special(kind_of_number(n)) == (n == 3 || n == 4),
{
}

/// Whether the token of an id is one that is matched as it stands, and stands at
/// `p`.
pub open spec fn matched(v: TokenizerView, text: Seq<char>, p: int, id: int) -> bool {
    &&& 0 <= id < v.kinds.len()
    &&& v.kinds[id] == TokenKind::Control || v.kinds[id] == TokenKind::UserDefined
    &&& id < v.tokens.len()
    &&& v.tokens[id].len() > 0
    &&& stands_at(text, v.tokens[id], p)
}

proof fn lemma_special_ids(kinds: Seq<TokenKind>, n: nat)
    requires
        n <= kinds.len(),
        n <= u32::MAX,
    ensures
        forall|k: int|
            0 <= k < special_ids(kinds, n).len() ==> #[trigger] special_ids(kinds, n)[k] < n && special(
                kinds[special_ids(kinds, n)[k] as int],
            ),
        forall|id: int|
            0 <= id < n && special(#[trigger] kinds[id]) ==> special_ids(kinds, n).contains(id as u32),
        forall|j: int, k: int|
            0 <= j < k < special_ids(kinds, n).len() ==> #[trigger] special_ids(kinds, n)[j] < #[trigger] special_ids(
                kinds,
                n,
            )[k],
    decreases n,
{
    if n > 0 {
        let before = special_ids(kinds, (n - 1) as nat);
        let all = special_ids(kinds, n);
        lemma_special_ids(kinds, (n - 1) as nat);
        assert forall|id: int| 0 <= id < n && special(#[trigger] kinds[id]) implies all.contains(id as u32) by {
            if id < n - 1 {
                let k = choose|k: int| 0 <= k < before.len() && before[k] == id as u32;
                assert(all[k] == id as u32);
            } else {
                assert(all[before.len() as int] == id as u32);
            }
        }
    }
}

proof fn lemma_longest_listed(v: TokenizerView, list: Seq<u32>, text: Seq<char>, p: int, k: nat)
    requires
        k <= list.len(),
        forall|a: int, b: int| 0 <= a < b < list.len() ==> #[trigger] list[a] < #[trigger] list[b],
    ensures
        match super::longest(v, list, text, p, k) {
            Some(id) => {
                &&& exists|j: int| 0 <= j < k && #[trigger] list[j] == id
                &&& id < v.tokens.len()
                &&& v.tokens[id as int].len() > 0
                &&& stands_at(text, v.tokens[id as int], p)
                &&& forall|j: int|
                    0 <= j < k && #[trigger] list[j] < v.tokens.len() && v.tokens[list[j] as int].len() > 0 && stands_at(
                        text,
                        v.tokens[list[j] as int],
                        p,
                    ) ==> v.tokens[list[j] as int].len() < v.tokens[id as int].len() || (v.tokens[list[j] as int].len()
                        == v.tokens[id as int].len() && id <= list[j])
            },
            None => forall|j: int|
                0 <= j < k && #[trigger] list[j] < v.tokens.len() && v.tokens[list[j] as int].len() > 0 ==> !stands_at(
                    text,
                    v.tokens[list[j] as int],
                    p,
                ),
        },
    decreases k,
{
    if k > 0 {
        lemma_longest_listed(v, list, text, p, (k - 1) as nat);
        assert(list[k - 1] == list[k - 1]);
    }
}

/// Of the control and user tokens that stand at a place the longest is taken,
/// and of equally long ones that with the lowest id; none is passed over.
pub proof fn lemma_longest_special_is_taken(v: TokenizerView, text: Seq<char>, p: int)
    requires
        v.kinds.len() <= u32::MAX,
    ensures
        match special_at(v, text, p) {
            Some(id) => matched(v, text, p, id as int) && forall|other: int| #[trigger]
                matched(v, text, p, other) && other != id ==> v.tokens[other].len() < v.tokens[id as int].len() || (
                v.tokens[other].len() == v.tokens[id as int].len() && id < other),
            None => forall|other: int| !#[trigger] matched(v, text, p, other),
        },
{
    let n = v.kinds.len();
    let list = special_ids(v.kinds, n);
    lemma_special_ids(v.kinds, n);
    lemma_longest_listed(v, list, text, p, list.len());
    assert forall|other: int| #[trigger] matched(v, text, p, other) implies exists|j: int|
        0 <= j < list.len() && #[trigger] list[j] == other by {
        assert(special(v.kinds[other]));
        assert(list.contains(other as u32));
        let j = choose|j: int| 0 <= j < list.len() && list[j] == other as u32;
        assert(list[j] == other);
    }
}

/// The token of a byte is `<0x`, two hexadecimal digits in upper case and `>`.
/// It is read back, also in lower case.
pub proof fn lemma_byte_tokens(byte: u8)
    ensures
        byte_token(byte) == "<0x"@ + seq![
            "0123456789ABCDEF"@[byte as int / 16],
            "0123456789ABCDEF"@[byte as int % 16],
        ] + ">"@,
        byte_of_token(byte_token(byte)) == Some(byte),
        byte_of_token(
            "<0x"@ + seq!["0123456789abcdef"@[byte as int / 16], "0123456789abcdef"@[byte as int % 16]] + ">"@,
        ) == Some(byte),
{
    reveal_strlit("<0x");
    reveal_strlit(">");
    let (h, l) = (byte as int / 16, byte as int % 16);
    lemma_hex_digits(h);
    lemma_hex_digits(l);
    let upper = "<0x"@ + seq!["0123456789ABCDEF"@[h], "0123456789ABCDEF"@[l]] + ">"@;
    let lower = "<0x"@ + seq!["0123456789abcdef"@[h], "0123456789abcdef"@[l]] + ">"@;
    assert(byte_token(byte) =~= upper);
    lemma_two_digits(upper, h, l);
    lemma_two_digits(lower, h, l);
}

proof fn lemma_two_digits(token: Seq<char>, h: int, l: int)
    requires
        token.len() == 6,
        token[0] == '<' && token[1] == '0' && token[2] == 'x' && token[5] == '>',
        0 <= h < 16 && 0 <= l < 16,
        super::digit_value(token[3]) == Some(h as nat),
        super::digit_value(token[4]) == Some(l as nat),
    ensures
        byte_of_token(token) == Some((16 * h + l) as u8),
{
    let digits = token.subrange(3, 5);
    assert(digits[0] == token[3] && digits[1] == token[4]);
    reveal_with_fuel(hex_value, 3);
    assert(hex_value(digits, 2) == Some((16 * h + l) as nat));
}

proof fn lemma_hex_digits(d: int)
    requires
        0 <= d < 16,
    ensures
        hex_digit(d) == "0123456789ABCDEF"@[d],
        super::digit_value("0123456789ABCDEF"@[d]) == Some(d as nat),
        super::digit_value("0123456789abcdef"@[d]) == Some(d as nat),
{
    reveal_strlit("0123456789ABCDEF");
    reveal_strlit("0123456789abcdef");
    assert(d == 0 || d == 1 || d == 2 || d == 3 || d == 4 || d == 5 || d == 6 || d == 7 || d == 8 || d == 9 || d == 10 || d
        == 11 || d == 12 || d == 13 || d == 14 || d == 15);
}

} // verus!
