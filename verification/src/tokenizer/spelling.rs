//! How a text becomes ids and how ids are shown, piece by piece.

use vstd::prelude::*;
use vstd::utf8::encode_utf8;

use super::bpe::{collapsed, lemma_nothing_left_to_merge, mergeable, pretokens};
use super::bytes::{meant_bytes, stored_form};
use super::choices::{lemma_lowest_rank_merges_first, lemma_longest_special_is_taken, listed, matched};
use super::spm::{byte_ids, normalized, part_ids, parts_ids, segmented, singles};
use super::{
    byte_token, chunk_ids, chunks_ids, encoded, ids_from, next_special, ordinary_ids, piece_of, shown_bytes, shown_piece,
    spaced, special_at, symbols_of, Kind, TokenKind, TokenizerView,
};
use crate::text::{concat, stands_at};

verus! {

// -------------------------------------------------------------------- encoding

/// A character of a stored text becomes its own token, else the unknown token,
/// else nothing; texts one after the other become their ids one after the other.
pub proof fn lemma_symbols(v: TokenizerView, a: Seq<char>, b: Seq<char>, ch: char)
    ensures
        symbols_of(v, a + b, (a + b).len()) == symbols_of(v, a, a.len()) + symbols_of(v, b, b.len()),
        symbols_of(v, seq![ch], 1) == (match (v.id(seq![ch]), v.unknown) {
            (Some(id), _) => seq![id],
            (None, Some(id)) => seq![id],
            (None, None) => Seq::empty(),
        }),
{
    lemma_symbols_from(v, a, b, b.len());
    reveal_with_fuel(symbols_of, 2);
    assert(symbols_of(v, seq![ch], 0) =~= Seq::empty());
    assert(seq![seq![ch][0]] =~= seq![ch]);
    assert(Seq::<u32>::empty().push(v.unknown->Some_0) =~= seq![v.unknown->Some_0]);
    assert(Seq::<u32>::empty().push(v.id(seq![ch])->Some_0) =~= seq![v.id(seq![ch])->Some_0]);
}

proof fn lemma_symbols_from(v: TokenizerView, a: Seq<char>, b: Seq<char>, n: nat)
    requires
        n <= b.len(),
    ensures
        symbols_of(v, a + b, a.len() + n) == symbols_of(v, a, a.len()) + symbols_of(v, b, n),
    decreases n,
{
    if n == 0 {
        lemma_symbols_prefix(v, a, b, a.len());
        assert(symbols_of(v, a, a.len()) + Seq::<u32>::empty() =~= symbols_of(v, a, a.len()));
    } else {
        lemma_symbols_from(v, a, b, (n - 1) as nat);
        assert((a + b)[a.len() + n - 1] == b[n - 1]);
        assert((a.len() + n - 1) as nat == a.len() + (n - 1) as nat);
        assert(symbols_of(v, a + b, a.len() + n) =~= symbols_of(v, a, a.len()) + symbols_of(v, b, n));
    }
}

proof fn lemma_symbols_prefix(v: TokenizerView, a: Seq<char>, b: Seq<char>, n: nat)
    requires
        n <= a.len(),
    ensures
        symbols_of(v, a + b, n) == symbols_of(v, a, n),
    decreases n,
{
    if n > 0 {
        lemma_symbols_prefix(v, a, b, (n - 1) as nat);
        assert((a + b)[n - 1] == a[n - 1]);
    }
}

/// A byte of a part that is no token becomes the token `<0xHH>` of the byte, else
/// the unknown token, else nothing; bytes one after the other become their ids
/// one after the other.
pub proof fn lemma_byte_fallback(v: TokenizerView, a: Seq<u8>, b: Seq<u8>, byte: u8)
    ensures
        byte_ids(v, a + b, (a + b).len()) == byte_ids(v, a, a.len()) + byte_ids(v, b, b.len()),
        byte_ids(v, seq![byte], 1) == (match (v.id(byte_token(byte)), v.unknown) {
            (Some(id), _) => seq![id],
            (None, Some(id)) => seq![id],
            (None, None) => Seq::empty(),
        }),
{
    lemma_bytes_from(v, a, b, b.len());
    reveal_with_fuel(byte_ids, 2);
    assert(byte_ids(v, seq![byte], 0) =~= Seq::empty());
    assert(Seq::<u32>::empty().push(v.unknown->Some_0) =~= seq![v.unknown->Some_0]);
    assert(Seq::<u32>::empty().push(v.id(byte_token(byte))->Some_0) =~= seq![v.id(byte_token(byte))->Some_0]);
}

proof fn lemma_bytes_from(v: TokenizerView, a: Seq<u8>, b: Seq<u8>, n: nat)
    requires
        n <= b.len(),
    ensures
        byte_ids(v, a + b, a.len() + n) == byte_ids(v, a, a.len()) + byte_ids(v, b, n),
    decreases n,
{
    if n == 0 {
        lemma_bytes_prefix(v, a, b, a.len());
        assert(byte_ids(v, a, a.len()) + Seq::<u32>::empty() =~= byte_ids(v, a, a.len()));
    } else {
        lemma_bytes_from(v, a, b, (n - 1) as nat);
        assert((a + b)[a.len() + n - 1] == b[n - 1]);
        assert((a.len() + n - 1) as nat == a.len() + (n - 1) as nat);
        assert(byte_ids(v, a + b, a.len() + n) =~= byte_ids(v, a, a.len()) + byte_ids(v, b, n));
    }
}

proof fn lemma_bytes_prefix(v: TokenizerView, a: Seq<u8>, b: Seq<u8>, n: nat)
    requires
        n <= a.len(),
    ensures
        byte_ids(v, a + b, n) == byte_ids(v, a, n),
    decreases n,
{
    if n > 0 {
        lemma_bytes_prefix(v, a, b, (n - 1) as nat);
        assert((a + b)[n - 1] == a[n - 1]);
    }
}

/// A part that is a token becomes its id; any other falls back to its UTF-8.
pub proof fn lemma_parts(v: TokenizerView, part: Seq<char>)
    ensures
        v.id(part) matches Some(id) ==> part_ids(v, part) == seq![id],
        v.id(part) is None ==> part_ids(v, part) == byte_ids(v, encode_utf8(part), encode_utf8(part).len()),
{
}

/// A SentencePiece text starts as its single characters, which are joined as far
/// as they go; its ids are those of the parts, one after the other.
pub proof fn lemma_part_by_part(v: TokenizerView, a: Seq<Seq<char>>, b: Seq<Seq<char>>, part: Seq<char>, text: Seq<char>)
    ensures
        parts_ids(v, a + b) == parts_ids(v, a) + parts_ids(v, b),
        parts_ids(v, seq![part]) == part_ids(v, part),
        v.kind == Kind::Spm && text.len() > 0 ==> ordinary_ids(v, text) == parts_ids(
            v,
            segmented(v, Seq::new(normalized(text).len(), |i: int| seq![normalized(text)[i]])),
        ),
{
    let x = Seq::new(a.len(), |i: int| part_ids(v, a[i]));
    let y = Seq::new(b.len(), |i: int| part_ids(v, b[i]));
    let all = a + b;
    let z = Seq::new(all.len(), |i: int| part_ids(v, all[i]));
    assert(z =~= x + y);
    crate::text::lemma_concat_add(x, y);
    let one = seq![part];
    let w = Seq::new(one.len(), |i: int| part_ids(v, one[i]));
    assert(w.drop_last() =~= Seq::empty());
    reveal_with_fuel(concat, 2);
    assert(concat(w) =~= part_ids(v, part));
    let form = normalized(text);
    assert(singles(form) =~= Seq::new(form.len(), |i: int| seq![form[i]]));
}

/// A chunk is merged as far as it goes, from the ids of its stored characters,
/// the lowest rank first.
pub proof fn lemma_chunks_are_merged(v: TokenizerView, chunk: Seq<char>, i: int)
    ensures
        !listed(v.merges, chunk_ids(v, chunk), i),
        ({
            let form = stored_form(encode_utf8(chunk));
            let symbols = symbols_of(v, form, form.len());
            &&& (forall|j: int| !#[trigger] listed(v.merges, symbols, j)) ==> chunk_ids(v, chunk) == symbols
            &&& listed(v.merges, symbols, i) && (forall|j: int| #[trigger]
                listed(v.merges, symbols, j) && j != i ==> v.merges[(symbols[i], symbols[i + 1])].0 < v.merges[(
                    symbols[j],
                    symbols[j + 1],
                )].0) ==> chunk_ids(v, chunk) == collapsed(
                v.merges,
                symbols.take(i) + seq![v.merges[(symbols[i], symbols[i + 1])].1] + symbols.skip(i + 2),
            )
        }),
{
    let form = stored_form(encode_utf8(chunk));
    let symbols = symbols_of(v, form, form.len());
    lemma_nothing_left_to_merge(v.merges, symbols, i);
    assert(!mergeable(v.merges, chunk_ids(v, chunk), i));
    if forall|j: int| !#[trigger] listed(v.merges, symbols, j) {
        super::choices::lemma_unlisted_stays(v.merges, symbols);
    }
    if listed(v.merges, symbols, i) && (forall|j: int| #[trigger]
        listed(v.merges, symbols, j) && j != i ==> v.merges[(symbols[i], symbols[i + 1])].0 < v.merges[(
            symbols[j],
            symbols[j + 1],
        )].0) {
        lemma_lowest_rank_merges_first(v.merges, symbols, i);
    }
}

/// The ids of a text in a byte-level vocabulary are those of its chunks, one
/// after the other.
pub proof fn lemma_chunk_by_chunk(v: TokenizerView, a: Seq<Seq<char>>, b: Seq<Seq<char>>, text: Seq<char>)
    ensures
        chunks_ids(v, a + b) == chunks_ids(v, a) + chunks_ids(v, b),
        chunks_ids(v, seq![text]) == chunk_ids(v, text),
        v.kind == Kind::Bpe && text.len() > 0 ==> ordinary_ids(v, text) == chunks_ids(v, pretokens(text)),
        text.len() == 0 ==> ordinary_ids(v, text).len() == 0,
{
    let x = Seq::new(a.len(), |i: int| chunk_ids(v, a[i]));
    let y = Seq::new(b.len(), |i: int| chunk_ids(v, b[i]));
    let all = a + b;
    let z = Seq::new(all.len(), |i: int| chunk_ids(v, all[i]));
    assert(z =~= x + y);
    crate::text::lemma_concat_add(x, y);
    let one = seq![text];
    let w = Seq::new(one.len(), |i: int| chunk_ids(v, one[i]));
    assert(w.drop_last() =~= Seq::empty());
    reveal_with_fuel(concat, 2);
    assert(concat(w) =~= chunk_ids(v, text));
}

/// Begin and end of sequence are put around a text where the caller asks, the
/// vocabulary wants them and has them; nothing else changes.
pub proof fn lemma_marks(v: TokenizerView, text: Seq<char>)
    ensures
        v.add_bos && v.bos is Some && v.add_eos && v.eos is Some ==> encoded(v, text, true) == seq![v.bos->Some_0]
            + encoded(v, text, false) + seq![v.eos->Some_0],
        v.add_bos && v.bos is Some && !(v.add_eos && v.eos is Some) ==> encoded(v, text, true) == seq![v.bos->Some_0]
            + encoded(v, text, false),
        !(v.add_bos && v.bos is Some) && v.add_eos && v.eos is Some ==> encoded(v, text, true) == encoded(v, text, false)
            + seq![v.eos->Some_0],
        !(v.add_bos && v.bos is Some) && !(v.add_eos && v.eos is Some) ==> encoded(v, text, true) == encoded(
            v,
            text,
            false,
        ),
{
    let plain = encoded(v, text, false);
    assert(plain =~= ids_from(v, text, 0));
    let full = encoded(v, text, true);
    if v.add_bos && v.bos is Some {
        if v.add_eos && v.eos is Some {
            assert(full =~= seq![v.bos->Some_0] + plain + seq![v.eos->Some_0]);
        } else {
            assert(full =~= seq![v.bos->Some_0] + plain);
        }
    } else {
        if v.add_eos && v.eos is Some {
            assert(full =~= plain + seq![v.eos->Some_0]);
        } else {
            assert(full =~= plain);
        }
    }
}

// ------------------------------------------------------------------- specials

proof fn lemma_shifted(text: Seq<char>, token: Seq<char>, from: int, p: int)
    requires
        0 <= from <= text.len(),
        0 <= p,
    ensures
        stands_at(text.skip(from), token, p) == stands_at(text, token, from + p),
{
    if p + token.len() <= text.len() - from {
        assert(text.skip(from).subrange(p, p + token.len()) =~= text.subrange(from + p, from + p + token.len()));
    }
}

proof fn lemma_longest_shifted(v: TokenizerView, list: Seq<u32>, text: Seq<char>, from: int, p: int, k: nat)
    requires
        0 <= from <= text.len(),
        0 <= p,
    ensures
        super::longest(v, list, text.skip(from), p, k) == super::longest(v, list, text, from + p, k),
    decreases k,
{
    if k > 0 {
        lemma_longest_shifted(v, list, text, from, p, (k - 1) as nat);
        if let Some(token) = v.token(list[k - 1]) {
            lemma_shifted(text, token, from, p);
        }
    }
}

proof fn lemma_special_shifted(v: TokenizerView, text: Seq<char>, from: int, p: int)
    requires
        0 <= from <= text.len(),
        0 <= p,
    ensures
        special_at(v, text.skip(from), p) == special_at(v, text, from + p),
{
    let list = super::special_ids(v.kinds, v.kinds.len());
    lemma_longest_shifted(v, list, text, from, p, list.len());
}

proof fn lemma_next_shifted(v: TokenizerView, text: Seq<char>, from: int, p: int)
    requires
        0 <= from <= text.len(),
        0 <= p <= text.len() - from,
    ensures
        next_special(v, text.skip(from), p) + from == next_special(v, text, from + p),
    decreases text.len() - p,
{
    lemma_special_shifted(v, text, from, p);
    if p < text.len() - from && special_at(v, text, from + p) is None {
        lemma_next_shifted(v, text, from, p + 1);
    }
}

proof fn lemma_next_bounds(v: TokenizerView, text: Seq<char>, p: int)
    requires
        0 <= p <= text.len(),
    ensures
        p <= next_special(v, text, p) <= text.len(),
        next_special(v, text, p) < text.len() ==> special_at(v, text, next_special(v, text, p)) is Some,
        forall|i: int| p <= i < next_special(v, text, p) ==> #[trigger] special_at(v, text, i) is None,
    decreases text.len() - p,
{
    if p < text.len() && special_at(v, text, p) is None {
        lemma_next_bounds(v, text, p + 1);
    }
}

/// What is encoded from a place on does not depend on what stands before it.
proof fn lemma_ids_shifted(v: TokenizerView, text: Seq<char>, from: int, p: int)
    requires
        v.kinds.len() <= u32::MAX,
        0 <= from <= text.len(),
        0 <= p <= text.len() - from,
    ensures
        ids_from(v, text.skip(from), p) == ids_from(v, text, from + p),
    decreases text.len() - p,
{
    let rest = text.skip(from);
    lemma_next_shifted(v, text, from, p);
    lemma_next_bounds(v, rest, p);
    let q = next_special(v, rest, p);
    lemma_special_shifted(v, text, from, q);
    assert(rest.subrange(p, q) =~= text.subrange(from + p, from + q));
    if q < rest.len() {
        let id = special_at(v, rest, q)->Some_0;
        lemma_longest_special_is_taken(v, rest, q);
        assert(matched(v, rest, q, id as int));
        let next = q + v.tokens[id as int].len();
        lemma_ids_shifted(v, text, from, next);
    }
}

/// A special token cuts a text in two: what is before the first one is encoded
/// as ordinary text, then comes its id, then whatever the rest becomes by
/// itself. A text without any is ordinary throughout.
pub proof fn lemma_special_cuts_text(v: TokenizerView, text: Seq<char>, q: int, id: u32)
    requires
        v.kinds.len() <= u32::MAX,
        0 <= q <= text.len(),
        forall|p: int, other: int| 0 <= p < q ==> !#[trigger] matched(v, text, p, other),
    ensures
        q == text.len() ==> encoded(v, text, false) == ordinary_ids(v, text),
        matched(v, text, q, id as int) && (forall|other: int| #[trigger]
            matched(v, text, q, other) && other != id ==> v.tokens[other].len() < v.tokens[id as int].len()) ==> encoded(
            v,
            text,
            false,
        ) == ordinary_ids(v, text.take(q)) + seq![id] + encoded(v, text.skip(q + v.tokens[id as int].len()), false),
{
    assert forall|p: int| 0 <= p < q implies #[trigger] special_at(v, text, p) is None by {
        lemma_longest_special_is_taken(v, text, p);
        if let Some(found) = special_at(v, text, p) {
            assert(matched(v, text, p, found as int));
        }
    }
    lemma_next_bounds(v, text, 0);
    let plain = encoded(v, text, false);
    assert(plain =~= ids_from(v, text, 0));
    let at = next_special(v, text, 0);
    assert(at >= q) by {
        if at < q {
            assert(special_at(v, text, at) is None);
        }
    }
    if q == text.len() {
        assert(text.subrange(0, q) =~= text);
    }
    if matched(v, text, q, id as int) && (forall|other: int| #[trigger]
        matched(v, text, q, other) && other != id ==> v.tokens[other].len() < v.tokens[id as int].len()) {
        lemma_longest_special_is_taken(v, text, q);
        assert(special_at(v, text, q) == Some(id));
        assert(at == q);
        assert(q < text.len());
        let next = q + v.tokens[id as int].len();
        assert(text.subrange(0, q) =~= text.take(q));
        lemma_ids_shifted(v, text, next, 0);
        let rest = text.skip(next);
        assert(encoded(v, rest, false) =~= ids_from(v, rest, 0));
        let head = ordinary_ids(v, text.take(q));
        assert(plain =~= head + seq![id] + encoded(v, rest, false));
    }
}

// -------------------------------------------------------------------- showing

/// What a token stands for. In a byte-level vocabulary, the bytes that its
/// characters stand for; in a SentencePiece one, its text with spaces, or the
/// byte of a byte token.
pub proof fn lemma_pieces(v: TokenizerView, id: u32, byte: u8)
    requires
        id < v.tokens.len(),
        id < v.kinds.len(),
    ensures
        v.kind == Kind::Bpe ==> piece_of(v, id) == meant_bytes(v.tokens[id as int]),
        v.kind == Kind::Spm && v.kinds[id as int] != TokenKind::Byte ==> piece_of(v, id) == encode_utf8(
            spaced(v.tokens[id as int]),
        ),
        v.kind == Kind::Spm && v.kinds[id as int] == TokenKind::Byte && v.tokens[id as int] == byte_token(byte)
            ==> piece_of(v, id) == seq![byte],
{
    super::choices::lemma_byte_tokens(byte);
}

/// Nothing is shown for a control token, wherever it stands. Any other token is
/// shown as its piece, but for the space that stands at the very front of a
/// SentencePiece text.
pub proof fn lemma_shown_pieces(v: TokenizerView, ids: Seq<u32>, i: int)
    requires
        0 <= i < ids.len(),
    ensures
        shown_bytes(v, ids, (i + 1) as nat) == shown_bytes(v, ids, i as nat) + shown_piece(v, ids, i),
        shown_bytes(v, ids, 0).len() == 0,
        v.kind_of(ids[i]) == TokenKind::Control ==> shown_piece(v, ids, i).len() == 0,
        v.kind_of(ids[i]) != TokenKind::Control && v.kind == Kind::Bpe ==> shown_piece(v, ids, i) == piece_of(v, ids[i]),
        v.kind_of(ids[i]) != TokenKind::Control && (exists|j: int|
            0 <= j < i && v.kind_of(#[trigger] ids[j]) != TokenKind::Control) ==> shown_piece(v, ids, i) == piece_of(
            v,
            ids[i],
        ),
        v.kind_of(ids[i]) != TokenKind::Control && v.kind == Kind::Spm && (forall|j: int|
            0 <= j < i ==> v.kind_of(#[trigger] ids[j]) == TokenKind::Control) ==> (piece_of(v, ids[i]).len() > 0
            && piece_of(v, ids[i])[0] == ' ' as u8 ==> shown_piece(v, ids, i) == piece_of(v, ids[i]).skip(1)) && (
        piece_of(v, ids[i]).len() == 0 || piece_of(v, ids[i])[0] != ' ' as u8 ==> shown_piece(v, ids, i) == piece_of(
            v,
            ids[i],
        )),
{
}

} // verus!
