//! What encoding and decoding promise together.

use vstd::prelude::*;
use vstd::utf8::{decode_utf8, encode_utf8, valid_utf8};

use super::bpe::{self, collapsed, merge_table, pretokens};
use super::bytes::{self, meant_bytes, stored_form};
use super::spm::{self, byte_ids, joined_at, normalized, part_ids, parts_ids, segmented, singles, SPACE};
use super::{
    byte_of_token, byte_token, chunk_ids, chunks_ids, digit_value, first_ids, hex_byte, hex_digit, hex_value,
    encoded, ids_from, leads, next_special, ordinary_ids, piece_of, shown_bytes, shown_piece, spaced, special_at, special_ids,
    symbols_of, Kind, TokenKind, TokenizerView,
};
use crate::text::{self, concat};

verus! {

// ------------------------------------------------------------------ byte level

/// A byte-level vocabulary whose merges are those of its own merge list.
pub open spec fn byte_level(v: TokenizerView, lines: Seq<Seq<char>>) -> bool {
    &&& v.kind == Kind::Bpe
    &&& v.tokens.len() <= 0x1_0000_0000
    &&& v.merges == merge_table(lines, v.ids(), lines.len())
}

/// Whether each of the bytes has a token.
pub open spec fn spellable(v: TokenizerView, bytes: Seq<u8>) -> bool {
    forall|i: int| 0 <= i < bytes.len() ==> v.ids().contains_key(seq![bytes::stored(#[trigger] bytes[i])])
}

proof fn lemma_spellable_parts(v: TokenizerView, a: Seq<char>, b: Seq<char>)
    requires
        spellable(v, encode_utf8(a + b)),
    ensures
        spellable(v, encode_utf8(a)),
        spellable(v, encode_utf8(b)),
{
    text::lemma_utf8_concat(a, b);
    let x = encode_utf8(a);
    let y = encode_utf8(b);
    assert forall|i: int| 0 <= i < x.len() implies v.ids().contains_key(seq![bytes::stored(#[trigger] x[i])]) by {
        assert((x + y)[i] == x[i]);
    }
    assert forall|i: int| 0 <= i < y.len() implies v.ids().contains_key(seq![bytes::stored(#[trigger] y[i])]) by {
        assert((x + y)[x.len() + i] == y[i]);
    }
}

/// Every id of the index is the place of its token.
pub proof fn lemma_ids_are_places(tokens: Seq<Seq<char>>, n: nat)
    requires
        n <= tokens.len() <= 0x1_0000_0000,
    ensures
        bpe::places(first_ids(tokens, n), tokens),
        forall|i: int| 0 <= i < n ==> first_ids(tokens, n).contains_key(#[trigger] tokens[i]),
    decreases n,
{
    if n > 0 {
        lemma_ids_are_places(tokens, (n - 1) as nat);
    }
}

proof fn lemma_symbols_spell(v: TokenizerView, bytes: Seq<u8>, n: nat)
    requires
        n <= bytes.len(),
        v.tokens.len() <= 0x1_0000_0000,
        spellable(v, bytes),
    ensures
        bpe::spelled(v.tokens, symbols_of(v, stored_form(bytes), n)) == stored_form(bytes).take(n as int),
    decreases n,
{
    let form = stored_form(bytes);
    let f = |id: u32| v.tokens[id as int];
    if n == 0 {
        assert(symbols_of(v, form, 0).map_values(f) =~= Seq::empty());
        assert(form.take(0) =~= Seq::empty());
    } else {
        let m = (n - 1) as nat;
        lemma_symbols_spell(v, bytes, m);
        lemma_ids_are_places(v.tokens, v.tokens.len());
        let ch = seq![form[n - 1]];
        assert(form[n - 1] == bytes::stored(bytes[n - 1]));
        assert(v.ids().contains_key(ch));
        let before = symbols_of(v, form, m);
        let id = v.ids()[ch];
        assert(symbols_of(v, form, n) == before.push(id));
        assert(before.push(id).map_values(f) =~= before.map_values(f).push(v.tokens[id as int]));
        text::lemma_concat_push(before.map_values(f), v.tokens[id as int]);
        assert(form.take(n as int) =~= form.take(m as int) + ch);
    }
}

/// The bytes of tokens, one after the other.
pub open spec fn all_pieces(v: TokenizerView, ids: Seq<u32>) -> Seq<u8> {
    concat(ids.map_values(|id: u32| piece_of(v, id)))
}

proof fn lemma_pieces_add(v: TokenizerView, a: Seq<u32>, b: Seq<u32>)
    ensures
        all_pieces(v, a + b) == all_pieces(v, a) + all_pieces(v, b),
{
    let f = |id: u32| piece_of(v, id);
    assert((a + b).map_values(f) =~= a.map_values(f) + b.map_values(f));
    text::lemma_concat_add(a.map_values(f), b.map_values(f));
}

proof fn lemma_pieces_spell(v: TokenizerView, ids: Seq<u32>)
    requires
        v.kind == Kind::Bpe,
        known(v, ids),
    ensures
        all_pieces(v, ids) == meant_bytes(bpe::spelled(v.tokens, ids)),
    decreases ids.len(),
{
    let f = |id: u32| piece_of(v, id);
    let g = |id: u32| v.tokens[id as int];
    if ids.len() == 0 {
        assert(ids.map_values(f) =~= Seq::empty());
        assert(ids.map_values(g) =~= Seq::empty());
        assert(meant_bytes(Seq::empty()) =~= Seq::empty());
    } else {
        let rest = ids.drop_last();
        assert forall|i: int| 0 <= i < rest.len() implies (#[trigger] rest[i]) < v.tokens.len() by {
            assert(ids[i] < v.tokens.len());
        }
        lemma_pieces_spell(v, rest);
        assert(ids.last() < v.tokens.len());
        assert(ids.map_values(f).drop_last() =~= rest.map_values(f));
        assert(ids.map_values(g).drop_last() =~= rest.map_values(g));
        bytes::lemma_meant_bytes_concat(bpe::spelled(v.tokens, rest), v.tokens[ids.last() as int]);
    }
}

/// Whether every id is that of a token.
pub open spec fn known(v: TokenizerView, ids: Seq<u32>) -> bool {
    forall|i: int| 0 <= i < ids.len() ==> (#[trigger] ids[i]) < v.tokens.len()
}

/// Whether every merge makes a token.
pub open spec fn makes_known(v: TokenizerView, merges: Map<(u32, u32), (u32, u32)>) -> bool {
    forall|pair: (u32, u32)| #[trigger] merges.contains_key(pair) ==> merges[pair].1 < v.tokens.len()
}

proof fn lemma_symbols_known(v: TokenizerView, bytes: Seq<u8>, n: nat)
    requires
        n <= bytes.len(),
        v.tokens.len() <= 0x1_0000_0000,
        spellable(v, bytes),
    ensures
        known(v, symbols_of(v, stored_form(bytes), n)),
    decreases n,
{
    if n > 0 {
        let form = stored_form(bytes);
        lemma_symbols_known(v, bytes, (n - 1) as nat);
        lemma_ids_are_places(v.tokens, v.tokens.len());
        assert(form[n - 1] == bytes::stored(bytes[n - 1]));
        let ch = seq![form[n - 1]];
        assert(v.ids().contains_key(ch));
        assert(symbols_of(v, form, n) == symbols_of(v, form, (n - 1) as nat).push(v.ids()[ch]));
    }
}

proof fn lemma_merges_known(v: TokenizerView, lines: Seq<Seq<char>>, n: nat)
    requires
        n <= lines.len(),
        v.tokens.len() <= 0x1_0000_0000,
    ensures
        makes_known(v, merge_table(lines, v.ids(), n)),
    decreases n,
{
    if n > 0 {
        lemma_merges_known(v, lines, (n - 1) as nat);
        lemma_ids_are_places(v.tokens, v.tokens.len());
        let line = lines[n - 1];
        let at = bpe::first_space(line);
        let whole = line.take(at) + line.skip(at + 1);
        if v.ids().contains_key(whole) {
            assert(v.ids()[whole] < v.tokens.len());
        }
    }
}

proof fn lemma_collapsed_known(v: TokenizerView, symbols: Seq<u32>)
    requires
        known(v, symbols),
        makes_known(v, v.merges),
    ensures
        known(v, collapsed(v.merges, symbols)),
    decreases symbols.len(),
{
    if exists|i: int| bpe::is_next(v.merges, symbols, i) {
        let i = choose|i: int| bpe::is_next(v.merges, symbols, i);
        assert(bpe::mergeable(v.merges, symbols, i));
        let next = bpe::merged_at(v.merges, symbols, i);
        assert forall|j: int| 0 <= j < next.len() implies (#[trigger] next[j]) < v.tokens.len() by {
            let j0 = if j <= i { j } else { j + 1 };
            assert(symbols[j0] < v.tokens.len());
        }
        lemma_collapsed_known(v, next);
    } else {
        assert(collapsed(v.merges, symbols) == symbols);
    }
}

proof fn lemma_chunk_round_trip(v: TokenizerView, lines: Seq<Seq<char>>, chunk: Seq<char>)
    requires
        byte_level(v, lines),
        spellable(v, encode_utf8(chunk)),
    ensures
        all_pieces(v, chunk_ids(v, chunk)) == encode_utf8(chunk),
{
    let bytes = encode_utf8(chunk);
    let form = stored_form(bytes);
    let symbols = symbols_of(v, form, form.len());
    lemma_symbols_spell(v, bytes, bytes.len());
    lemma_symbols_known(v, bytes, bytes.len());
    lemma_merges_known(v, lines, lines.len());
    lemma_ids_are_places(v.tokens, v.tokens.len());
    bpe::lemma_loaded_merges_are_faithful(lines, v.ids(), v.tokens, lines.len());
    bpe::lemma_merging_keeps_text(v.tokens, v.merges, symbols);
    lemma_collapsed_known(v, symbols);
    lemma_pieces_spell(v, collapsed(v.merges, symbols));
    assert(form.take(form.len() as int) =~= form);
    bytes::lemma_bytes_round_trip(bytes);
}

proof fn lemma_chunks_round_trip(v: TokenizerView, lines: Seq<Seq<char>>, chunks: Seq<Seq<char>>)
    requires
        byte_level(v, lines),
        spellable(v, encode_utf8(concat(chunks))),
    ensures
        all_pieces(v, chunks_ids(v, chunks)) == encode_utf8(concat(chunks)),
    decreases chunks.len(),
{
    let each = Seq::new(chunks.len(), |i: int| chunk_ids(v, chunks[i]));
    if chunks.len() == 0 {
        assert(concat(each) =~= Seq::empty());
        assert(Seq::<u32>::empty().map_values(|id: u32| piece_of(v, id)) =~= Seq::empty());
        assert(encode_utf8(concat(chunks)) =~= Seq::empty());
    } else {
        let rest = chunks.drop_last();
        lemma_spellable_parts(v, concat(rest), chunks.last());
        lemma_chunks_round_trip(v, lines, rest);
        lemma_chunk_round_trip(v, lines, chunks.last());
        assert(each.drop_last() =~= Seq::new(rest.len(), |i: int| chunk_ids(v, rest[i])));
        lemma_pieces_add(v, chunks_ids(v, rest), chunk_ids(v, chunks.last()));
        text::lemma_utf8_concat(concat(rest), chunks.last());
    }
}

proof fn lemma_ordinary_round_trip(v: TokenizerView, lines: Seq<Seq<char>>, text: Seq<char>)
    requires
        byte_level(v, lines),
        spellable(v, encode_utf8(text)),
    ensures
        all_pieces(v, ordinary_ids(v, text)) == encode_utf8(text),
{
    if text.len() == 0 {
        assert(ordinary_ids(v, text).map_values(|id: u32| piece_of(v, id)) =~= Seq::empty());
        assert(encode_utf8(text) =~= Seq::empty());
    } else {
        bpe::lemma_pretokens_partition(text);
        lemma_chunks_round_trip(v, lines, pretokens(text));
    }
}

/// Whether the special tokens that stand in a text decode to their own letters.
pub open spec fn literal_specials(v: TokenizerView, text: Seq<char>) -> bool {
    forall|p: int|
        0 <= p < text.len() ==> (#[trigger] special_at(v, text, p) matches Some(id) ==> meant_bytes(
            v.token(id)->Some_0,
        ) == encode_utf8(v.token(id)->Some_0))
}

proof fn lemma_ids_from_round_trip(v: TokenizerView, lines: Seq<Seq<char>>, text: Seq<char>, p: int)
    requires
        byte_level(v, lines),
        0 <= p <= text.len(),
        spellable(v, encode_utf8(text)),
        literal_specials(v, text),
    ensures
        all_pieces(v, ids_from(v, text, p)) == encode_utf8(text.skip(p)),
    decreases text.len() - p,
{
    let q = next_special(v, text, p);
    super::lemma_next_special(v, text, p);
    let head = text.subrange(p, q);
    let tail = text.skip(q);
    assert(text =~= text.take(p) + text.skip(p));
    lemma_spellable_parts(v, text.take(p), text.skip(p));
    assert(text.skip(p) =~= head + tail);
    lemma_spellable_parts(v, head, tail);
    lemma_ordinary_round_trip(v, lines, head);
    text::lemma_utf8_concat(head, tail);
    let first = ordinary_ids(v, head);
    if q < text.len() {
        let id = special_at(v, text, q)->Some_0;
        let list = special_ids(v.kinds, v.kinds.len());
        super::lemma_longest(v, list, text, q, list.len());
        let token = v.token(id)->Some_0;
        let next = q + token.len();
        let rest = ids_from(v, text, next);
        lemma_ids_from_round_trip(v, lines, text, next);
        assert(tail =~= token + text.skip(next));
        text::lemma_utf8_concat(token, text.skip(next));
        assert(ids_from(v, text, p) == first.push(id) + rest);
        assert(first.push(id) =~= first + seq![id]);
        lemma_pieces_add(v, first + seq![id], rest);
        lemma_pieces_add(v, first, seq![id]);
        let f = |i: u32| piece_of(v, i);
        assert(seq![id].map_values(f) =~= Seq::empty().push(piece_of(v, id)));
        text::lemma_concat_push(Seq::empty(), piece_of(v, id));
        assert(all_pieces(v, seq![id]) =~= encode_utf8(token));
        assert(all_pieces(v, ids_from(v, text, p)) =~= encode_utf8(text.skip(p)));
    } else {
        assert(tail =~= Seq::empty());
        assert(encode_utf8(tail) =~= Seq::empty());
        assert(ids_from(v, text, p) == first);
        assert(encode_utf8(head) + encode_utf8(tail) =~= encode_utf8(head));
    }
}

/// What a token shows outside of a leading position.
spec fn visible(v: TokenizerView, id: u32) -> Seq<u8> {
    if v.kind_of(id) == TokenKind::Control {
        Seq::empty()
    } else {
        piece_of(v, id)
    }
}

spec fn all_visible(v: TokenizerView, ids: Seq<u32>) -> Seq<u8> {
    concat(ids.map_values(|id: u32| visible(v, id)))
}

proof fn lemma_shown_is_visible(v: TokenizerView, ids: Seq<u32>, n: nat)
    requires
        n <= ids.len(),
        v.kind == Kind::Bpe,
    ensures
        shown_bytes(v, ids, n) == all_visible(v, ids.take(n as int)),
    decreases n,
{
    let f = |id: u32| visible(v, id);
    if n == 0 {
        assert(ids.take(0).map_values(f) =~= Seq::empty());
    } else {
        let m = (n - 1) as nat;
        lemma_shown_is_visible(v, ids, m);
        assert(ids.take(n as int).map_values(f) =~= ids.take(m as int).map_values(f).push(visible(v, ids[n - 1])));
        text::lemma_concat_push(ids.take(m as int).map_values(f), visible(v, ids[n - 1]));
    }
}

proof fn lemma_visible_add(v: TokenizerView, a: Seq<u32>, b: Seq<u32>)
    ensures
        all_visible(v, a + b) == all_visible(v, a) + all_visible(v, b),
{
    let f = |id: u32| visible(v, id);
    assert((a + b).map_values(f) =~= a.map_values(f) + b.map_values(f));
    text::lemma_concat_add(a.map_values(f), b.map_values(f));
}

/// Whether a mark, if there is one, is a control token.
pub open spec fn hidden(v: TokenizerView, mark: Option<u32>) -> bool {
    mark matches Some(id) ==> v.kind_of(id) == TokenKind::Control
}

proof fn lemma_mark_invisible(v: TokenizerView, mark: Seq<u32>)
    requires
        mark.len() <= 1,
        mark.len() == 1 ==> v.kind_of(mark[0]) == TokenKind::Control,
    ensures
        all_visible(v, mark) == Seq::<u8>::empty(),
{
    let f = |id: u32| visible(v, id);
    let each = mark.map_values(f);
    if mark.len() == 1 {
        assert(each =~= Seq::empty().push(Seq::<u8>::empty()));
        text::lemma_concat_push(Seq::empty(), Seq::<u8>::empty());
        assert(concat(each) =~= Seq::empty());
    } else {
        assert(each =~= Seq::empty());
    }
}

/// Decoding gives back what a byte-level vocabulary encoded, with or without
/// the marks for begin and end of sequence: for every text whose bytes have
/// tokens, whose special tokens are spelled in their own letters, and in which
/// no control token stands.
pub proof fn lemma_bpe_round_trip(v: TokenizerView, lines: Seq<Seq<char>>, text: Seq<char>, add_special: bool)
    requires
        byte_level(v, lines),
        spellable(v, encode_utf8(text)),
        literal_specials(v, text),
        forall|i: int|
            0 <= i < ids_from(v, text, 0).len() ==> v.kind_of(#[trigger] ids_from(v, text, 0)[i]) != TokenKind::Control,
        hidden(v, v.bos),
        hidden(v, v.eos),
    ensures
        shown_bytes(v, encoded(v, text, add_special), encoded(v, text, add_special).len()) == encode_utf8(text),
        valid_utf8(encode_utf8(text)),
        decode_utf8(encode_utf8(text)) == text,
{
    let ids = encoded(v, text, add_special);
    let middle = ids_from(v, text, 0);
    let begin = if add_special && v.add_bos && v.bos is Some {
        seq![v.bos->Some_0]
    } else {
        Seq::empty()
    };
    let end = if add_special && v.add_eos && v.eos is Some {
        seq![v.eos->Some_0]
    } else {
        Seq::empty()
    };
    vstd::utf8::encode_utf8_valid_utf8(text);
    vstd::utf8::encode_utf8_decode_utf8(text);
    lemma_ids_from_round_trip(v, lines, text, 0);
    assert(text.skip(0) =~= text);
    lemma_shown_is_visible(v, ids, ids.len());
    assert(ids.take(ids.len() as int) =~= ids);
    lemma_visible_add(v, begin + middle, end);
    lemma_visible_add(v, begin, middle);
    lemma_mark_invisible(v, begin);
    lemma_mark_invisible(v, end);
    assert(middle.map_values(|id: u32| visible(v, id)) =~= middle.map_values(|id: u32| piece_of(v, id)));
    assert(all_visible(v, ids) =~= encode_utf8(text));
}

// --------------------------------------------------------------- SentencePiece

/// A part whose ids decode to the part itself: a token that is neither a
/// control token nor one for a byte, or text without the stand-in for a space
/// whose bytes all have tokens.
pub open spec fn decodable(v: TokenizerView, part: Seq<char>) -> bool {
    match v.id(part) {
        Some(id) => v.kind_of(id) != TokenKind::Control && v.kind_of(id) != TokenKind::Byte,
        None => !part.contains(SPACE) && forall|i: int|
            0 <= i < encode_utf8(part).len() ==> has_byte(v, #[trigger] encode_utf8(part)[i]),
    }
}

/// Whether a byte has a token of its own.
pub open spec fn has_byte(v: TokenizerView, byte: u8) -> bool {
    v.byte_id(byte) matches Some(id) && v.kind_of(id) == TokenKind::Byte
}

/// The parts that a text is cut into.
pub open spec fn parts_of_text(v: TokenizerView, text: Seq<char>) -> Seq<Seq<char>> {
    segmented(v, singles(normalized(text)))
}

proof fn lemma_byte_token(byte: u8)
    ensures
        byte_of_token(byte_token(byte)) == Some(byte),
{
    let token = byte_token(byte);
    let high = byte as int / 16;
    let low = byte as int % 16;
    let digits = token.subrange(3, 5);
    assert(digits[0] == hex_digit(high));
    assert(digits[1] == hex_digit(low));
    assert(digit_value(hex_digit(high)) == Some(high as nat));
    assert(digit_value(hex_digit(low)) == Some(low as nat));
    reveal_with_fuel(hex_value, 3);
    assert(hex_value(digits, 2) == Some(byte as nat));
    assert(digits[0] != '+');
    assert(hex_byte(digits) == Some(byte));
}

proof fn lemma_byte_pieces(v: TokenizerView, bytes: Seq<u8>, n: nat)
    requires
        v.kind == Kind::Spm,
        v.tokens.len() <= 0x1_0000_0000,
        n <= bytes.len(),
        forall|i: int| 0 <= i < bytes.len() ==> has_byte(v, #[trigger] bytes[i]),
    ensures
        all_pieces(v, byte_ids(v, bytes, n)) == bytes.take(n as int),
        forall|i: int|
            0 <= i < byte_ids(v, bytes, n).len() ==> v.kind_of(#[trigger] byte_ids(v, bytes, n)[i]) == TokenKind::Byte,
    decreases n,
{
    let f = |id: u32| piece_of(v, id);
    if n == 0 {
        assert(byte_ids(v, bytes, 0).map_values(f) =~= Seq::empty());
        assert(bytes.take(0) =~= Seq::empty());
    } else {
        let m = (n - 1) as nat;
        lemma_byte_pieces(v, bytes, m);
        let byte = bytes[n - 1];
        assert(has_byte(v, byte));
        let id = v.byte_id(byte)->Some_0;
        lemma_ids_are_places(v.tokens, v.tokens.len());
        assert(v.ids().contains_key(byte_token(byte)));
        assert(v.token(id) == Some(byte_token(byte)));
        lemma_byte_token(byte);
        let before = byte_ids(v, bytes, m);
        assert(byte_ids(v, bytes, n) == before.push(id));
        assert(before.push(id).map_values(f) =~= before.map_values(f).push(piece_of(v, id)));
        text::lemma_concat_push(before.map_values(f), piece_of(v, id));
        assert(bytes.take(n as int) =~= bytes.take(m as int) + seq![byte]);
    }
}

proof fn lemma_part_pieces(v: TokenizerView, part: Seq<char>)
    requires
        v.kind == Kind::Spm,
        v.tokens.len() <= 0x1_0000_0000,
        decodable(v, part),
    ensures
        all_pieces(v, part_ids(v, part)) == encode_utf8(spaced(part)),
        forall|i: int|
            0 <= i < part_ids(v, part).len() ==> v.kind_of(#[trigger] part_ids(v, part)[i]) != TokenKind::Control,
{
    let f = |id: u32| piece_of(v, id);
    match v.id(part) {
        Some(id) => {
            lemma_ids_are_places(v.tokens, v.tokens.len());
            assert(v.ids().contains_key(part));
            let pieces = seq![id].map_values(f);
            assert(pieces =~= Seq::empty().push(piece_of(v, id)));
            text::lemma_concat_push(Seq::empty(), piece_of(v, id));
            assert(concat(Seq::<Seq<u8>>::empty()) + piece_of(v, id) =~= piece_of(v, id));
        },
        None => {
            let bytes = encode_utf8(part);
            lemma_byte_pieces(v, bytes, bytes.len());
            assert(bytes.take(bytes.len() as int) =~= bytes);
            assert(spaced(part) =~= part) by {
                assert forall|i: int| 0 <= i < part.len() implies spaced(part)[i] == part[i] by {
                    assert(part.contains(part[i]));
                }
            }
        },
    }
}

proof fn lemma_parts_pieces(v: TokenizerView, parts: Seq<Seq<char>>)
    requires
        v.kind == Kind::Spm,
        v.tokens.len() <= 0x1_0000_0000,
        forall|k: int| 0 <= k < parts.len() ==> decodable(v, #[trigger] parts[k]),
    ensures
        all_pieces(v, parts_ids(v, parts)) == encode_utf8(spaced(concat(parts))),
        forall|i: int|
            0 <= i < parts_ids(v, parts).len() ==> v.kind_of(#[trigger] parts_ids(v, parts)[i]) != TokenKind::Control,
    decreases parts.len(),
{
    let each = Seq::new(parts.len(), |i: int| part_ids(v, parts[i]));
    if parts.len() == 0 {
        assert(concat(each) =~= Seq::empty());
        assert(Seq::<u32>::empty().map_values(|id: u32| piece_of(v, id)) =~= Seq::empty());
        assert(spaced(concat(parts)) =~= Seq::empty());
        assert(encode_utf8(spaced(concat(parts))) =~= Seq::empty());
    } else {
        let rest = parts.drop_last();
        let last = parts.last();
        assert forall|k: int| 0 <= k < rest.len() implies decodable(v, #[trigger] rest[k]) by {
            assert(decodable(v, parts[k]));
        }
        lemma_parts_pieces(v, rest);
        assert(decodable(v, parts[parts.len() - 1]));
        lemma_part_pieces(v, last);
        assert(each.drop_last() =~= Seq::new(rest.len(), |i: int| part_ids(v, rest[i])));
        let a = parts_ids(v, rest);
        let b = part_ids(v, last);
        assert(parts_ids(v, parts) == a + b);
        lemma_pieces_add(v, a, b);
        assert(spaced(concat(parts)) =~= spaced(concat(rest)) + spaced(last));
        text::lemma_utf8_concat(spaced(concat(rest)), spaced(last));
        assert forall|i: int| 0 <= i < (a + b).len() implies v.kind_of(#[trigger] (a + b)[i]) != TokenKind::Control by {
            if i < a.len() {
                assert(v.kind_of(a[i]) != TokenKind::Control);
            } else {
                assert(v.kind_of(b[i - a.len()]) != TokenKind::Control);
            }
        }
    }
}

proof fn lemma_space_byte()
    ensures
        encode_utf8(seq![' ']) == seq![0x20u8],
{
    let s = seq![' '];
    assert(0x20u32 & 0x7F == 0x20) by (bit_vector);
    assert(s.drop_first() =~= Seq::empty());
    assert(encode_utf8(Seq::<char>::empty()) =~= Seq::empty());
    assert(encode_utf8(s) =~= seq![0x20u8]);
}

proof fn lemma_no_empty_part(v: TokenizerView, parts: Seq<Seq<char>>)
    requires
        parts.len() > 0,
        forall|k: int| 0 <= k < parts.len() ==> (#[trigger] parts[k]).len() > 0,
    ensures
        segmented(v, parts).len() > 0,
        forall|k: int| 0 <= k < segmented(v, parts).len() ==> (#[trigger] segmented(v, parts)[k]).len() > 0,
    decreases parts.len(),
{
    if exists|i: int| spm::is_top(v, parts, i) {
        let i = choose|i: int| spm::is_top(v, parts, i);
        assert(spm::joinable(v, parts, i));
        let next = joined_at(parts, i);
        assert forall|k: int| 0 <= k < next.len() implies (#[trigger] next[k]).len() > 0 by {
            let k0 = if k <= i { k } else { k + 1 };
            assert(parts[k0].len() > 0);
        }
        lemma_no_empty_part(v, next);
    } else {
        assert(segmented(v, parts) == parts);
    }
}

proof fn lemma_concat_starts(parts: Seq<Seq<char>>)
    requires
        parts.len() > 0,
        parts[0].len() > 0,
    ensures
        concat(parts).len() > 0,
        concat(parts)[0] == parts[0][0],
    decreases parts.len(),
{
    if parts.len() > 1 {
        assert(parts.drop_last()[0] == parts[0]);
        lemma_concat_starts(parts.drop_last());
    } else {
        assert(parts.drop_last() =~= Seq::empty());
        reveal_with_fuel(concat, 2);
        assert(concat(parts) =~= parts[0]);
    }
}

proof fn lemma_first_part_leads(v: TokenizerView, parts: Seq<Seq<char>>)
    requires
        parts.len() > 0,
        v.id(parts[0]) is Some,
    ensures
        parts_ids(v, parts).len() > 0,
        parts_ids(v, parts)[0] == v.id(parts[0])->Some_0,
    decreases parts.len(),
{
    let each = Seq::new(parts.len(), |i: int| part_ids(v, parts[i]));
    let rest = parts.drop_last();
    assert(each.drop_last() =~= Seq::new(rest.len(), |i: int| part_ids(v, rest[i])));
    if parts.len() > 1 {
        assert(rest[0] == parts[0]);
        lemma_first_part_leads(v, rest);
        assert(parts_ids(v, parts) == parts_ids(v, rest) + part_ids(v, parts.last()));
    } else {
        assert(each.drop_last() =~= Seq::empty());
        assert(parts_ids(v, parts) =~= part_ids(v, parts[0]));
    }
}

proof fn lemma_shown_without_prefix(v: TokenizerView, ids: Seq<u32>, n: nat)
    requires
        0 < n <= ids.len(),
        v.kind == Kind::Spm,
        forall|i: int| 0 <= i < ids.len() ==> v.kind_of(#[trigger] ids[i]) != TokenKind::Control,
        piece_of(v, ids[0]).len() > 0,
        piece_of(v, ids[0])[0] == 0x20,
    ensures
        seq![0x20u8] + shown_bytes(v, ids, n) == all_pieces(v, ids.take(n as int)),
    decreases n,
{
    let f = |id: u32| piece_of(v, id);
    let m = (n - 1) as nat;
    let piece = piece_of(v, ids[n - 1]);
    assert(v.kind_of(ids[n - 1]) != TokenKind::Control);
    assert(ids.take(n as int).map_values(f) =~= ids.take(m as int).map_values(f).push(piece));
    text::lemma_concat_push(ids.take(m as int).map_values(f), piece);
    if n == 1 {
        assert(ids.take(0).map_values(f) =~= Seq::empty());
        assert(shown_bytes(v, ids, 1) =~= piece.skip(1)) by {
            reveal_with_fuel(shown_bytes, 2);
        }
        assert(seq![0x20u8] + piece.skip(1) =~= piece);
        assert(concat(Seq::<Seq<u8>>::empty()) + piece =~= piece);
    } else {
        lemma_shown_without_prefix(v, ids, m);
        assert(v.kind_of(ids[0]) != TokenKind::Control);
        assert(shown_piece(v, ids, n - 1) == piece);
        assert(seq![0x20u8] + (shown_bytes(v, ids, m) + piece) =~= seq![0x20u8] + shown_bytes(v, ids, m) + piece);
    }
}

proof fn lemma_segments_round_trip(v: TokenizerView, text: Seq<char>)
    requires
        v.kind == Kind::Spm,
        v.tokens.len() <= 0x1_0000_0000,
        !text.contains(SPACE),
        v.id(parts_of_text(v, text)[0]) is Some,
        forall|k: int| 0 <= k < parts_of_text(v, text).len() ==> decodable(v, #[trigger] parts_of_text(v, text)[k]),
    ensures
        shown_bytes(v, spm::encoded(v, text), spm::encoded(v, text).len()) == encode_utf8(text),
{
    let line = normalized(text);
    let parts = parts_of_text(v, text);
    let ids = spm::encoded(v, text);
    spm::lemma_parts_partition(v, text);
    lemma_no_empty_part(v, singles(line));
    lemma_concat_starts(parts);
    lemma_parts_pieces(v, parts);
    lemma_first_part_leads(v, parts);
    assert(spaced(line) =~= seq![' '] + text) by {
        assert forall|i: int| 0 <= i < line.len() implies spaced(line)[i] == (seq![' '] + text)[i] by {
            if i > 0 {
                assert(text.contains(text[i - 1]));
            }
        }
    }
    lemma_space_byte();
    text::lemma_utf8_concat(seq![' '], text);
    let first = v.id(parts[0])->Some_0;
    assert(decodable(v, parts[0]));
    lemma_ids_are_places(v.tokens, v.tokens.len());
    assert(v.ids().contains_key(parts[0]));
    let lead = spaced(parts[0]);
    assert(piece_of(v, first) == encode_utf8(lead));
    assert(lead =~= seq![' '] + lead.skip(1));
    text::lemma_utf8_concat(seq![' '], lead.skip(1));
    lemma_shown_without_prefix(v, ids, ids.len());
    assert(ids.take(ids.len() as int) =~= ids);
    let shown = shown_bytes(v, ids, ids.len());
    assert((seq![0x20u8] + shown).skip(1) =~= shown);
    assert((seq![0x20u8] + encode_utf8(text)).skip(1) =~= encode_utf8(text));
}

/// Whether each part is a token.
pub open spec fn all_tokens(v: TokenizerView, parts: Seq<Seq<char>>) -> bool {
    forall|k: int| 0 <= k < parts.len() ==> v.ids().contains_key(#[trigger] parts[k])
}

proof fn lemma_segments_are_tokens(v: TokenizerView, parts: Seq<Seq<char>>)
    requires
        all_tokens(v, parts),
    ensures
        all_tokens(v, segmented(v, parts)),
    decreases parts.len(),
{
    if exists|i: int| spm::is_top(v, parts, i) {
        let i = choose|i: int| spm::is_top(v, parts, i);
        assert(spm::joinable(v, parts, i));
        let next = joined_at(parts, i);
        assert forall|k: int| 0 <= k < next.len() implies v.ids().contains_key(#[trigger] next[k]) by {
            let k0 = if k <= i { k } else { k + 1 };
            assert(v.ids().contains_key(parts[k0]));
        }
        lemma_segments_are_tokens(v, next);
    }
}

proof fn lemma_token_parts_ids(v: TokenizerView, parts: Seq<Seq<char>>)
    requires
        all_tokens(v, parts),
    ensures
        parts_ids(v, parts) == Seq::new(parts.len(), |k: int| v.ids()[parts[k]]),
    decreases parts.len(),
{
    let each = Seq::new(parts.len(), |k: int| part_ids(v, parts[k]));
    if parts.len() == 0 {
        assert(parts_ids(v, parts) =~= Seq::empty());
    } else {
        let rest = parts.drop_last();
        assert forall|k: int| 0 <= k < rest.len() implies v.ids().contains_key(#[trigger] rest[k]) by {
            assert(v.ids().contains_key(parts[k]));
        }
        lemma_token_parts_ids(v, rest);
        assert(each.drop_last() =~= Seq::new(rest.len(), |k: int| part_ids(v, rest[k])));
        assert(v.ids().contains_key(parts[parts.len() - 1]));
        assert(parts_ids(v, parts) == parts_ids(v, rest) + seq![v.ids()[parts.last()]]);
        assert(parts_ids(v, parts) =~= Seq::new(parts.len(), |k: int| v.ids()[parts[k]]));
    }
}

/// Where every character of a text is a token, SentencePiece encoding spells
/// the normalized text token by token, and no two neighbours make a token
/// together: nothing is left to merge.
pub proof fn lemma_spm_encoding_is_merged(v: TokenizerView, text: Seq<char>)
    requires
        v.tokens.len() <= 0x1_0000_0000,
        all_tokens(v, singles(normalized(text))),
    ensures
        known(v, spm::encoded(v, text)),
        concat(spm::encoded(v, text).map_values(|id: u32| v.tokens[id as int])) == normalized(text),
        forall|i: int|
            0 <= i && i + 1 < spm::encoded(v, text).len() ==> !v.ids().contains_key(
                v.tokens[#[trigger] spm::encoded(v, text)[i] as int] + v.tokens[spm::encoded(v, text)[i + 1] as int],
            ),
{
    let parts = parts_of_text(v, text);
    let ids = spm::encoded(v, text);
    lemma_segments_are_tokens(v, singles(normalized(text)));
    lemma_token_parts_ids(v, parts);
    lemma_ids_are_places(v.tokens, v.tokens.len());
    spm::lemma_parts_partition(v, text);
    assert forall|i: int| 0 <= i < ids.len() implies (#[trigger] ids[i]) < v.tokens.len() && v.tokens[ids[i] as int]
        == parts[i] by {
        assert(v.ids().contains_key(parts[i]));
    }
    assert(ids.map_values(|id: u32| v.tokens[id as int]) =~= parts);
    assert forall|i: int| 0 <= i && i + 1 < ids.len() implies !v.ids().contains_key(
        v.tokens[#[trigger] ids[i] as int] + v.tokens[ids[i + 1] as int],
    ) by {
        assert(v.tokens[ids[i + 1] as int] == parts[i + 1]);
        spm::lemma_nothing_left_to_join(v, singles(normalized(text)), i);
    }
}

/// Decoding gives back what SentencePiece encoded, and the dummy prefix does
/// not survive: for a vocabulary of normal tokens that holds every character of
/// the normalized text, and any text without the stand-in for a space.
pub proof fn lemma_spm_plain_round_trip(v: TokenizerView, text: Seq<char>)
    requires
        v.kind == Kind::Spm,
        v.tokens.len() <= 0x1_0000_0000,
        forall|i: int| 0 <= i < v.kinds.len() ==> #[trigger] v.kinds[i] == TokenKind::Normal,
        all_tokens(v, singles(normalized(text))),
        !text.contains(SPACE),
    ensures
        shown_bytes(v, spm::encoded(v, text), spm::encoded(v, text).len()) == encode_utf8(text),
        valid_utf8(encode_utf8(text)),
        decode_utf8(encode_utf8(text)) == text,
{
    vstd::utf8::encode_utf8_valid_utf8(text);
    vstd::utf8::encode_utf8_decode_utf8(text);
    let parts = parts_of_text(v, text);
    lemma_segments_are_tokens(v, singles(normalized(text)));
    lemma_no_empty_part(v, singles(normalized(text)));
    assert(v.ids().contains_key(parts[0]));
    assert forall|k: int| 0 <= k < parts.len() implies decodable(v, #[trigger] parts[k]) by {
        assert(v.ids().contains_key(parts[k]));
    }
    lemma_segments_round_trip(v, text);
}

/// Whether every id is that of a control token.
spec fn all_control(v: TokenizerView, ids: Seq<u32>) -> bool {
    forall|i: int| 0 <= i < ids.len() ==> v.kind_of(#[trigger] ids[i]) == TokenKind::Control
}

proof fn lemma_marks_are_not_shown(v: TokenizerView, begin: Seq<u32>, middle: Seq<u32>, end: Seq<u32>, n: nat)
    requires
        all_control(v, begin),
        all_control(v, end),
        n <= (begin + middle + end).len(),
    ensures
        ({
            let ids = begin + middle + end;
            let k = n - begin.len();
            shown_bytes(v, ids, n) == (if k <= 0 {
                Seq::empty()
            } else if k <= middle.len() {
                shown_bytes(v, middle, k as nat)
            } else {
                shown_bytes(v, middle, middle.len())
            })
        }),
    decreases n,
{
    let ids = begin + middle + end;
    if n > 0 {
        lemma_marks_are_not_shown(v, begin, middle, end, (n - 1) as nat);
        let i = n - 1;
        let k = i - begin.len();
        assert(shown_bytes(v, middle, 0) == Seq::<u8>::empty());
        if k < 0 {
            assert(ids[i] == begin[i]);
            assert(v.kind_of(begin[i]) == TokenKind::Control);
            assert(shown_bytes(v, ids, n) =~= Seq::empty());
        } else if k < middle.len() {
            assert(ids[i] == middle[k]);
            assert(leads(v, ids, i) == leads(v, middle, k)) by {
                if leads(v, ids, i) {
                    assert forall|j: int| 0 <= j < k implies v.kind_of(#[trigger] middle[j]) == TokenKind::Control by {
                        assert(ids[begin.len() + j] == middle[j]);
                    }
                }
                if leads(v, middle, k) {
                    assert forall|j: int| 0 <= j < i implies v.kind_of(#[trigger] ids[j]) == TokenKind::Control by {
                        if j < begin.len() {
                            assert(ids[j] == begin[j]);
                        } else {
                            assert(ids[j] == middle[j - begin.len()]);
                        }
                    }
                }
            }
            assert(shown_piece(v, ids, i) == shown_piece(v, middle, k));
            assert(shown_bytes(v, middle, (k + 1) as nat) == shown_bytes(v, middle, k as nat) + shown_piece(v, middle, k));
        } else {
            assert(ids[i] == end[k - middle.len()]);
            assert(v.kind_of(end[k - middle.len()]) == TokenKind::Control);
            assert(shown_bytes(v, ids, n) =~= shown_bytes(v, ids, (n - 1) as nat));
        }
    }
}

/// Decoding gives back what a SentencePiece vocabulary encoded, dummy prefix
/// taken off, with or without the marks for begin and end of sequence: for
/// every text without special tokens and without the stand-in for a space whose
/// parts decode to themselves and whose first part is a token.
pub proof fn lemma_spm_round_trip(v: TokenizerView, text: Seq<char>, add_special: bool)
    requires
        v.kind == Kind::Spm,
        v.tokens.len() <= 0x1_0000_0000,
        !text.contains(SPACE),
        next_special(v, text, 0) == text.len(),
        text.len() > 0 ==> v.id(parts_of_text(v, text)[0]) is Some,
        text.len() > 0 ==> forall|k: int|
            0 <= k < parts_of_text(v, text).len() ==> decodable(v, #[trigger] parts_of_text(v, text)[k]),
        hidden(v, v.bos),
        hidden(v, v.eos),
    ensures
        shown_bytes(v, encoded(v, text, add_special), encoded(v, text, add_special).len()) == encode_utf8(text),
        valid_utf8(encode_utf8(text)),
        decode_utf8(encode_utf8(text)) == text,
{
    vstd::utf8::encode_utf8_valid_utf8(text);
    vstd::utf8::encode_utf8_decode_utf8(text);
    let middle = ids_from(v, text, 0);
    let begin = if add_special && v.add_bos && v.bos is Some {
        seq![v.bos->Some_0]
    } else {
        Seq::empty()
    };
    let end = if add_special && v.add_eos && v.eos is Some {
        seq![v.eos->Some_0]
    } else {
        Seq::empty()
    };
    assert(text.subrange(0, text.len() as int) =~= text);
    assert(middle == ordinary_ids(v, text));
    let ids = encoded(v, text, add_special);
    lemma_marks_are_not_shown(v, begin, middle, end, ids.len());
    if text.len() == 0 {
        assert(encode_utf8(text) =~= Seq::empty());
    } else {
        lemma_segments_round_trip(v, text);
    }
}

} // verus!
