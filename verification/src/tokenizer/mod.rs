//! Tokenizers reconstructed from GGUF metadata.
//!
//! A GGUF file carries its own vocabulary, so nothing has to be shipped
//! alongside the weights and there is no `tokenizer.json` to keep in sync. Two
//! families cover essentially every model in circulation:
//!
//! - `gpt2`: byte-level BPE with an explicit merge list. Llama 3, Qwen, Phi.
//! - `llama`: SentencePiece, driven by per-token scores. Llama 2, Mistral, Gemma.
//!
//! Both are implemented here. Whichever the file declares is what gets used.

use vstd::prelude::*;
use vstd::utf8::{decode_utf8, encode_utf8, valid_utf8};

use crate::error::{invalid_data, Error, ErrorKind, ErrorView};
use crate::gguf::{FileView, Gguf, ValueView};
use crate::text::{self, concat, stands_at, texts};
use crate::value::{all_numbers, all_texts};
use bpe::{collapsed, merge_table, pretokens, slices, Merges};
use bytes::{meant_bytes, stored_form};
use ids::{lookup, Ids};

pub mod bpe;
pub mod bytes;
pub mod choices;
pub mod chunks;
pub mod heap;
pub mod ids;
pub mod laws;
pub mod spelling;
pub mod spm;

verus! {

/// The family of a vocabulary.
#[derive(Clone, Copy, Debug, PartialEq, Eq, Structural)]
pub enum Kind {
    /// SentencePiece: merge by score, spaces become U+2581.
    Spm,
    /// Byte-level BPE: merge by rank from an explicit merge list.
    Bpe,
}

/// The values of `tokenizer.ggml.token_type`.
#[derive(Clone, Copy, Debug, PartialEq, Eq, Structural)]
pub enum TokenKind {
    Normal,
    Unknown,
    Control,
    UserDefined,
    Unused,
    Byte,
}

/// The kind that a number in the file stands for.
pub open spec fn kind_of_number(id: u64) -> TokenKind {
    if id == 2 {
        TokenKind::Unknown
    } else if id == 3 {
        TokenKind::Control
    } else if id == 4 {
        TokenKind::UserDefined
    } else if id == 5 {
        TokenKind::Unused
    } else if id == 6 {
        TokenKind::Byte
    } else {
        TokenKind::Normal
    }
}

/// Tokens that only an exact match produces.
pub open spec fn special(kind: TokenKind) -> bool {
    kind == TokenKind::Control || kind == TokenKind::UserDefined
}

impl TokenKind {
    /// The kind that a number in the file stands for.
    pub fn from_id(id: u64) -> (kind: Self)
        ensures
            kind == kind_of_number(id),
    {
        match id {
            2 => TokenKind::Unknown,
            3 => TokenKind::Control,
            4 => TokenKind::UserDefined,
            5 => TokenKind::Unused,
            6 => TokenKind::Byte,
            _ => TokenKind::Normal,
        }
    }

    /// Tokens that must never be produced by merging text, only by an exact
    /// match against the literal token, or by the caller asking for them.
    pub fn is_special(self) -> (yes: bool)
        ensures
            yes == special(self),
    {
        matches!(self, TokenKind::Control | TokenKind::UserDefined)
    }
}

/// A tokenizer as a mathematical object.
#[verifier::ext_equal]
pub ghost struct TokenizerView {
    pub kind: Kind,
    pub tokens: Seq<Seq<char>>,
    pub kinds: Seq<TokenKind>,
    pub scores: Seq<u32>,
    pub merges: Map<(u32, u32), (u32, u32)>,
    pub bos: Option<u32>,
    pub eos: Option<u32>,
    pub unknown: Option<u32>,
    pub add_bos: bool,
    pub add_eos: bool,
}

/// The index of the first `n` tokens. The first id wins: a duplicate later in
/// the vocabulary is unreachable.
pub open spec fn first_ids(tokens: Seq<Seq<char>>, n: nat) -> Map<Seq<char>, u32>
    decreases n,
{
    if n == 0 {
        Map::empty()
    } else {
        let ids = first_ids(tokens, (n - 1) as nat);
        if ids.contains_key(tokens[n - 1]) {
            ids
        } else {
            ids.insert(tokens[n - 1], (n - 1) as u32)
        }
    }
}

/// A hexadecimal digit, as `{:X}` prints it.
pub open spec fn hex_digit(d: int) -> char {
    if d < 10 {
        (48 + d) as char
    } else {
        (55 + d) as char
    }
}

/// The text of the token that stands for a byte: `<0x0A>`.
pub open spec fn byte_token(byte: u8) -> Seq<char> {
    seq!['<', '0', 'x', hex_digit(byte as int / 16), hex_digit(byte as int % 16), '>']
}

impl TokenizerView {
    /// Token text to token id.
    pub open spec fn ids(self) -> Map<Seq<char>, u32> {
        first_ids(self.tokens, self.tokens.len())
    }

    /// The id of a token.
    pub open spec fn id(self, token: Seq<char>) -> Option<u32> {
        lookup(self.ids(), token)
    }

    /// The text of a token.
    pub open spec fn token(self, id: u32) -> Option<Seq<char>> {
        if id < self.tokens.len() {
            Some(self.tokens[id as int])
        } else {
            None
        }
    }

    /// The kind of a token.
    pub open spec fn kind_of(self, id: u32) -> TokenKind {
        if id < self.kinds.len() {
            self.kinds[id as int]
        } else {
            TokenKind::Normal
        }
    }

    /// The score of a token.
    pub open spec fn score(self, id: u32) -> u32 {
        if id < self.scores.len() {
            self.scores[id as int]
        } else {
            0
        }
    }

    /// The id of the token that stands for a byte.
    pub open spec fn byte_id(self, byte: u8) -> Option<u32> {
        self.id(byte_token(byte))
    }
}

/// A vocabulary with its rules.
pub struct Tokenizer {
    pub kind: Kind,
    pub tokens: Vec<String>,
    pub kinds: Vec<TokenKind>,
    /// Scores, each as the bits of an `f32`.
    pub scores: Vec<u32>,
    ids: Ids,
    /// `<0x0A>` style tokens, for text SentencePiece cannot segment.
    byte_fallback: Vec<Option<u32>>,
    merges: Merges,
    /// Tokens that are matched literally.
    specials: Vec<u32>,
    pub bos: Option<u32>,
    pub eos: Option<u32>,
    pub unknown: Option<u32>,
    pub add_bos: bool,
    pub add_eos: bool,
}

impl View for Tokenizer {
    type V = TokenizerView;

    closed spec fn view(&self) -> TokenizerView {
        TokenizerView {
            kind: self.kind,
            tokens: texts(self.tokens@),
            kinds: self.kinds@,
            scores: self.scores@,
            merges: self.merges@,
            bos: self.bos,
            eos: self.eos,
            unknown: self.unknown,
            add_bos: self.add_bos,
            add_eos: self.add_eos,
        }
    }
}

impl Tokenizer {
    /// The indexes agree with the vocabulary.
    pub closed spec fn wf(&self) -> bool {
        &&& self.merges.wf()
        &&& self.ids@ == self@.ids()
        &&& self.byte_fallback@.len() == 256
        &&& forall|b: u8| (#[trigger] self.byte_fallback@[b as int]) == self@.byte_id(b)
        &&& self.specials@ == special_ids(self.kinds@, self.kinds@.len())
    }

    /// How the vocabulary merges.
    pub fn kind(&self) -> (kind: Kind)
        ensures
            kind == self@.kind,
    {
        self.kind
    }

    /// The mark for the begin of a sequence.
    pub fn bos(&self) -> (id: Option<u32>)
        ensures
            id == self@.bos,
    {
        self.bos
    }

    /// The mark for the end of a sequence.
    pub fn eos(&self) -> (id: Option<u32>)
        ensures
            id == self@.eos,
    {
        self.eos
    }

    /// Whether texts get the mark for the begin of a sequence.
    pub fn add_bos(&self) -> (yes: bool)
        ensures
            yes == self@.add_bos,
    {
        self.add_bos
    }

    /// Whether texts get the mark for the end of a sequence.
    pub fn add_eos(&self) -> (yes: bool)
        ensures
            yes == self@.add_eos,
    {
        self.add_eos
    }

    /// The token for what the vocabulary cannot express.
    pub fn unknown_id(&self) -> (id: Option<u32>)
        ensures
            id == self@.unknown,
    {
        self.unknown
    }

    /// How many tokens there are.
    pub fn vocab_size(&self) -> (n: usize)
        ensures
            n == self@.tokens.len(),
    {
        self.tokens.len()
    }

    /// The id of a token.
    pub fn id(&self, token: &str) -> (id: Option<u32>)
        requires
            self.wf(),
        ensures
            id == self@.id(token@),
    {
        self.ids.get(token)
    }

    /// The text of a token.
    pub fn token(&self, id: u32) -> (token: Option<&str>)
        ensures
            match token {
                Some(s) => self@.token(id) == Some(s@),
                None => self@.token(id) is None,
            },
    {
        if (id as usize) < self.tokens.len() {
            Some(self.tokens[id as usize].as_str())
        } else {
            None
        }
    }

    /// The kind of a token.
    pub fn kind_of(&self, id: u32) -> (kind: TokenKind)
        ensures
            kind == self@.kind_of(id),
    {
        if (id as usize) < self.kinds.len() {
            self.kinds[id as usize]
        } else {
            TokenKind::Normal
        }
    }

    /// The score of a token, as the bits of an `f32`.
    pub fn score(&self, id: u32) -> (bits: u32)
        ensures
            bits == self@.score(id),
    {
        if (id as usize) < self.scores.len() {
            self.scores[id as usize]
        } else {
            0
        }
    }

    /// Id of the `<0xNN>` token for a byte, if the vocabulary has one.
    pub fn byte_id(&self, byte: u8) -> (id: Option<u32>)
        requires
            self.wf(),
        ensures
            id == self@.byte_id(byte),
    {
        self.byte_fallback[byte as usize]
    }

    /// How many merges the vocabulary has.
    pub fn merge_count(&self) -> (n: usize)
        requires
            self.wf(),
        ensures
            n == self@.merges.len(),
    {
        self.merges.len()
    }
}

// --------------------------------------------------------------------- loading

/// The list under a metadata key.
pub open spec fn list_under(file: FileView, key: Seq<char>) -> Option<Seq<ValueView>> {
    if file.meta.contains_key(key) {
        match file.meta[key] {
            ValueView::List(items) => Some(items),
            _ => None,
        }
    } else {
        None
    }
}

/// The texts of a list of texts under a metadata key.
pub open spec fn texts_under(file: FileView, key: Seq<char>) -> Option<Seq<Seq<char>>> {
    match list_under(file, key) {
        Some(items) => if all_texts(items) {
            Some(Seq::new(items.len(), |i: int| items[i]->Text_0))
        } else {
            None
        },
        None => None,
    }
}

/// The list of numbers under a metadata key.
pub open spec fn numbers_under(file: FileView, key: Seq<char>) -> Option<Seq<ValueView>> {
    match list_under(file, key) {
        Some(items) => if all_numbers(items) {
            Some(items)
        } else {
            None
        },
        None => None,
    }
}

/// The token id under a metadata key.
pub open spec fn id_under(file: FileView, key: Seq<char>) -> Option<u32> {
    match file.number(key) {
        Some(n) => if n <= u32::MAX {
            Some(n as u32)
        } else {
            None
        },
        None => None,
    }
}

/// The flag under a metadata key.
pub open spec fn flag_under(file: FileView, key: Seq<char>, default: bool) -> bool {
    match file.number(key) {
        Some(n) => n != 0,
        None => default,
    }
}

/// The family that a file declares.
pub open spec fn declared_kind(file: FileView) -> Result<Kind, ErrorView> {
    match file.text("tokenizer.ggml.model"@) {
        None => Err(invalid_data("file has no tokenizer.ggml.model"@)),
        Some(name) => if name == "llama"@ {
            Ok(Kind::Spm)
        } else if name == "gpt2"@ {
            Ok(Kind::Bpe)
        } else {
            Err(unknown_family_of(text::quoted(name)))
        },
    }
}

/// The complaint about a family that is shown as `shown`.
pub open spec fn unknown_family_of(shown: Seq<char>) -> ErrorView {
    invalid_data("tokenizer model "@ + shown + " is not supported (llama and gpt2 vocabs only)"@)
}

/// The complaint about a family that is shown as `shown`.
pub fn unknown_family(shown: &str) -> (error: Error)
    ensures
        error@ == unknown_family_of(shown@),
{
    let mut message = "tokenizer model ".to_owned();
    message.append(shown);
    message.append(" is not supported (llama and gpt2 vocabs only)");
    Error::new(ErrorKind::InvalidData, message)
}

/// The complaint about a file whose vocabulary cannot be used.
pub open spec fn load_error(file: FileView) -> Option<ErrorView> {
    match declared_kind(file) {
        Err(e) => Some(e),
        Ok(kind) => match texts_under(file, "tokenizer.ggml.tokens"@) {
            None => Some(invalid_data("file has no tokenizer.ggml.tokens"@)),
            Some(tokens) => {
                let scores = numbers_under(file, "tokenizer.ggml.scores"@);
                let kinds = list_under(file, "tokenizer.ggml.token_type"@);
                if tokens.len() == 0 {
                    Some(invalid_data("vocabulary is empty"@))
                } else if scores is Some && scores->Some_0.len() != tokens.len() {
                    Some(invalid_data("tokenizer scores and tokens have different lengths"@))
                } else if kinds is Some && kinds->Some_0.len() != tokens.len() {
                    Some(invalid_data("token_type and tokens have different lengths"@))
                } else if kind == Kind::Bpe && texts_under(file, "tokenizer.ggml.merges"@) is None {
                    Some(invalid_data("file has no tokenizer.ggml.merges"@))
                } else {
                    None
                }
            },
        },
    }
}

/// The kind that a metadata value stands for.
pub open spec fn kind_of_value(value: ValueView) -> TokenKind {
    match value.as_u64() {
        Some(id) => kind_of_number(id),
        None => TokenKind::Normal,
    }
}

/// Whether a vocabulary is the one that a file declares.
pub open spec fn loaded(file: FileView, v: TokenizerView) -> bool {
    let n = v.tokens.len();
    &&& declared_kind(file) == Ok::<Kind, ErrorView>(v.kind)
    &&& texts_under(file, "tokenizer.ggml.tokens"@) == Some(v.tokens)
    &&& v.scores.len() == n
    &&& v.kinds.len() == n
    &&& match numbers_under(file, "tokenizer.ggml.scores"@) {
        Some(items) => forall|i: int| 0 <= i < n ==> items[i].rounds_to(#[trigger] v.scores[i]),
        None => forall|i: int| 0 <= i < n ==> #[trigger] v.scores[i] == 0,
    }
    &&& match list_under(file, "tokenizer.ggml.token_type"@) {
        Some(items) => forall|i: int| 0 <= i < n ==> #[trigger] v.kinds[i] == kind_of_value(items[i]),
        None => forall|i: int| 0 <= i < n ==> #[trigger] v.kinds[i] == TokenKind::Normal,
    }
    &&& v.merges == match v.kind {
        Kind::Bpe => {
            let lines = texts_under(file, "tokenizer.ggml.merges"@)->Some_0;
            merge_table(lines, v.ids(), lines.len())
        },
        Kind::Spm => Map::empty(),
    }
    &&& v.bos == id_under(file, "tokenizer.ggml.bos_token_id"@)
    &&& v.eos == id_under(file, "tokenizer.ggml.eos_token_id"@)
    &&& v.unknown == id_under(file, "tokenizer.ggml.unknown_token_id"@)
    &&& v.add_bos == flag_under(file, "tokenizer.ggml.add_bos_token"@, v.kind == Kind::Spm)
    &&& v.add_eos == flag_under(file, "tokenizer.ggml.add_eos_token"@, false)
}

/// The ids of the special tokens among the first `n`.
pub open spec fn special_ids(kinds: Seq<TokenKind>, n: nat) -> Seq<u32>
    decreases n,
{
    if n == 0 {
        Seq::empty()
    } else {
        let before = special_ids(kinds, (n - 1) as nat);
        if special(kinds[n - 1]) {
            before.push((n - 1) as u32)
        } else {
            before
        }
    }
}

fn texts_of<'a>(model: &'a Gguf, key: &str) -> (found: Option<Vec<&'a str>>)
    requires
        model.wf(),
    ensures
        match found {
            Some(list) => texts_under(model@, key@) == Some(slices(list@)),
            None => texts_under(model@, key@) is None,
        },
{
    match model.get(key) {
        None => None,
        Some(value) => {
            let found = value.as_strings();
            proof {
                if found is Some {
                    let items = list_under(model@, key@)->Some_0;
                    assert(all_texts(items));
                    assert(texts_under(model@, key@)->Some_0 =~= slices(found->Some_0@));
                }
            }
            found
        },
    }
}

fn id_at(model: &Gguf, key: &str) -> (id: Option<u32>)
    requires
        model.wf(),
    ensures
        id == id_under(model@, key@),
{
    match model.meta_u64(key) {
        Some(n) => if n <= 0xffff_ffff {
            Some(n as u32)
        } else {
            None
        },
        None => None,
    }
}

fn flag_at(model: &Gguf, key: &str, default: bool) -> (flag: bool)
    requires
        model.wf(),
    ensures
        flag == flag_under(model@, key@, default),
{
    match model.meta_u64(key) {
        Some(n) => n != 0,
        None => default,
    }
}

fn family(model: &Gguf) -> (kind: Result<Kind, Error>)
    requires
        model.wf(),
    ensures
        match kind {
            Ok(k) => declared_kind(model@) == Ok::<Kind, ErrorView>(k),
            Err(e) => declared_kind(model@) == Err::<Kind, ErrorView>(e@),
        },
{
    match model.meta_str("tokenizer.ggml.model") {
        None => Err(Error::bad("file has no tokenizer.ggml.model")),
        Some(name) => {
            if text::str_eq(name, "llama") {
                Ok(Kind::Spm)
            } else if text::str_eq(name, "gpt2") {
                Ok(Kind::Bpe)
            } else {
                Err(unknown_family(text::quote(name).as_str()))
            }
        },
    }
}

fn index(tokens: &[String]) -> (ids: Ids)
    ensures
        ids@ == first_ids(texts(tokens@), tokens@.len()),
{
    let mut ids = Ids::new();
    let mut i: usize = 0;
    while i < tokens.len()
        invariant
            i <= tokens@.len(),
            ids@ == first_ids(texts(tokens@), i as nat),
        decreases tokens@.len() - i,
    {
        proof {
            assert(texts(tokens@)[i as int] == tokens@[i as int]@);
        }
        if ids.get(tokens[i].as_str()).is_none() {
            ids.insert(tokens[i].clone(), i as u32);
        }
        i += 1;
    }
    ids
}

fn hex(d: u8) -> (ch: char)
    requires
        d < 16,
    ensures
        ch == hex_digit(d as int),
{
    if d < 10 {
        (48 + d) as char
    } else {
        (55 + d) as char
    }
}

/// The text of the token that stands for a byte.
fn byte_text(byte: u8) -> (token: String)
    ensures
        token@ == byte_token(byte),
{
    let mut token = String::new();
    token.push('<');
    token.push('0');
    token.push('x');
    token.push(hex(byte / 16));
    token.push(hex(byte % 16));
    token.push('>');
    proof {
        assert(token@ =~= byte_token(byte));
    }
    token
}

fn fallback(ids: &Ids) -> (table: Vec<Option<u32>>)
    ensures
        table@.len() == 256,
        forall|b: u8| (#[trigger] table@[b as int]) == lookup(ids@, byte_token(b)),
{
    let mut table: Vec<Option<u32>> = Vec::new();
    let mut i: u16 = 0;
    while i < 256
        invariant
            i <= 256,
            table@.len() == i,
            forall|b: u8| b < i ==> (#[trigger] table@[b as int]) == lookup(ids@, byte_token(b)),
        decreases 256 - i,
    {
        table.push(ids.get(byte_text(i as u8).as_str()));
        i += 1;
    }
    table
}

fn find_specials(kinds: &[TokenKind]) -> (list: Vec<u32>)
    ensures
        list@ == special_ids(kinds@, kinds@.len()),
{
    let mut list: Vec<u32> = Vec::new();
    let mut i: usize = 0;
    while i < kinds.len()
        invariant
            i <= kinds@.len(),
            list@ == special_ids(kinds@, i as nat),
        decreases kinds@.len() - i,
    {
        if kinds[i].is_special() {
            list.push(i as u32);
        }
        i += 1;
    }
    list
}

fn scores_of(model: &Gguf, n: usize) -> (got: Result<Vec<u32>, Error>)
    requires
        model.wf(),
    ensures
        match got {
            Ok(scores) => scores@.len() == n && match numbers_under(model@, "tokenizer.ggml.scores"@) {
                Some(items) => items.len() == n && forall|i: int| 0 <= i < n ==> items[i].rounds_to(#[trigger] scores@[i]),
                None => forall|i: int| 0 <= i < n ==> #[trigger] scores@[i] == 0,
            },
            Err(e) => numbers_under(model@, "tokenizer.ggml.scores"@) matches Some(items) && items.len() != n && e@
                == invalid_data("tokenizer scores and tokens have different lengths"@),
        },
{
    let found = match model.get("tokenizer.ggml.scores") {
        Some(value) => value.as_f32s(),
        None => None,
    };
    proof {
        if found is Some {
            assert(all_numbers(list_under(model@, "tokenizer.ggml.scores"@)->Some_0));
        }
    }
    let scores: Vec<u32> = match found {
        Some(scores) => scores,
        None => vec![0; n],
    };
    if scores.len() != n {
        return Err(Error::bad("tokenizer scores and tokens have different lengths"));
    }
    Ok(scores)
}

fn kinds_of(model: &Gguf, n: usize) -> (got: Result<Vec<TokenKind>, Error>)
    requires
        model.wf(),
    ensures
        match got {
            Ok(kinds) => kinds@.len() == n && match list_under(model@, "tokenizer.ggml.token_type"@) {
                Some(items) => items.len() == n && forall|i: int|
                    0 <= i < n ==> #[trigger] kinds@[i] == kind_of_value(items[i]),
                None => forall|i: int| 0 <= i < n ==> #[trigger] kinds@[i] == TokenKind::Normal,
            },
            Err(e) => list_under(model@, "tokenizer.ggml.token_type"@) matches Some(items) && items.len() != n && e@
                == invalid_data("token_type and tokens have different lengths"@),
        },
{
    let found = match model.get("tokenizer.ggml.token_type") {
        Some(value) => value.as_array(),
        None => None,
    };
    let mut kinds: Vec<TokenKind> = Vec::new();
    let mut i: usize = 0;
    match found {
        Some(values) => {
            let ghost items = list_under(model@, "tokenizer.ggml.token_type"@)->Some_0;
            if values.len() != n {
                return Err(Error::bad("token_type and tokens have different lengths"));
            }
            while i < n
                invariant
                    n == values@.len(),
                    items == crate::value::views(values@),
                    i <= n,
                    kinds@.len() == i,
                    forall|j: int| 0 <= j < i ==> #[trigger] kinds@[j] == kind_of_value(items[j]),
                decreases n - i,
            {
                kinds.push(
                    TokenKind::from_id(
                        match values[i].as_u64() {
                            Some(id) => id,
                            None => 1,
                        },
                    ),
                );
                i += 1;
            }
        },
        None => {
            while i < n
                invariant
                    i <= n,
                    kinds@.len() == i,
                    forall|j: int| 0 <= j < i ==> #[trigger] kinds@[j] == TokenKind::Normal,
                decreases n - i,
            {
                kinds.push(TokenKind::Normal);
                i += 1;
            }
        },
    }
    Ok(kinds)
}

impl Tokenizer {
    /// The vocabulary that a file carries.
    pub fn from_gguf(model: &Gguf) -> (got: Result<Self, Error>)
        requires
            model.wf(),
        ensures
            match got {
                Ok(t) => load_error(model@) is None && loaded(model@, t@) && t.wf(),
                Err(e) => load_error(model@) == Some(e@),
            },
    {
        let kind = family(model)?;
        let slices = match texts_of(model, "tokenizer.ggml.tokens") {
            Some(list) => list,
            None => return Err(Error::bad("file has no tokenizer.ggml.tokens")),
        };
        if slices.len() == 0 {
            return Err(Error::bad("vocabulary is empty"));
        }
        let mut tokens: Vec<String> = Vec::new();
        let mut i: usize = 0;
        while i < slices.len()
            invariant
                i <= slices@.len(),
                texts(tokens@) == bpe::slices(slices@.take(i as int)),
            decreases slices@.len() - i,
        {
            let ghost before = tokens@;
            let token = slices[i].to_owned();
            tokens.push(token);
            proof {
                assert(texts(tokens@) =~= texts(before).push(token@));
                assert(texts(tokens@) =~= bpe::slices(slices@.take(i + 1)));
            }
            i += 1;
        }
        proof {
            assert(slices@.take(i as int) =~= slices@);
        }
        let n: usize = tokens.len();
        assert(n == texts(tokens@).len());
        let scores = scores_of(model, n)?;
        let kinds = kinds_of(model, n)?;
        let ids = index(tokens.as_slice());
        let merges = match kind {
            Kind::Bpe => match texts_of(model, "tokenizer.ggml.merges") {
                Some(lines) => bpe::load_merges(lines.as_slice(), &ids),
                None => return Err(Error::bad("file has no tokenizer.ggml.merges")),
            },
            Kind::Spm => Merges::new(),
        };
        let byte_fallback = fallback(&ids);
        let specials = find_specials(kinds.as_slice());
        let bos = id_at(model, "tokenizer.ggml.bos_token_id");
        let eos = id_at(model, "tokenizer.ggml.eos_token_id");
        let unknown = id_at(model, "tokenizer.ggml.unknown_token_id");
        // SentencePiece models prepend BOS unless told otherwise; byte-level
        // ones are explicit about it.
        let add_bos = flag_at(model, "tokenizer.ggml.add_bos_token", kind == Kind::Spm);
        let add_eos = flag_at(model, "tokenizer.ggml.add_eos_token", false);
        let t = Tokenizer {
            kind,
            tokens,
            kinds,
            scores,
            ids,
            byte_fallback,
            merges,
            specials,
            bos,
            eos,
            unknown,
            add_bos,
            add_eos,
        };
        Ok(t)
    }
}

// -------------------------------------------------------------------- encoding

/// The ids of the first `n` characters of a stored text: the character's own,
/// else that of the unknown token, else none.
pub open spec fn symbols_of(v: TokenizerView, chars: Seq<char>, n: nat) -> Seq<u32>
    decreases n,
{
    if n == 0 {
        Seq::empty()
    } else {
        let before = symbols_of(v, chars, (n - 1) as nat);
        match v.id(seq![chars[n - 1]]) {
            Some(id) => before.push(id),
            None => match v.unknown {
                Some(id) => before.push(id),
                None => before,
            },
        }
    }
}

/// The ids of a chunk: its stored characters, merged.
pub open spec fn chunk_ids(v: TokenizerView, chunk: Seq<char>) -> Seq<u32> {
    let form = stored_form(encode_utf8(chunk));
    collapsed(v.merges, symbols_of(v, form, form.len()))
}

/// The ids of chunks, one after the other.
pub open spec fn chunks_ids(v: TokenizerView, chunks: Seq<Seq<char>>) -> Seq<u32> {
    concat(Seq::new(chunks.len(), |i: int| chunk_ids(v, chunks[i])))
}

/// The ids of a text without special tokens.
pub open spec fn ordinary_ids(v: TokenizerView, text: Seq<char>) -> Seq<u32> {
    if text.len() == 0 {
        Seq::empty()
    } else {
        match v.kind {
            Kind::Bpe => chunks_ids(v, pretokens(text)),
            Kind::Spm => spm::encoded(v, text),
        }
    }
}

/// The longest of the first `k` listed tokens that stands in the text at `p`,
/// the first of those.
pub open spec fn longest(v: TokenizerView, list: Seq<u32>, text: Seq<char>, p: int, k: nat) -> Option<u32>
    decreases k,
{
    if k == 0 {
        None
    } else {
        let best = longest(v, list, text, p, (k - 1) as nat);
        match v.token(list[k - 1]) {
            None => best,
            Some(token) => if token.len() > 0 && stands_at(text, token, p) && (best is None || token.len() > v.token(
                best->Some_0,
            )->Some_0.len()) {
                Some(list[k - 1])
            } else {
                best
            },
        }
    }
}

/// The special token that stands in the text at `p`: the longest one.
pub open spec fn special_at(v: TokenizerView, text: Seq<char>, p: int) -> Option<u32> {
    let list = special_ids(v.kinds, v.kinds.len());
    longest(v, list, text, p, list.len())
}

/// Where the first special token from `p` on stands; the end if there is none.
pub open spec fn next_special(v: TokenizerView, text: Seq<char>, p: int) -> int
    decreases text.len() - p,
{
    if 0 <= p < text.len() && special_at(v, text, p) is None {
        next_special(v, text, p + 1)
    } else {
        p
    }
}

proof fn lemma_longest(v: TokenizerView, list: Seq<u32>, text: Seq<char>, p: int, k: nat)
    requires
        k <= list.len(),
    ensures
        longest(v, list, text, p, k) matches Some(id) ==> v.token(id) matches Some(token) && token.len() > 0 && stands_at(
            text,
            token,
            p,
        ),
    decreases k,
{
    if k > 0 {
        lemma_longest(v, list, text, p, (k - 1) as nat);
    }
}

proof fn lemma_next_special(v: TokenizerView, text: Seq<char>, p: int)
    requires
        0 <= p <= text.len(),
    ensures
        p <= next_special(v, text, p) <= text.len(),
        next_special(v, text, p) < text.len() ==> special_at(v, text, next_special(v, text, p)) is Some,
    decreases text.len() - p,
{
    if p < text.len() && special_at(v, text, p) is None {
        lemma_next_special(v, text, p + 1);
    }
}

/// The ids of the text from `p` on: special tokens where they stand, and the
/// text between them.
pub open spec fn ids_from(v: TokenizerView, text: Seq<char>, p: int) -> Seq<u32>
    decreases text.len() - p,
    via ids_from_end
{
    if 0 <= p <= text.len() {
        let q = next_special(v, text, p);
        let head = ordinary_ids(v, text.subrange(p, q));
        match special_at(v, text, q) {
            Some(id) => if q < text.len() {
                head.push(id) + ids_from(v, text, q + v.token(id)->Some_0.len())
            } else {
                head
            },
            None => head,
        }
    } else {
        Seq::empty()
    }
}

#[via_fn]
proof fn ids_from_end(v: TokenizerView, text: Seq<char>, p: int) {
    if 0 <= p <= text.len() {
        lemma_next_special(v, text, p);
        let list = special_ids(v.kinds, v.kinds.len());
        lemma_longest(v, list, text, next_special(v, text, p), list.len());
    }
}

/// The ids of a text. Begin and end of sequence are added if they are asked for
/// and the vocabulary wants them.
pub open spec fn encoded(v: TokenizerView, text: Seq<char>, add_special: bool) -> Seq<u32> {
    let begin = if add_special && v.add_bos && v.bos is Some {
        seq![v.bos->Some_0]
    } else {
        Seq::empty()
    };
    let end = if add_special && v.add_eos && v.eos is Some {
        seq![v.eos->Some_0]
    } else {
        Seq::empty()
    };
    begin + ids_from(v, text, 0) + end
}

impl Tokenizer {
    fn symbols(&self, form: &str) -> (symbols: Vec<u32>)
        requires
            self.wf(),
        ensures
            symbols@ == symbols_of(self@, form@, form@.len()),
    {
        let chars = text::to_chars(form);
        let mut symbols: Vec<u32> = Vec::new();
        let mut i: usize = 0;
        while i < chars.len()
            invariant
                self.wf(),
                chars@ == form@,
                i <= chars@.len(),
                symbols@ == symbols_of(self@, form@, i as nat),
            decreases chars@.len() - i,
        {
            let alone = text::from_chars(chars.as_slice(), i, i + 1);
            proof {
                assert(alone@ =~= seq![form@[i as int]]);
            }
            match self.id(alone.as_str()) {
                Some(id) => symbols.push(id),
                None => match self.unknown {
                    Some(id) => symbols.push(id),
                    None => {},
                },
            }
            i += 1;
        }
        symbols
    }

    fn push_ordinary(&self, piece: &str, out: &mut Vec<u32>)
        requires
            self.wf(),
        ensures
            final(out)@ == old(out)@ + ordinary_ids(self@, piece@),
    {
        if piece.as_bytes().len() == 0 {
            proof {
                if piece@.len() > 0 {
                    vstd::utf8::encode_utf8_decode_utf8(piece@);
                    assert(encode_utf8(piece@) =~= encode_utf8(Seq::empty()));
                    text::lemma_utf8_injective(piece@, Seq::empty());
                }
                assert(out@ =~= old(out)@ + ordinary_ids(self@, piece@));
            }
            return;
        }
        proof {
            assert(piece@.len() > 0) by {
                if piece@.len() == 0 {
                    assert(encode_utf8(piece@).len() == 0);
                }
            }
        }
        match self.kind {
            Kind::Spm => {
                let mut ids = spm::encode(self, piece);
                out.append(&mut ids);
            },
            Kind::Bpe => {
                let chunks = bpe::pretokenize(piece);
                let mut ids = self.encode_chunks(chunks.as_slice());
                out.append(&mut ids);
            },
        }
    }

    /// The ids of chunks, each merged on its own.
    pub fn encode_chunks(&self, chunks: &[String]) -> (ids: Vec<u32>)
        requires
            self.wf(),
        ensures
            ids@ == chunks_ids(self@, texts(chunks@)),
    {
        let ghost list = texts(chunks@);
        let mut out: Vec<u32> = Vec::new();
        let mut i: usize = 0;
        proof {
            assert(out@ =~= chunks_ids(self@, list.take(0)));
        }
        while i < chunks.len()
            invariant
                self.wf(),
                list == texts(chunks@),
                i <= chunks@.len(),
                out@ == chunks_ids(self@, list.take(i as int)),
            decreases chunks@.len() - i,
        {
            let form = bytes::encode_str(chunks[i].as_str());
            let mut symbols = self.symbols(form.as_str());
            bpe::apply_merges(&self.merges, &mut symbols);
            let ghost added = symbols@;
            out.append(&mut symbols);
            proof {
                assert(added == chunk_ids(self@, list[i as int]));
                let ids_of = |s: Seq<Seq<char>>| Seq::new(s.len(), |k: int| chunk_ids(self@, s[k]));
                assert(ids_of(list.take(i + 1)) =~= ids_of(list.take(i as int)).push(added));
                text::lemma_concat_push(ids_of(list.take(i as int)), added);
            }
            i += 1;
        }
        proof {
            assert(list.take(i as int) =~= list);
        }
        out
    }

    fn find_special(&self, chars: &[char], p: usize) -> (found: Option<(u32, usize)>)
        requires
            self.wf(),
            p <= chars@.len(),
        ensures
            match found {
                Some((id, n)) => special_at(self@, chars@, p as int) == Some(id) && self@.token(id) is Some && n
                    == self@.token(id)->Some_0.len() && n > 0 && p + n <= chars@.len(),
                None => special_at(self@, chars@, p as int) is None,
            },
    {
        let ghost list = special_ids(self@.kinds, self@.kinds.len());
        let mut best: Option<(u32, usize)> = None;
        let mut k: usize = 0;
        while k < self.specials.len()
            invariant
                self.wf(),
                p <= chars@.len(),
                list == self.specials@,
                k <= list.len(),
                match best {
                    Some((id, n)) => longest(self@, list, chars@, p as int, k as nat) == Some(id) && self@.token(
                        id,
                    ) is Some && n == self@.token(id)->Some_0.len(),
                    None => longest(self@, list, chars@, p as int, k as nat) is None,
                },
            decreases list.len() - k,
        {
            let id: u32 = self.specials[k];
            if let Some(token) = self.token(id) {
                let needle = text::to_chars(token);
                let longer: bool = match best {
                    None => true,
                    Some((_, n)) => needle.len() > n,
                };
                if needle.len() > 0 && longer && text::matches_at(chars, needle.as_slice(), p) {
                    best = Some((id, needle.len()));
                }
            }
            k += 1;
        }
        proof {
            lemma_longest(self@, list, chars@, p as int, list.len());
        }
        best
    }

    /// Text to ids. Special tokens are matched literally; with `add_special`
    /// the vocabulary's own begin and end of sequence are added.
    pub fn encode(&self, text: &str, add_special: bool) -> (ids: Vec<u32>)
        requires
            self.wf(),
        ensures
            ids@ == encoded(self@, text@, add_special),
    {
        let ghost v = self@;
        let mut out: Vec<u32> = Vec::new();
        if add_special && self.add_bos {
            if let Some(id) = self.bos {
                out.push(id);
            }
        }
        let ghost begin = out@;
        let chars = text::to_chars(text);
        let mut p: usize = 0;
        let mut q: usize = 0;
        proof {
            assert(begin + ids_from(v, text@, 0) =~= out@ + ids_from(v, text@, 0));
        }
        while q < chars.len()
            invariant
                self.wf(),
                v == self@,
                chars@ == text@,
                p <= q <= chars@.len(),
                next_special(v, text@, p as int) == next_special(v, text@, q as int),
                out@ + ids_from(v, text@, p as int) == begin + ids_from(v, text@, 0),
            decreases chars@.len() - q,
        {
            match self.find_special(chars.as_slice(), q) {
                None => {
                    q += 1;
                },
                Some((id, n)) => {
                    let head = text::from_chars(chars.as_slice(), p, q);
                    let ghost before = out@;
                    self.push_ordinary(head.as_str(), &mut out);
                    out.push(id);
                    proof {
                        let tail = ids_from(v, text@, q + n);
                        assert(before + (ordinary_ids(v, head@).push(id) + tail) =~= out@ + tail);
                    }
                    q = q + n;
                    p = q;
                },
            }
        }
        let tail = text::from_chars(chars.as_slice(), p, q);
        let ghost before = out@;
        self.push_ordinary(tail.as_str(), &mut out);
        proof {
            let n = text@.len() as int;
            assert(next_special(v, text@, n) == n);
            assert(ids_from(v, text@, p as int) == ordinary_ids(v, tail@));
            assert(out@ =~= begin + ids_from(v, text@, 0));
        }
        if add_special && self.add_eos {
            if let Some(id) = self.eos {
                out.push(id);
            }
        }
        proof {
            assert(out@ =~= encoded(v, text@, add_special));
        }
        out
    }
}

// -------------------------------------------------------------------- decoding

/// The value of a hexadecimal digit.
pub open spec fn digit_value(ch: char) -> Option<nat> {
    let c = ch as u32;
    if 48 <= c <= 57 {
        Some((c - 48) as nat)
    } else if 65 <= c <= 70 {
        Some((c - 55) as nat)
    } else if 97 <= c <= 102 {
        Some((c - 87) as nat)
    } else {
        None
    }
}

/// The number that the first `n` hexadecimal digits spell.
pub open spec fn hex_value(digits: Seq<char>, n: nat) -> Option<nat>
    decreases n,
{
    if n == 0 {
        Some(0)
    } else {
        match (hex_value(digits, (n - 1) as nat), digit_value(digits[n - 1])) {
            (Some(high), Some(low)) => Some(16 * high + low),
            _ => None,
        }
    }
}

/// The byte that hexadecimal digits spell: at least one of them, a plus sign
/// in front allowed.
pub open spec fn hex_byte(text: Seq<char>) -> Option<u8> {
    let digits = if text.len() > 0 && text[0] == '+' {
        text.skip(1)
    } else {
        text
    };
    match hex_value(digits, digits.len()) {
        Some(n) => if digits.len() > 0 && n <= 255 {
            Some(n as u8)
        } else {
            None
        },
        None => None,
    }
}

/// The byte that a token like `<0x0A>` stands for.
pub open spec fn byte_of_token(token: Seq<char>) -> Option<u8> {
    let n = token.len();
    if n >= 4 && token[0] == '<' && token[1] == '0' && token[2] == 'x' && token[n - 1] == '>' {
        hex_byte(token.subrange(3, n - 1))
    } else {
        None
    }
}

/// A text with spaces for their stand-ins.
pub open spec fn spaced(text: Seq<char>) -> Seq<char> {
    text.map_values(
        |ch: char|
            if ch == spm::SPACE {
                ' '
            } else {
                ch
            },
    )
}

/// The bytes of a token.
pub open spec fn piece_of(v: TokenizerView, id: u32) -> Seq<u8> {
    match v.token(id) {
        None => Seq::empty(),
        Some(token) => match v.kind {
            Kind::Bpe => meant_bytes(token),
            Kind::Spm => match byte_of_token(token) {
                Some(byte) => if v.kind_of(id) == TokenKind::Byte {
                    seq![byte]
                } else {
                    encode_utf8(spaced(token))
                },
                None => encode_utf8(spaced(token)),
            },
        },
    }
}

/// Whether nothing but control tokens stands before position `i`.
pub open spec fn leads(v: TokenizerView, ids: Seq<u32>, i: int) -> bool {
    forall|j: int| 0 <= j < i ==> v.kind_of(#[trigger] ids[j]) == TokenKind::Control
}

/// What the token at position `i` contributes: nothing if it is a control
/// token; without the dummy space if it is the first of a SentencePiece text
/// that is shown.
pub open spec fn shown_piece(v: TokenizerView, ids: Seq<u32>, i: int) -> Seq<u8> {
    let piece = piece_of(v, ids[i]);
    if v.kind_of(ids[i]) == TokenKind::Control {
        Seq::empty()
    } else if v.kind == Kind::Spm && leads(v, ids, i) && piece.len() > 0 && piece[0] == 0x20 {
        piece.skip(1)
    } else {
        piece
    }
}

/// The bytes of the first `n` tokens.
pub open spec fn shown_bytes(v: TokenizerView, ids: Seq<u32>, n: nat) -> Seq<u8>
    decreases n,
{
    if n == 0 {
        Seq::empty()
    } else {
        shown_bytes(v, ids, (n - 1) as nat) + shown_piece(v, ids, n - 1)
    }
}

fn parse_digit(ch: char) -> (value: Option<u16>)
    ensures
        match value {
            Some(d) => digit_value(ch) == Some(d as nat) && d < 16,
            None => digit_value(ch) is None,
        },
{
    let c: u32 = ch as u32;
    if 48 <= c && c <= 57 {
        Some((c - 48) as u16)
    } else if 65 <= c && c <= 70 {
        Some((c - 55) as u16)
    } else if 97 <= c && c <= 102 {
        Some((c - 87) as u16)
    } else {
        None
    }
}

proof fn lemma_hex_grows(digits: Seq<char>, k: nat, n: nat)
    requires
        k <= n <= digits.len(),
        hex_value(digits, k) matches Some(v) ==> v > 255,
    ensures
        hex_value(digits, n) matches Some(v) ==> v > 255,
    decreases n,
{
    if k < n {
        lemma_hex_grows(digits, k, (n - 1) as nat);
    }
}

fn parse_byte(chars: &[char], from: usize, to: usize) -> (byte: Option<u8>)
    requires
        from <= to <= chars@.len(),
    ensures
        byte == hex_byte(chars@.subrange(from as int, to as int)),
{
    let ghost text = chars@.subrange(from as int, to as int);
    let start: usize = if from < to && chars[from] == '+' { from + 1 } else { from };
    let ghost digits = chars@.subrange(start as int, to as int);
    proof {
        if start > from {
            assert(text.skip(1) =~= digits);
        }
    }
    if start == to {
        return None;
    }
    let mut value: u16 = 0;
    let mut i: usize = start;
    while i < to
        invariant
            start <= i <= to <= chars@.len(),
            digits == chars@.subrange(start as int, to as int),
            hex_value(digits, (i - start) as nat) == Some(value as nat),
            value <= 255,
            text == chars@.subrange(from as int, to as int),
            digits == (if text.len() > 0 && text[0] == '+' { text.skip(1) } else { text }),
        decreases to - i,
    {
        assert(digits[i - start] == chars@[i as int]);
        match parse_digit(chars[i]) {
            None => {
                proof {
                    lemma_hex_grows(digits, (i - start + 1) as nat, digits.len());
                }
                return None;
            },
            Some(d) => {
                value = 16 * value + d;
                if value > 255 {
                    proof {
                        lemma_hex_grows(digits, (i - start + 1) as nat, digits.len());
                    }
                    return None;
                }
            },
        }
        i += 1;
    }
    Some(value as u8)
}

fn token_byte(token: &str) -> (byte: Option<u8>)
    ensures
        byte == byte_of_token(token@),
{
    let chars = text::to_chars(token);
    let n: usize = chars.len();
    if n >= 4 && chars[0] == '<' && chars[1] == '0' && chars[2] == 'x' && chars[n - 1] == '>' {
        parse_byte(chars.as_slice(), 3, n - 1)
    } else {
        None
    }
}

fn with_spaces(token: &str) -> (out: String)
    ensures
        out@ == spaced(token@),
{
    let chars = text::to_chars(token);
    let mut out = String::new();
    let mut i: usize = 0;
    while i < chars.len()
        invariant
            chars@ == token@,
            i <= chars@.len(),
            out@ == spaced(token@.take(i as int)),
        decreases chars@.len() - i,
    {
        out.push(if chars[i] == spm::SPACE { ' ' } else { chars[i] });
        proof {
            assert(out@ =~= spaced(token@.take(i + 1)));
        }
        i += 1;
    }
    proof {
        assert(token@.take(i as int) =~= token@);
    }
    out
}

impl Tokenizer {
    /// Raw bytes for one token. Not necessarily valid UTF-8 on its own: a
    /// multi-byte character can be split across tokens, which is exactly why
    /// streaming output has to accumulate bytes rather than decode per token.
    pub fn piece(&self, id: u32) -> (bytes: Vec<u8>)
        ensures
            bytes@ == piece_of(self@, id),
    {
        let token = match self.token(id) {
            Some(token) => token,
            None => return Vec::new(),
        };
        match self.kind {
            Kind::Bpe => bytes::decode_str(token),
            Kind::Spm => {
                if self.kind_of(id) == TokenKind::Byte {
                    if let Some(byte) = token_byte(token) {
                        let mut one: Vec<u8> = Vec::new();
                        one.push(byte);
                        proof {
                            assert(one@ =~= seq![byte]);
                        }
                        return one;
                    }
                }
                vstd::slice::slice_to_vec(with_spaces(token).as_str().as_bytes())
            },
        }
    }

    /// Ids back to text. Control tokens are dropped rather than printed.
    pub fn decode(&self, ids: &[u32]) -> (out: String)
        ensures
            ({
                let bytes = shown_bytes(self@, ids@, ids@.len());
                &&& out@ == text::utf8_lossy(bytes)
                &&& valid_utf8(bytes) ==> out@ == decode_utf8(bytes)
            }),
    {
        text::from_utf8_lossy(self.decode_bytes(ids).as_slice())
    }

    /// Ids back to the bytes of the text.
    pub fn decode_bytes(&self, ids: &[u32]) -> (out: Vec<u8>)
        ensures
            out@ == shown_bytes(self@, ids@, ids@.len()),
    {
        let mut out: Vec<u8> = Vec::new();
        let mut first: bool = true;
        let mut i: usize = 0;
        while i < ids.len()
            invariant
                i <= ids@.len(),
                first == leads(self@, ids@, i as int),
                out@ == shown_bytes(self@, ids@, i as nat),
            decreases ids@.len() - i,
        {
            let ghost before = out@;
            if self.kind_of(ids[i]) != TokenKind::Control {
                let piece = self.piece(ids[i]);
                // SentencePiece encodes with a dummy space in front of the
                // text; decoding has to take it back off.
                let skip: usize = if first && self.kind == Kind::Spm && piece.len() > 0 && piece[0] == 0x20 {
                    1
                } else {
                    0
                };
                let rest = vstd::slice::slice_subrange(piece.as_slice(), skip, piece.len());
                out.extend_from_slice(rest);
                first = false;
                proof {
                    assert(rest@ =~= shown_piece(self@, ids@, i as int));
                    assert(out@ =~= before + rest@);
                    assert(self@.kind_of(ids@[i as int]) != TokenKind::Control);
                }
            } else {
                assert(out@ =~= before + shown_piece(self@, ids@, i as int));
            }
            i += 1;
        }
        out
    }
}

} // verus!
