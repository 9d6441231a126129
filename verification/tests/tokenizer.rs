//! Tokenizer tests against hand-built vocabularies.
//!
//! Each test builds a small GGUF carrying its own vocab, so the exact expected
//! token ids are known rather than guessed at.

use ferrite::gguf::{Gguf, Value};
use ferrite::synth::Builder;
use ferrite::tokenizer::bpe::{apply_merges, classify, load_merges, pretokenize, split, Class};
use ferrite::tokenizer::bytes::{decode_char, decode_str, encode_byte, encode_str};
use ferrite::tokenizer::heap::{Candidate, Heap};
use ferrite::tokenizer::ids::Ids;
use ferrite::tokenizer::spm::normalize;
use ferrite::tokenizer::{Kind, TokenKind, Tokenizer};

const NORMAL: i32 = 1;
const UNKNOWN: i32 = 2;
const CONTROL: i32 = 3;
const USER_DEFINED: i32 = 4;
const BYTE: i32 = 6;

fn strings(items: &[&str]) -> Value {
    Value::Array(items.iter().map(|s| Value::String((*s).into())).collect())
}

fn ints(items: &[i32]) -> Value {
    Value::Array(items.iter().map(|v| Value::I32(*v)).collect())
}

fn floats(items: &[f32]) -> Value {
    Value::Array(items.iter().map(|v| Value::F32(v.to_bits())).collect())
}

/// Byte-level BPE vocab that can build exactly "hello" and " world".
fn bpe_fixture(add_bos: bool) -> Builder {
    let tokens = [
        "<s>",
        "</s>",
        "<|special|>",
        "h",
        "e",
        "l",
        "o",
        "\u{0120}", // the stored form of a space
        "w",
        "r",
        "d",
        "ll",
        "he",
        "hell",
        "hello",
        "\u{0120}w",
        "or",
        "\u{0120}wor",
        "\u{0120}worl",
        "\u{0120}world",
    ];
    let mut types = vec![NORMAL; tokens.len()];
    types[0] = CONTROL;
    types[1] = CONTROL;
    types[2] = USER_DEFINED;

    Builder::new()
        .meta("general.architecture", Value::String("llama".into()))
        .meta("tokenizer.ggml.model", Value::String("gpt2".into()))
        .meta("tokenizer.ggml.tokens", strings(&tokens))
        .meta("tokenizer.ggml.token_type", ints(&types))
        .meta(
            "tokenizer.ggml.merges",
            strings(&[
                "l l",
                "h e",
                "he ll",
                "hell o",
                "\u{0120} w",
                "o r",
                "\u{0120}w or",
                "\u{0120}wor l",
                "\u{0120}worl d",
            ]),
        )
        .meta("tokenizer.ggml.bos_token_id", Value::U32(0))
        .meta("tokenizer.ggml.eos_token_id", Value::U32(1))
        .meta(
            "tokenizer.ggml.add_bos_token",
            Value::Bool(add_bos),
        )
}

/// SentencePiece vocab. Every intermediate prefix has to exist for the merge
/// chain to reach the whole word, which is how these vocabs really look.
fn spm_fixture() -> Builder {
    let tokens = [
        "<unk>",
        "<s>",
        "</s>",
        "\u{2581}",
        "h",
        "e",
        "l",
        "o",
        "w",
        "r",
        "d",
        "\u{2581}h",
        "\u{2581}he",
        "\u{2581}hel",
        "\u{2581}hell",
        "\u{2581}hello",
        "\u{2581}w",
        "\u{2581}wo",
        "\u{2581}wor",
        "\u{2581}worl",
        "\u{2581}world",
        "<0x5A>",
    ];
    let mut types = vec![NORMAL; tokens.len()];
    types[0] = UNKNOWN;
    types[1] = CONTROL;
    types[2] = CONTROL;
    types[21] = BYTE;
    // Longer pieces score higher, as in a real unigram vocab.
    let scores: Vec<f32> = tokens.iter().map(|t| t.chars().count() as f32).collect();

    Builder::new()
        .meta("general.architecture", Value::String("llama".into()))
        .meta("tokenizer.ggml.model", Value::String("llama".into()))
        .meta("tokenizer.ggml.tokens", strings(&tokens))
        .meta("tokenizer.ggml.token_type", ints(&types))
        .meta("tokenizer.ggml.scores", floats(&scores))
        .meta("tokenizer.ggml.unknown_token_id", Value::U32(0))
        .meta("tokenizer.ggml.bos_token_id", Value::U32(1))
        .meta("tokenizer.ggml.eos_token_id", Value::U32(2))
}

fn load(builder: &Builder) -> Tokenizer {
    let bytes = builder.build();
    let model = Gguf::open(&bytes).expect("open fixture");
    Tokenizer::from_gguf(&model).expect("load tokenizer")
}

/// What loading the tokenizer fails with.
fn reject(builder: &Builder) -> String {
    let bytes = builder.build();
    let model = Gguf::open(&bytes).expect("open");
    match Tokenizer::from_gguf(&model) {
        Ok(_) => panic!("must reject"),
        Err(e) => e.message().to_string(),
    }
}

#[test]
fn bpe_merges_to_the_longest_tokens() {
    let tok = load(&bpe_fixture(false));

    assert_eq!(tok.kind, Kind::Bpe);
    assert_eq!(tok.vocab_size(), 20);
    assert!(!tok.add_bos, "gpt2 vocabs do not add BOS unless asked");

    let ids = tok.encode("hello world", true);
    assert_eq!(
        ids,
        vec![tok.id("hello").unwrap(), tok.id("\u{0120}world").unwrap()],
        "got {:?}",
        ids.iter().map(|i| tok.token(*i)).collect::<Vec<_>>()
    );
    assert_eq!(tok.decode(&ids), "hello world");
}

#[test]
fn bpe_honours_the_files_bos_policy() {
    let tok = load(&bpe_fixture(true));

    assert!(tok.add_bos);
    let ids = tok.encode("hello", true);
    assert_eq!(ids.first(), Some(&0), "BOS should lead");
    // add_special: false must not prepend it.
    assert_eq!(tok.encode("hello", false), vec![tok.id("hello").unwrap()]);
    // BOS is a control token, so it must not show up in decoded text.
    assert_eq!(tok.decode(&ids), "hello");
}

#[test]
fn special_tokens_are_matched_literally() {
    let tok = load(&bpe_fixture(false));

    let ids = tok.encode("hello<|special|> world", false);
    assert_eq!(
        ids,
        vec![
            tok.id("hello").unwrap(),
            tok.id("<|special|>").unwrap(),
            tok.id("\u{0120}world").unwrap()
        ]
    );
}

#[test]
fn bpe_without_merges_is_rejected() {
    let builder = Builder::new()
        .meta("tokenizer.ggml.model", Value::String("gpt2".into()))
        .meta("tokenizer.ggml.tokens", strings(&["a", "b"]));
    let err = reject(&builder);
    assert!(err.contains("merges"), "{err}");
}

#[test]
fn spm_merges_by_score() {
    let tok = load(&spm_fixture());

    assert_eq!(tok.kind, Kind::Spm);
    assert!(tok.add_bos, "SentencePiece models prepend BOS by default");

    let ids = tok.encode("hello world", false);
    assert_eq!(
        ids,
        vec![
            tok.id("\u{2581}hello").unwrap(),
            tok.id("\u{2581}world").unwrap()
        ],
        "got {:?}",
        ids.iter().map(|i| tok.token(*i)).collect::<Vec<_>>()
    );
    // The dummy prefix space must not survive decoding.
    assert_eq!(tok.decode(&ids), "hello world");

    let with_bos = tok.encode("hello world", true);
    assert_eq!(with_bos.first(), Some(&1));
}

#[test]
fn spm_falls_back_to_byte_tokens() {
    let tok = load(&spm_fixture());

    // "Z" is not in the vocab, but <0x5A> is. The leading U+2581 is the dummy
    // prefix: "Z" normalizes to "_Z", and since "_Z" is not a token either, the
    // prefix stays a token of its own.
    let ids = tok.encode("Z", false);
    assert_eq!(
        ids,
        vec![tok.id("\u{2581}").unwrap(), tok.id("<0x5A>").unwrap()]
    );
    assert_eq!(tok.decode(&ids), "Z", "the dummy prefix must not survive");

    // No byte token for "Q", so it must land on <unk> rather than vanish.
    let ids = tok.encode("Q", false);
    assert_eq!(ids, vec![tok.id("\u{2581}").unwrap(), 0]);
}

#[test]
fn space_is_g_with_dot_above() {
    // The single most recognizable fact about these vocabs.
    assert_eq!(encode_byte(b' '), '\u{0120}');
    assert_eq!(decode_char('\u{0120}'), Some(b' '));
    assert_eq!(encode_str(" hello"), "\u{0120}hello");
}

#[test]
fn every_byte_round_trips_and_is_unique() {
    let mut seen = std::collections::HashSet::new();
    for byte in 0..=255u8 {
        let ch = encode_byte(byte);
        assert!(seen.insert(ch), "byte {byte} collides on {ch:?}");
        assert_eq!(decode_char(ch), Some(byte));
    }
}

#[test]
fn utf8_survives_the_round_trip() {
    for text in ["héllo", "日本語", "a\nb\tc", "🦀"] {
        assert_eq!(decode_str(&encode_str(text)), text.as_bytes());
    }
}

#[test]
fn characters_outside_the_byte_alphabet_decode_to_themselves() {
    assert_eq!(decode_char('日'), None);
    assert_eq!(decode_str("日"), "日".as_bytes());
    // Printable bytes stand for themselves, the others move up.
    assert_eq!(encode_byte(b'!'), '!');
    assert_eq!(encode_byte(0), '\u{0100}');
    assert_eq!(encode_byte(0xAD), '\u{0143}');
}

#[test]
fn leading_space_attaches_to_the_word() {
    assert_eq!(pretokenize("hello world"), vec!["hello", " world"]);
    assert_eq!(pretokenize(" hi"), vec![" hi"]);
}

#[test]
fn classes_split_apart() {
    assert_eq!(pretokenize("abc123!?"), vec!["abc", "123", "!?"]);
    assert_eq!(pretokenize("x = 42;"), vec!["x", " =", " 42", ";"]);
}

#[test]
fn whitespace_runs_keep_all_but_the_last() {
    assert_eq!(pretokenize("a   b"), vec!["a", "  ", " b"]);
    // Trailing whitespace has no word to attach to, so it stands alone.
    assert_eq!(pretokenize("a  "), vec!["a", "  "]);
    assert_eq!(pretokenize("\n\nx"), vec!["\n", "\nx"]);
}

#[test]
fn contractions_split_off() {
    assert_eq!(pretokenize("don't"), vec!["don", "'t"]);
    assert_eq!(pretokenize("I'll go"), vec!["I", "'ll", " go"]);
}

#[test]
fn pretokens_partition_the_input() {
    // The property that matters: nothing is lost or duplicated, so
    // decode(encode(x)) can round-trip.
    for text in ["hello world", "a   b", "don't stop", "日本 語", "x=1;\n\ty"] {
        assert_eq!(pretokenize(text).concat(), text, "lost bytes in {text:?}");
    }
}

#[test]
fn merges_apply_by_rank() {
    let mut ids = Ids::new();
    for (i, t) in ["a", "b", "c", "ab", "bc", "abc"].iter().enumerate() {
        ids.insert(t.to_string(), i as u32);
    }
    // "b c" is listed first, so it outranks "a b".
    let merges = load_merges(&["b c", "a b", "ab c"], &ids);

    let mut symbols = vec![0, 1, 2]; // a b c
    apply_merges(&merges, &mut symbols);
    // bc wins first -> [a, bc]; no merge exists for (a, bc), so it stops.
    assert_eq!(symbols, vec![0, 4]);

    let merges = load_merges(&["a b", "ab c"], &ids);
    let mut symbols = vec![0, 1, 2];
    apply_merges(&merges, &mut symbols);
    assert_eq!(symbols, vec![5], "should collapse to abc");
}

#[test]
fn merges_with_unknown_parts_are_skipped() {
    let mut ids = Ids::new();
    for (i, t) in ["a", "b", "ab"].iter().enumerate() {
        ids.insert(t.to_string(), i as u32);
    }
    let merges = load_merges(&["a x", "nospace", "b a", "a b"], &ids);
    assert_eq!(merges.len(), 1);
    let mut symbols = vec![0, 1, 0, 1, 1];
    apply_merges(&merges, &mut symbols);
    assert_eq!(symbols, vec![2, 2, 1]);
}

#[test]
fn normalize_adds_prefix_and_replaces_spaces() {
    assert_eq!(normalize("a b"), "\u{2581}a\u{2581}b");
    assert_eq!(normalize(""), "\u{2581}");
}

#[test]
fn candidate_order_prefers_high_score_then_left() {
    let mut heap = Heap::new();
    heap.push(Candidate { left: 5, right: 6, score: 1.0f32.to_bits(), size: 2 });
    heap.push(Candidate { left: 0, right: 1, score: 9.0f32.to_bits(), size: 2 });
    heap.push(Candidate { left: 2, right: 3, score: 9.0f32.to_bits(), size: 2 });
    assert_eq!(heap.pop().unwrap().left, 0, "highest score, leftmost");
    assert_eq!(heap.pop().unwrap().left, 2);
    assert_eq!(heap.pop().unwrap().left, 5);
    assert!(heap.pop().is_none());
}

#[test]
fn both_kinds_give_back_what_they_were_given() {
    let bpe = load(&bpe_fixture(false));
    for text in ["hello world", "hell", "world hello", "hehe  ll"] {
        assert_eq!(bpe.decode(&bpe.encode(text, false)), text);
    }
    let spm = load(&spm_fixture());
    for text in ["hello world", "hell", "world  hello", "Z"] {
        assert_eq!(spm.decode(&spm.encode(text, false)), text);
    }
}

#[test]
fn the_vocabulary_answers_by_id() {
    let tok = load(&spm_fixture());
    assert_eq!(tok.token(4), Some("h"));
    assert_eq!(tok.token(99), None);
    assert_eq!(tok.id("nope"), None);
    assert_eq!(tok.kind_of(1), TokenKind::Control);
    assert_eq!(tok.kind_of(21), TokenKind::Byte);
    assert_eq!(tok.kind_of(99), TokenKind::Normal);
    assert!(TokenKind::Control.is_special());
    assert!(!TokenKind::Byte.is_special());
    assert_eq!(f32::from_bits(tok.score(15)), 6.0);
    assert_eq!(f32::from_bits(tok.score(99)), 0.0);
    assert_eq!(tok.byte_id(0x5A), Some(21));
    assert_eq!(tok.byte_id(0x5B), None);
    assert_eq!(tok.merge_count(), 0);
    assert_eq!(tok.unknown_id(), Some(0));
    assert_eq!(tok.piece(21), vec![0x5A]);
    assert_eq!(tok.piece(15), b" hello".to_vec());
    let bpe = load(&bpe_fixture(false));
    assert_eq!(bpe.merge_count(), 9);
    assert_eq!(bpe.piece(19), b" world".to_vec());
}

#[test]
fn broken_text_decodes_with_replacement_characters() {
    let tokens = ["<unk>", "<0xFF>", "a"];
    let tok = load(
        &Builder::new()
            .meta("tokenizer.ggml.model", Value::String("llama".into()))
            .meta("tokenizer.ggml.tokens", strings(&tokens))
            .meta("tokenizer.ggml.token_type", ints(&[UNKNOWN, BYTE, NORMAL])),
    );
    assert_eq!(tok.decode(&[1, 2]), "\u{FFFD}a");
}

#[test]
fn missing_and_unknown_tokenizers_are_rejected() {
    let none = Builder::new();
    assert!(reject(&none).contains("tokenizer.ggml.model"), "{}", reject(&none));
    let odd = Builder::new().meta("tokenizer.ggml.model", Value::String("rwkv".into()));
    assert!(reject(&odd).contains("rwkv"), "{}", reject(&odd));
    let empty = Builder::new().meta("tokenizer.ggml.model", Value::String("llama".into()));
    assert!(reject(&empty).contains("tokens"), "{}", reject(&empty));
}

#[test]
fn splitting_goes_by_the_marks() {
    assert_eq!(
        classify("a 1!"),
        vec![Class::Letter, Class::Space, Class::Digit, Class::Other]
    );
    // A wide space is a space, an ideograph is a letter.
    assert_eq!(classify("\u{3000}日"), vec![Class::Space, Class::Letter]);
    let marks = [Class::Letter, Class::Space, Class::Letter, Class::Digit];
    assert_eq!(split("abcd", &marks), vec!["a", "bc", "d"]);
}

#[test]
fn chunks_are_merged_on_their_own() {
    let tok = load(&bpe_fixture(false));
    let ids = tok.encode_chunks(&["hel".to_string(), "lo".to_string()]);
    let names: Vec<&str> = ids.iter().map(|id| tok.token(*id).unwrap()).collect();
    assert_eq!(names, vec!["he", "l", "l", "o"]);
    assert_eq!(tok.decode_bytes(&ids), b"hello".to_vec());
}

#[test]
fn marks_and_specials_survive_as_they_should() {
    let tok = load(&bpe_fixture(true));
    let ids = tok.encode("hello<|special|> world", true);
    assert_eq!(ids.first(), Some(&0));
    // The mark is a control token and goes, the special token stays.
    assert_eq!(tok.decode(&ids), "hello<|special|> world");
}

#[test]
fn the_dummy_prefix_goes_behind_a_mark_too() {
    let tok = load(&spm_fixture());
    let ids = tok.encode("hello world", true);
    assert_eq!(ids, vec![1, 15, 20]);
    assert_eq!(tok.decode(&ids), "hello world");
    // Only one space goes, and only from what is shown first.
    assert_eq!(tok.decode(&[1, 3, 15]), " hello");
    assert_eq!(tok.decode(&[4, 1, 15]), "h hello");
    assert_eq!(tok.decode_bytes(&[1, 2]), Vec::<u8>::new());
}

#[test]
fn nothing_is_left_to_merge() {
    let tok = load(&spm_fixture());
    for text in ["hello", "world hello", "helloworld", "ho wo"] {
        let ids = tok.encode(text, false);
        let tokens: Vec<&str> = ids.iter().map(|id| tok.token(*id).unwrap()).collect();
        assert_eq!(tokens.concat(), normalize(text));
        for pair in tokens.windows(2) {
            assert_eq!(tok.id(&pair.concat()), None, "{pair:?}");
        }
    }
}

#[test]
fn the_marks_can_be_asked_for() {
    let tok = load(&spm_fixture());
    assert_eq!(tok.kind(), Kind::Spm);
    assert_eq!((tok.bos(), tok.eos()), (Some(1), Some(2)));
    assert_eq!((tok.add_bos(), tok.add_eos()), (true, false));
}
