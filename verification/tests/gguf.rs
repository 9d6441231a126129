//! Round-trip and rejection tests for the GGUF parser.
//!
//! Everything here builds its own bytes, so the suite needs no model download
//! and no network.

use ferrite::error::{Error, ErrorKind};
use ferrite::gguf::{align_up, GgmlType, Gguf, Piece, Value};
use ferrite::report::{self, Cell, Scale, Unit};
use ferrite::synth::Builder;
use ferrite::Mmap;

/// A recognizable pattern, to catch an off-by-one in the data offset.
fn pattern(len: usize) -> Vec<u8> {
    (0..len).map(|i| (i % 251) as u8).collect()
}

fn fixture() -> Builder {
    Builder::new()
        .meta("general.architecture", Value::String("llama".into()))
        .meta("general.name", Value::String("test".into()))
        .meta("llama.block_count", Value::U32(2))
        .meta("llama.embedding_length", Value::U32(256))
        .meta("llama.rope.freq_base", Value::F32(10000.0f32.to_bits()))
        .meta("answer", Value::I64(-42))
        .meta(
            "tokenizer.ggml.tokens",
            Value::Array(vec![Value::String("<s>".into()), Value::String("hello".into())]),
        )
        .tensor("token_embd.weight", &[256, 4], GgmlType::F32, pattern(256 * 4 * 4))
        .tensor("blk.0.attn_q.weight", &[256, 256], GgmlType::Q4_K, pattern(256 * 256 / 256 * 144))
}

fn refused(bytes: &[u8]) -> Error {
    match Gguf::open(bytes) {
        Ok(_) => panic!("must reject"),
        Err(e) => e,
    }
}

#[test]
fn alignment_rounds_up() {
    assert_eq!(align_up(0, 32), Some(0));
    assert_eq!(align_up(1, 32), Some(32));
    assert_eq!(align_up(32, 32), Some(32));
    assert_eq!(align_up(33, 32), Some(64));
    assert_eq!(align_up(u64::MAX, 32), None);
}

#[test]
fn q4k_block_layout() {
    // 256 elements per 144-byte super-block: the ratio that makes a 1B model
    // ~700 MB instead of 4 GB.
    assert_eq!(GgmlType::Q4_K.layout(), Some((256, 144)));
    assert_eq!(GgmlType::from_id(12), GgmlType::Q4_K);
    assert_eq!(GgmlType::from_id(999), GgmlType::Other(999));
    assert_eq!(GgmlType::Other(999).layout(), None);
}

#[test]
fn value_widening() {
    assert_eq!(Value::U32(7).as_u64(), Some(7));
    assert_eq!(Value::I32(-1).as_u64(), None);
    assert_eq!(Value::String("x".into()).as_u64(), None);
}

#[test]
fn round_trips_metadata_and_tensors() {
    let bytes = fixture().build();
    let model = Gguf::open(&bytes).expect("open");

    assert_eq!(model.version, 3);
    assert_eq!(model.arch(), Some("llama"));
    assert_eq!(model.meta_str("general.name"), Some("test"));
    assert_eq!(model.arch_u64("block_count"), Some(2));
    assert_eq!(model.arch_f32("rope.freq_base").map(f32::from_bits), Some(10000.0));
    // Signed values must not silently widen into a u64.
    assert_eq!(model.meta_u64("answer"), None);
    assert_eq!(model.get("answer"), Some(&Value::I64(-42)));
    assert_eq!(
        model.get("tokenizer.ggml.tokens").unwrap().as_strings(),
        Some(vec!["<s>", "hello"])
    );

    assert_eq!(model.tensors.len(), 2);
    assert_eq!(model.data_offset % model.alignment, 0);

    let embd = model.tensor("token_embd.weight").expect("tensor present");
    assert_eq!(embd.dims, vec![256, 4]);
    assert_eq!(embd.elements(), 1024);
    assert_eq!(embd.byte_len, Some(4096));
    assert_eq!(embd.shape(), "256x4");

    // The bytes, exactly, at the right offset.
    assert_eq!(model.tensor_bytes(embd).unwrap(), pattern(4096).as_slice());

    let q = model.tensor("blk.0.attn_q.weight").expect("tensor present");
    assert_eq!(q.ty, GgmlType::Q4_K);
    assert_eq!(q.byte_len, Some(256 * 256 / 256 * 144));
    assert_eq!(model.tensor_bytes(q).unwrap(), pattern(256 * 256 / 256 * 144).as_slice());

    assert!(model.tensor("nope").is_none());

    let hist = model.quant_histogram();
    assert_eq!(hist.len(), 2);
    // Sorted by bytes descending: Q4_K's 36 KB beats F32's 4 KB.
    assert_eq!(hist[0].0, GgmlType::Q4_K);
    assert_eq!(hist, vec![(GgmlType::Q4_K, 1, 36864), (GgmlType::F32, 1, 4096)]);
}

#[test]
fn rejects_bad_magic() {
    let mut bytes = fixture().build();
    bytes[0..4].copy_from_slice(b"XXXX");
    let err = refused(&bytes);
    assert!(err.message().contains("bad magic"), "{}", err.message());
}

#[test]
fn rejects_unsupported_version() {
    let mut bytes = fixture().build();
    bytes[4..8].copy_from_slice(&1u32.to_le_bytes());
    let err = refused(&bytes);
    assert!(err.message().contains("version 1"), "{}", err.message());
}

#[test]
fn rejects_truncated_file() {
    // The common real-world corruption: an interrupted download. The header is
    // intact and the tensor table promises data that is not there.
    let full = fixture().build();
    let err = refused(&full[..full.len() - 1024]);
    assert!(
        err.message().contains("past end of file"),
        "expected a truncation error, got: {}",
        err.message()
    );
}

#[test]
fn rejects_empty_file() {
    let err = refused(b"");
    assert!(err.message().contains("empty"), "{}", err.message());
}

#[test]
fn rejects_absurd_metadata_count() {
    // A corrupt count must not make the parser allocate until the OOM killer
    // arrives; it should hit end-of-file instead.
    let mut bytes = fixture().build();
    bytes[16..24].copy_from_slice(&u64::MAX.to_le_bytes());
    let err = refused(&bytes);
    assert_eq!(err.kind(), ErrorKind::InvalidData, "{}", err.message());
}

#[test]
fn an_empty_mapping_is_refused_and_any_other_is_kept() {
    assert!(Mmap::open(&[]).is_err());
    let map = Mmap::open(&[1, 2, 3]).expect("not empty");
    assert_eq!(map.len(), 3);
    assert!(!map.is_empty());
    assert_eq!(map.as_slice(), &[1, 2, 3]);
}

#[test]
fn every_metadata_type_survives_the_file() {
    let values = [
        Value::U8(200),
        Value::I8(-100),
        Value::U16(60000),
        Value::I16(-30000),
        Value::U32(4_000_000_000),
        Value::I32(-2_000_000_000),
        Value::F32(1.5f32.to_bits()),
        Value::Bool(true),
        Value::Bool(false),
        Value::String("h\u{e9}llo".into()),
        Value::Array(vec![Value::I16(-1), Value::I16(2)]),
        Value::U64(u64::MAX),
        Value::I64(i64::MIN),
        Value::F64((-2.25f64).to_bits()),
    ];
    let ids = [0, 1, 2, 3, 4, 5, 6, 7, 7, 8, 9, 10, 11, 12];
    for (value, id) in values.iter().zip(ids) {
        assert_eq!(value.type_id(), id);
    }
    let mut builder = Builder::new();
    for (i, value) in values.into_iter().enumerate() {
        builder = builder.meta(&format!("key{i}"), value);
    }
    let bytes = builder.build();
    let model = Gguf::open(&bytes).expect("open");
    assert_eq!(model.get("key0"), Some(&Value::U8(200)));
    assert_eq!(model.get("key1"), Some(&Value::I8(-100)));
    assert_eq!(model.get("key3"), Some(&Value::I16(-30000)));
    assert_eq!(model.get("key5"), Some(&Value::I32(-2_000_000_000)));
    assert_eq!(model.get("key7"), Some(&Value::Bool(true)));
    assert_eq!(model.get("key9"), Some(&Value::String("h\u{e9}llo".into())));
    assert_eq!(model.get("key10"), Some(&Value::Array(vec![Value::I16(-1), Value::I16(2)])));
    assert_eq!(model.get("key11"), Some(&Value::U64(u64::MAX)));
    assert_eq!(model.get("key12"), Some(&Value::I64(i64::MIN)));
    assert_eq!(model.meta_f32("key13").map(f32::from_bits), Some(-2.25));
    assert_eq!(model.meta_u64("key2"), Some(60000));
    assert!(model.get("key14").is_none());
}

#[test]
fn a_later_value_replaces_an_earlier_one() {
    let bytes = Builder::new().meta("k", Value::U8(1)).meta("k", Value::U8(2)).build();
    let model = Gguf::open(&bytes).expect("open");
    assert_eq!(model.get("k"), Some(&Value::U8(2)));
}

#[test]
fn bad_alignments_are_refused() {
    for (value, text) in [(0u32, "0"), (3, "3"), (48, "48")] {
        let bytes = Builder::new().meta("general.alignment", Value::U32(value)).build();
        let err = refused(&bytes);
        assert_eq!(err.kind(), ErrorKind::InvalidData);
        assert!(err.message().contains(text), "{}", err.message());
    }
}

#[test]
fn duplicate_tensor_names_are_refused() {
    let bytes = Builder::new()
        .tensor("a", &[1], GgmlType::F32, vec![0; 4])
        .tensor("a", &[1], GgmlType::F32, vec![0; 4])
        .build();
    assert!(refused(&bytes).message().contains("a"));
}

#[test]
fn rounding_to_f32_is_to_nearest() {
    // 16777217 lies between two floats and rounds to the even one.
    assert_eq!(Value::U64(16_777_217).as_f32().map(f32::from_bits), Some(16_777_216.0));
    assert_eq!(Value::U64(u64::MAX).as_f32().map(f32::from_bits), Some(u64::MAX as f32));
    for v in [0.1f64, 1e-45, 7e-46, 3.4028236e38, -1e300, 1.0 + 1e-9] {
        assert_eq!(Value::F64(v.to_bits()).as_f32(), Some((v as f32).to_bits()), "{v}");
    }
    assert_eq!(Value::Bool(true).as_f32().map(f32::from_bits), Some(1.0));
    assert_eq!(Value::String("1".into()).as_f32(), None);
    assert!(Value::F64(f64::NAN.to_bits()).as_f32().map(f32::from_bits).unwrap().is_nan());
    let list = Value::Array(vec![Value::F32(1.5f32.to_bits()), Value::U8(3)]);
    assert_eq!(list.as_f32s(), Some(vec![1.5f32.to_bits(), 3.0f32.to_bits()]));
}

#[test]
fn values_are_shown_in_pieces() {
    let text = |v: Value| -> String {
        v.display()
            .into_iter()
            .map(|p| match p {
                Piece::Text(s) => s,
                Piece::F32(b) => f32::from_bits(b).to_string(),
                Piece::F64(b) => f64::from_bits(b).to_string(),
            })
            .collect()
    };
    assert_eq!(text(Value::I8(-5)), "-5");
    assert_eq!(text(Value::Bool(true)), "true");
    assert_eq!(text(Value::String("a\"b".into())), "a\"b");
    let long = "x".repeat(121);
    assert_eq!(text(Value::String(long)), "x".repeat(117) + "...");
    let list = |n: u8| Value::Array((0..n).map(Value::U8).collect());
    assert_eq!(text(list(0)), "[]");
    assert_eq!(text(list(3)), "[0, 1, 2]");
    assert_eq!(text(list(9)), "[0, 1, 2, 3, 4, 5, ... 9 total]");
    assert_eq!(text(Value::F32(1.5f32.to_bits())), "1.5");
}

#[test]
fn unsized_tensors_have_no_bytes() {
    let bytes = Builder::new().tensor("t", &[32], GgmlType::Q8_0, vec![0; 34]).build();
    // Patch the type to one nobody knows: the id sits behind the name, the
    // dimension count and the dimension.
    let mut patched = bytes.clone();
    let at = 24 + 8 + 1 + 4 + 8;
    patched[at..at + 4].copy_from_slice(&999u32.to_le_bytes());
    let model = Gguf::open(&patched).expect("open");
    let t = model.tensor("t").expect("there");
    assert_eq!(t.byte_len, None);
    let err = model.tensor_bytes(t).expect_err("no bytes");
    assert!(err.message().contains("unsupported type"), "{}", err.message());
    assert_eq!(model.quant_histogram(), vec![(GgmlType::Other(999), 1, 0)]);
}

#[test]
fn units_change_at_powers_of_1024() {
    assert_eq!(report::human(1023), Unit::B);
    assert_eq!(report::human(1024), Unit::KB);
    assert_eq!(report::human(1024 * 1024 - 1), Unit::KB);
    assert_eq!(report::human(1024 * 1024), Unit::MB);
    assert_eq!(report::human(1 << 30), Unit::GB);
    assert_eq!(report::human(1 << 40), Unit::TB);
    assert_eq!(report::human(u64::MAX), Unit::TB);
    assert_eq!(report::si(999), Scale::Ones);
    assert_eq!(report::si(1_000), Scale::Thousands);
    assert_eq!(report::si(1_000_000), Scale::Millions);
    assert_eq!(report::si(1_000_000_000), Scale::Billions);
}

#[test]
fn info_lists_what_the_file_says() {
    let bytes = fixture()
        .meta("tokenizer.ggml.model", Value::String("gpt2".into()))
        .meta("tokenizer.ggml.bos_token_id", Value::U32(0))
        .meta("tokenizer.ggml.eos_token_id", Value::U32(9))
        .build();
    let model = Gguf::open(&bytes).expect("open");
    assert_eq!(report::parameters(&model), 1024 + 65536);
    let lines: Vec<(String, String)> = report::info(&model)
        .into_iter()
        .map(|l| {
            let cell = match l.cell {
                Cell::Text(s) => s,
                Cell::Size(n) => format!("{n} bytes"),
                Cell::Amount(n) => format!("{n}"),
                Cell::Real(b) => format!("{}", f32::from_bits(b)),
            };
            (l.label, cell)
        })
        .collect();
    let expected = [
        ("size", format!("{} bytes", bytes.len())),
        ("gguf", "v3".to_string()),
        ("name", "test".to_string()),
        ("arch", "llama".to_string()),
        ("parameters", "66560".to_string()),
        ("layers", "2".to_string()),
        ("embedding", "256".to_string()),
        ("rope freq base", "10000".to_string()),
        ("tokenizer", "gpt2 (2 tokens)".to_string()),
        ("bos token", "0 \"<s>\"".to_string()),
        ("eos token", "9 \"?\"".to_string()),
    ];
    assert_eq!(lines.len(), expected.len());
    for (line, (label, cell)) in lines.iter().zip(expected) {
        assert_eq!((line.0.as_str(), &line.1), (label, &cell));
    }
}

#[test]
fn a_file_describes_itself_in_one_line() {
    let bytes = fixture().build();
    let model = Gguf::open(&bytes).expect("open");
    assert_eq!(
        model.describe(),
        format!("Gguf {{ version: 3, arch: Some(\"llama\"), tensors: 2, bytes: {} }}", bytes.len())
    );
    let bare = Builder::new().build();
    let model = Gguf::open(&bare).expect("open");
    assert_eq!(model.describe(), "Gguf { version: 3, arch: None, tensors: 0, bytes: 32 }");
}

#[test]
fn every_tensor_comes_back_under_its_name() {
    let bytes = fixture().build();
    let model = Gguf::open(&bytes).expect("open");
    assert_eq!(model.alignment(), 32);
    assert_eq!(model.data_offset() % 32, 0);
    assert_eq!(model.meta().len(), 7);
    for (name, len) in [("token_embd.weight", 4096), ("blk.0.attn_q.weight", 36864)] {
        let t = model.tensor(name).expect("there");
        assert_eq!(model.tensor_bytes(t).unwrap(), pattern(len).as_slice());
    }
}

#[test]
fn unknown_value_types_and_nested_lists_are_refused() {
    let bytes = Builder::new().meta("k", Value::Array(vec![Value::U8(1)])).build();
    // Behind the header: the key with its length, then the tag, then the inner
    // tag of the list.
    let tag = 24 + 8 + 1;
    let mut odd = bytes.clone();
    odd[tag] = 13;
    assert_eq!(refused(&odd).message(), "unknown metadata value type 13");
    let mut nested = bytes.clone();
    nested[tag + 4] = 9;
    assert_eq!(refused(&nested).message(), "nested arrays are not valid GGUF");
}
