//! Ids, listing and the resolution of queries.

use ferrite::error::ErrorKind;
use ferrite::lmstudio::{self, Model, Visit};

fn parts(path: &str) -> Vec<String> {
    std::path::Path::new(path)
        .components()
        .map(|c| c.as_os_str().to_string_lossy().into_owned())
        .collect()
}

fn id(root: &str, path: &str) -> String {
    lmstudio::id_for(&parts(root), &parts(path))
}

fn model(id: &str, path: &str) -> Model {
    Model { id: id.to_string(), path: path.as_bytes().to_vec(), size: 1 }
}

#[test]
fn id_is_publisher_repo_file() {
    assert_eq!(
        id("/models", "/models/lmstudio-community/Llama-3.2-1B/model-Q4_K_M.gguf"),
        "lmstudio-community/Llama-3.2-1B/model-Q4_K_M"
    );
}

#[test]
fn only_the_last_extension_goes() {
    assert_eq!(id("/m", "/m/a.b/c.d.gguf"), "a.b/c.d");
    assert_eq!(id("/m", "/m/.gguf"), ".gguf");
    assert_eq!(id("/m", "/m/plain"), "plain");
    assert_eq!(id("/m", "/m"), "");
    // A file outside the root keeps its whole path.
    assert_eq!(id("/m", "x/y.gguf"), "x/y");
}

#[test]
fn walking_takes_models_and_follows_no_links() {
    assert_eq!(lmstudio::visit(false, false, "a.gguf"), Visit::Take);
    assert_eq!(lmstudio::visit(false, false, "a.GGUF"), Visit::Take);
    assert_eq!(lmstudio::visit(false, false, ".gguf"), Visit::Skip);
    assert_eq!(lmstudio::visit(false, false, "a.bin"), Visit::Skip);
    assert_eq!(lmstudio::visit(false, true, "a.gguf"), Visit::Descend);
    assert_eq!(lmstudio::visit(true, true, "a"), Visit::Skip);
    assert_eq!(lmstudio::visit(true, false, "a.gguf"), Visit::Skip);
    assert!(lmstudio::may_read(5));
    assert!(!lmstudio::may_read(6));
}

#[test]
fn listing_sorts_by_id_and_drops_repeated_paths() {
    let models = [model("b", "/2"), model("a", "/1"), model("b", "/2"), model("b", "/3")];
    assert_eq!(lmstudio::list(&models), vec![1, 0, 3]);
    assert_eq!(lmstudio::list(&[]), Vec::<usize>::new());
}

#[test]
fn search_directories_exist_and_do_not_repeat() {
    let paths: Vec<Vec<u8>> = ["/a", "/b", "/a", "/a"].iter().map(|p| p.as_bytes().to_vec()).collect();
    assert_eq!(lmstudio::model_dirs(&paths, &[true, false, true, true]), vec![0]);
    assert_eq!(lmstudio::model_dirs(&paths, &[true, true, true, true]), vec![0, 1, 2]);
}

#[test]
fn a_query_that_means_one_model_finds_it() {
    let models = [model("pub/Llama-3/x", "/1"), model("pub/Qwen/y", "/2")];
    assert_eq!(lmstudio::resolve("LLAMA", &models, &[]).unwrap(), 0);
    assert_eq!(lmstudio::resolve("qwen/Y", &models, &[]).unwrap(), 1);
}

#[test]
fn a_query_that_means_none_or_many_is_an_error() {
    let models = [model("pub/Llama-3/x", "/1"), model("pub/Qwen/y", "/2")];
    let many = lmstudio::resolve("pub", &models, &[]).unwrap_err();
    assert_eq!(many.kind(), ErrorKind::InvalidInput);
    assert_eq!(many.message(), "\"pub\" matches 2 models: pub/Llama-3/x, pub/Qwen/y");
    let none = lmstudio::resolve("gemma", &models, &[]).unwrap_err();
    assert_eq!(none.kind(), ErrorKind::NotFound);
    assert_eq!(none.message(), "no model id matches \"gemma\". Run `ferrite list`.");
    let empty = lmstudio::resolve("x", &[], &[]).unwrap_err();
    assert_eq!(empty.kind(), ErrorKind::NotFound);
    assert_eq!(
        empty.message(),
        "no models found. Looked in: (none exist). Point at a .gguf path, or set FERRITE_MODELS_DIR."
    );
    let dirs = ["/a".to_string(), "/b".to_string()];
    let empty = lmstudio::resolve("x", &[], &dirs).unwrap_err();
    assert!(empty.message().contains("Looked in: /a, /b."));
}

#[test]
fn the_needle_is_looked_for_in_the_folded_ids() {
    let models = [model("A", "/1"), model("B", "/2")];
    let folded = ["xy".to_string(), "yz".to_string()];
    assert_eq!(lmstudio::find_single("q", "x", &folded, &models, &[]).unwrap(), 0);
    let many = lmstudio::find_single("q", "y", &folded, &models, &[]).unwrap_err();
    assert_eq!(many.message(), "q matches 2 models: A, B");
    let none = lmstudio::find_single("q", "w", &folded, &models, &[]).unwrap_err();
    assert_eq!(none.message(), "no model id matches q. Run `ferrite list`.");
}
