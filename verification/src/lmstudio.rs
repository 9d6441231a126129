//! LM Studio interop.
//!
//! LM Studio already downloaded the models; there is no reason to download them
//! again. It lays them out as `<models>/<publisher>/<repo>/<file>.gguf`, which
//! becomes the model id `publisher/repo/file`.
//!
//! Reading directories happens elsewhere; what to read, what a file is called
//! and which one a query means is decided here.

use vstd::prelude::*;

use crate::error::{Error, ErrorKind, ErrorView};
use crate::text::{self, decimal, joined, lowercase, occurs, quoted, text_lt, texts};

verus! {

/// How deep to walk under a models directory. Real layout is 2 levels; a few
/// more costs nothing and survives people who nest by quant level.
pub const MAX_DEPTH: u32 = 5;

/// A model file.
#[derive(Clone, Debug)]
pub struct Model {
    /// `publisher/repo/file`, no extension.
    pub id: String,
    /// The bytes of the path.
    pub path: Vec<u8>,
    pub size: u64,
}

// ----------------------------------------------------------------------- names

/// Where the last dot of a file name stands, if something stands in front of
/// it; -1 otherwise.
pub open spec fn last_dot(name: Seq<char>) -> int
    decreases name.len(),
{
    if name.len() <= 1 {
        -1
    } else if name.last() == '.' {
        name.len() - 1
    } else {
        last_dot(name.drop_last())
    }
}

/// A file name without its extension. The name of the parent directory has
/// none.
pub open spec fn stem(name: Seq<char>) -> Seq<char> {
    if name == ".."@ || last_dot(name) < 0 {
        name
    } else {
        name.take(last_dot(name))
    }
}

/// An ASCII letter in lower case.
pub open spec fn ascii_lower(ch: char) -> char {
    if 'A' <= ch && ch <= 'Z' {
        (ch as u32 + 32) as char
    } else {
        ch
    }
}

/// Whether a file name has the extension of a model, in any case.
pub open spec fn is_gguf(name: Seq<char>) -> bool {
    &&& name != ".."@
    &&& last_dot(name) >= 0
    &&& name.skip(last_dot(name) + 1).map_values(|c: char| ascii_lower(c)) == seq!['g', 'g', 'u', 'f']
}

fn find_dot(chars: &[char]) -> (at: Option<usize>)
    ensures
        match at {
            Some(i) => last_dot(chars@) == i && i < chars@.len(),
            None => last_dot(chars@) == -1,
        },
{
    let mut n: usize = chars.len();
    proof {
        assert(chars@.take(n as int) =~= chars@);
    }
    while n > 1
        invariant
            n <= chars@.len(),
            last_dot(chars@) == last_dot(chars@.take(n as int)),
        decreases n,
    {
        proof {
            let head = chars@.take(n as int);
            assert(head.last() == chars@[n - 1]);
            assert(head.drop_last() =~= chars@.take(n - 1));
        }
        if chars[n - 1] == '.' {
            return Some(n - 1);
        }
        n -= 1;
    }
    None
}

fn is_parent(name: &str) -> (yes: bool)
    ensures
        yes == (name@ == ".."@),
{
    text::str_eq(name, "..")
}

fn file_stem(name: &str) -> (out: String)
    ensures
        out@ == stem(name@),
{
    let chars = text::to_chars(name);
    if is_parent(name) {
        return name.to_owned();
    }
    match find_dot(chars.as_slice()) {
        Some(i) => {
            let out = text::from_chars(chars.as_slice(), 0, i);
            assert(out@ =~= name@.take(i as int));
            out
        },
        None => name.to_owned(),
    }
}

fn lower(ch: char) -> (out: char)
    ensures
        out == ascii_lower(ch),
{
    if 'A' <= ch && ch <= 'Z' {
        ((ch as u8) + 32) as char
    } else {
        ch
    }
}

/// Whether a file name has the extension of a model, in any case.
pub fn has_model_extension(name: &str) -> (yes: bool)
    ensures
        yes == is_gguf(name@),
{
    let chars = text::to_chars(name);
    if is_parent(name) {
        return false;
    }
    match find_dot(chars.as_slice()) {
        None => false,
        Some(i) => {
            let ghost ext = name@.skip(i + 1).map_values(|c: char| ascii_lower(c));
            if chars.len() - i != 5 {
                assert(ext.len() != 4);
                return false;
            }
            let yes: bool = lower(chars[i + 1]) == 'g' && lower(chars[i + 2]) == 'g' && lower(chars[i + 3]) == 'u'
                && lower(chars[i + 4]) == 'f';
            proof {
                assert(ext[0] == ascii_lower(name@[i + 1]));
                assert(ext[1] == ascii_lower(name@[i + 2]));
                assert(ext[2] == ascii_lower(name@[i + 3]));
                assert(ext[3] == ascii_lower(name@[i + 4]));
                if yes {
                    assert(ext =~= seq!['g', 'g', 'u', 'f']);
                }
            }
            yes
        },
    }
}

/// Whether `path` lies under `root`, component by component.
pub open spec fn under(root: Seq<Seq<char>>, path: Seq<Seq<char>>) -> bool {
    root.len() <= path.len() && path.take(root.len() as int) == root
}

/// The components behind the root; all of them if the path is not under it.
pub open spec fn relative(root: Seq<Seq<char>>, path: Seq<Seq<char>>) -> Seq<Seq<char>> {
    if under(root, path) {
        path.skip(root.len() as int)
    } else {
        path
    }
}

/// The id of a model file: its path behind the root, joined by slashes, without
/// the extension.
pub open spec fn id_of(root: Seq<Seq<char>>, path: Seq<Seq<char>>) -> Seq<char> {
    let parts = relative(root, path);
    if parts.len() == 0 {
        Seq::empty()
    } else {
        joined(parts.drop_last().push(stem(parts.last())), "/"@)
    }
}

fn starts_with(path: &[String], root: &[String]) -> (yes: bool)
    ensures
        yes == under(texts(root@), texts(path@)),
{
    let ghost a = texts(root@);
    let ghost b = texts(path@);
    if root.len() > path.len() {
        return false;
    }
    let mut i: usize = 0;
    while i < root.len()
        invariant
            a == texts(root@),
            b == texts(path@),
            i <= root@.len() <= path@.len(),
            forall|j: int| 0 <= j < i ==> #[trigger] a[j] == b[j],
        decreases root@.len() - i,
    {
        if !text::str_eq(root[i].as_str(), path[i].as_str()) {
            proof {
                assert(b.take(a.len() as int)[i as int] == b[i as int]);
            }
            return false;
        }
        i += 1;
    }
    proof {
        assert(b.take(a.len() as int) =~= a);
    }
    true
}

/// The id of a model file, given the components of the directory that was
/// searched and of the file's path.
pub fn id_for(root: &[String], path: &[String]) -> (id: String)
    ensures
        id@ == id_of(texts(root@), texts(path@)),
{
    let ghost all = texts(path@);
    let skip: usize = if starts_with(path, root) { root.len() } else { 0 };
    let ghost rel = relative(texts(root@), all);
    proof {
        assert(rel =~= all.skip(skip as int));
    }
    let n: usize = path.len();
    let mut parts: Vec<String> = Vec::new();
    if skip == n {
        proof {
            assert(rel.len() == 0);
        }
        return String::new();
    }
    let mut i: usize = skip;
    while i < n - 1
        invariant
            n == path@.len(),
            skip < n,
            skip <= i < n,
            all == texts(path@),
            texts(parts@) == all.subrange(skip as int, i as int),
        decreases n - i,
    {
        let ghost before = parts@;
        let part = path[i].clone();
        parts.push(part);
        proof {
            assert(texts(parts@) =~= texts(before).push(part@));
            assert(all.subrange(skip as int, i + 1) =~= all.subrange(skip as int, i as int).push(all[i as int]));
        }
        i += 1;
    }
    let ghost before = parts@;
    let last = file_stem(path[n - 1].as_str());
    parts.push(last);
    proof {
        assert(texts(parts@) =~= texts(before).push(last@));
        assert(rel.drop_last() =~= all.subrange(skip as int, n - 1));
        assert(rel.last() == all[n - 1]);
    }
    text::join(parts.as_slice(), "/")
}

// --------------------------------------------------------------------- walking

/// What to do with a directory entry.
#[derive(Clone, Copy, Debug, PartialEq, Eq, Structural)]
pub enum Visit {
    Skip,
    Descend,
    Take,
}

/// What to do with a directory entry: links are not followed, which keeps a
/// symlinked models directory from looping; files count if they have the
/// extension.
pub open spec fn visit_of(symlink: bool, directory: bool, name: Seq<char>) -> Visit {
    if symlink {
        Visit::Skip
    } else if directory {
        Visit::Descend
    } else if is_gguf(name) {
        Visit::Take
    } else {
        Visit::Skip
    }
}

/// What to do with a directory entry.
pub fn visit(symlink: bool, directory: bool, name: &str) -> (v: Visit)
    ensures
        v == visit_of(symlink, directory, name@),
{
    if symlink {
        Visit::Skip
    } else if directory {
        Visit::Descend
    } else if has_model_extension(name) {
        Visit::Take
    } else {
        Visit::Skip
    }
}

/// Whether a directory at a depth below the root is read.
pub fn may_read(depth: u32) -> (yes: bool)
    ensures
        yes == (depth <= MAX_DEPTH),
        yes == (depth < 6),
{
    depth <= MAX_DEPTH
}

/// Which of the first `n` candidate directories are searched: those that exist,
/// without neighbours that are the same.
pub open spec fn kept_dirs(paths: Seq<Vec<u8>>, exist: Seq<bool>, n: nat) -> Seq<usize>
    decreases n,
{
    if n == 0 {
        Seq::empty()
    } else {
        let before = kept_dirs(paths, exist, (n - 1) as nat);
        if exist[n - 1] && (before.len() == 0 || paths[before.last() as int]@ != paths[n - 1]@) {
            before.push((n - 1) as usize)
        } else {
            before
        }
    }
}

proof fn lemma_kept_small(paths: Seq<Vec<u8>>, exist: Seq<bool>, n: nat)
    requires
        n <= usize::MAX,
    ensures
        forall|i: int| 0 <= i < kept_dirs(paths, exist, n).len() ==> (#[trigger] kept_dirs(paths, exist, n)[i]) < n,
    decreases n,
{
    if n > 0 {
        lemma_kept_small(paths, exist, (n - 1) as nat);
        let before = kept_dirs(paths, exist, (n - 1) as nat);
        let now = kept_dirs(paths, exist, n);
        assert forall|i: int| 0 <= i < now.len() implies (#[trigger] now[i]) < n by {
            if i < before.len() {
                assert(now[i] == before[i]);
            }
        }
    }
}

/// Which candidate directories are searched, most specific first.
pub fn model_dirs(paths: &[Vec<u8>], exist: &[bool]) -> (kept: Vec<usize>)
    requires
        paths@.len() == exist@.len(),
    ensures
        kept@ == kept_dirs(paths@, exist@, paths@.len()),
        forall|i: int| 0 <= i < kept@.len() ==> (#[trigger] kept@[i]) < paths@.len(),
{
    let mut kept: Vec<usize> = Vec::new();
    let mut i: usize = 0;
    while i < paths.len()
        invariant
            paths@.len() == exist@.len(),
            i <= paths@.len(),
            kept@ == kept_dirs(paths@, exist@, i as nat),
        decreases paths@.len() - i,
    {
        proof {
            lemma_kept_small(paths@, exist@, i as nat);
        }
        if exist[i] {
            let fresh: bool = if kept.len() == 0 {
                true
            } else {
                let last: usize = kept[kept.len() - 1];
                !text::bytes_eq(paths[last].as_slice(), paths[i].as_slice())
            };
            if fresh {
                kept.push(i);
            }
        }
        i += 1;
    }
    proof {
        lemma_kept_small(paths@, exist@, paths@.len());
    }
    kept
}

// --------------------------------------------------------------------- listing

/// Whether model `a` is listed before model `b`: by id, then by where it was
/// found.
pub open spec fn listed_before(models: Seq<Model>, a: int, b: int) -> bool {
    text_lt(models[a].id@, models[b].id@) || (models[a].id@ == models[b].id@ && a < b)
}

/// Whether `order` holds every model's number once, in the order of listing.
pub open spec fn is_order(models: Seq<Model>, order: Seq<usize>) -> bool {
    &&& order.len() == models.len()
    &&& forall|i: int| 0 <= i < order.len() ==> (#[trigger] order[i]) < models.len()
    &&& forall|m: int| 0 <= m < models.len() ==> order.contains(#[trigger] (m as usize))
    &&& forall|i: int, j: int|
        0 <= i < j < order.len() ==> listed_before(models, #[trigger] order[i] as int, #[trigger] order[j] as int)
}

/// The first `n` of an order, without models whose path is that of the one
/// before.
pub open spec fn distinct(models: Seq<Model>, order: Seq<usize>, n: nat) -> Seq<usize>
    decreases n,
{
    if n == 0 {
        Seq::empty()
    } else {
        let before = distinct(models, order, (n - 1) as nat);
        if before.len() > 0 && models[before.last() as int].path@ == models[order[n - 1] as int].path@ {
            before
        } else {
            before.push(order[n - 1])
        }
    }
}

fn find_place(models: &[Model], order: &[usize], id: &str) -> (p: usize)
    requires
        forall|i: int| 0 <= i < order@.len() ==> (#[trigger] order@[i]) < models@.len(),
        forall|i: int, j: int|
            0 <= i < j < order@.len() ==> listed_before(models@, #[trigger] order@[i] as int, #[trigger] order@[j] as int),
    ensures
        p <= order@.len(),
        forall|i: int| 0 <= i < p ==> !text_lt(id@, models@[#[trigger] order@[i] as int].id@),
        forall|i: int| p <= i < order@.len() ==> text_lt(id@, models@[#[trigger] order@[i] as int].id@),
{
    let mut p: usize = order.len();
    while p > 0 && text::str_lt(id, models[order[p - 1]].id.as_str())
        invariant
            p <= order@.len(),
            forall|i: int| 0 <= i < order@.len() ==> (#[trigger] order@[i]) < models@.len(),
            forall|i: int| p <= i < order@.len() ==> text_lt(id@, models@[#[trigger] order@[i] as int].id@),
        decreases p,
    {
        p -= 1;
    }
    proof {
        if p > 0 {
            let q = models@[order@[p - 1] as int].id@;
            assert forall|i: int| 0 <= i < p implies !text_lt(id@, models@[#[trigger] order@[i] as int].id@) by {
                if i < p - 1 && text_lt(id@, models@[order@[i] as int].id@) {
                    assert(listed_before(models@, order@[i] as int, order@[p - 1] as int));
                    if text_lt(models@[order@[i] as int].id@, q) {
                        text::lemma_text_lt_transitive(id@, models@[order@[i] as int].id@, q);
                    }
                }
            }
        }
    }
    p
}

/// The numbers of the models in the order of listing: by id.
fn sort(models: &[Model]) -> (order: Vec<usize>)
    ensures
        is_order(models@, order@),
{
    let mut order: Vec<usize> = Vec::new();
    let mut k: usize = 0;
    while k < models.len()
        invariant
            k <= models@.len(),
            order@.len() == k,
            forall|i: int| 0 <= i < k ==> (#[trigger] order@[i]) < k,
            forall|m: int| 0 <= m < k ==> order@.contains(#[trigger] (m as usize)),
            forall|i: int, j: int|
                0 <= i < j < k ==> listed_before(models@, #[trigger] order@[i] as int, #[trigger] order@[j] as int),
        decreases models@.len() - k,
    {
        let p: usize = find_place(models, order.as_slice(), models[k].id.as_str());
        let ghost before = order@;
        order.insert(p, k);
        proof {
            let id = models@[k as int].id@;
            assert forall|i: int| 0 <= i < k + 1 implies (#[trigger] order@[i]) < k + 1 by {
                let i0 = if i < p { i } else { i - 1 };
                if i != p {
                    assert(before[i0] < k);
                }
            }
            assert forall|m: int| 0 <= m < k + 1 implies order@.contains(#[trigger] (m as usize)) by {
                if m == k {
                    assert(order@[p as int] == k);
                } else {
                    assert(before.contains(m as usize));
                    let at = choose|at: int| 0 <= at < before.len() && before[at] == m as usize;
                    assert(order@[if at < p { at } else { at + 1 }] == m as usize);
                }
            }
            assert forall|i: int, j: int| 0 <= i < j < k + 1 implies listed_before(
                models@,
                #[trigger] order@[i] as int,
                #[trigger] order@[j] as int,
            ) by {
                let i0 = if i < p { i } else { i - 1 };
                let j0 = if j < p { j } else { j - 1 };
                if i != p && j != p {
                    assert(listed_before(models@, before[i0] as int, before[j0] as int));
                } else if j == p {
                    let other = models@[before[i] as int].id@;
                    assert(!text_lt(id, other));
                    text::lemma_text_lt_total(id, other);
                    assert(before[i] < k);
                } else {
                    assert(text_lt(id, models@[before[j0] as int].id@));
                }
            }
        }
        k += 1;
    }
    order
}

proof fn lemma_distinct_inside(models: Seq<Model>, order: Seq<usize>, n: nat)
    requires
        n <= order.len(),
        forall|i: int| 0 <= i < order.len() ==> (#[trigger] order[i]) < models.len(),
    ensures
        forall|i: int|
            0 <= i < distinct(models, order, n).len() ==> (#[trigger] distinct(models, order, n)[i]) < models.len(),
    decreases n,
{
    if n > 0 {
        lemma_distinct_inside(models, order, (n - 1) as nat);
        let before = distinct(models, order, (n - 1) as nat);
        let now = distinct(models, order, n);
        assert forall|i: int| 0 <= i < now.len() implies (#[trigger] now[i]) < models.len() by {
            if i < before.len() {
                assert(now[i] == before[i]);
            } else {
                assert(now[i] == order[n - 1]);
            }
        }
    }
}

/// Every model once, sorted by id: the numbers of the models that were found.
pub fn list(models: &[Model]) -> (numbers: Vec<usize>)
    ensures
        exists|order: Seq<usize>| #[trigger]
            is_order(models@, order) && numbers@ == distinct(models@, order, models@.len()),
        forall|i: int| 0 <= i < numbers@.len() ==> (#[trigger] numbers@[i]) < models@.len(),
{
    let order = sort(models);
    let mut numbers: Vec<usize> = Vec::new();
    let mut i: usize = 0;
    while i < order.len()
        invariant
            is_order(models@, order@),
            i <= order@.len(),
            numbers@ == distinct(models@, order@, i as nat),
        decreases order@.len() - i,
    {
        proof {
            lemma_distinct_inside(models@, order@, i as nat);
        }
        let this: usize = order[i];
        let again: bool = if numbers.len() > 0 {
            let last: usize = numbers[numbers.len() - 1];
            text::bytes_eq(models[last].path.as_slice(), models[this].path.as_slice())
        } else {
            false
        };
        if !again {
            numbers.push(this);
        }
        i += 1;
    }
    proof {
        lemma_distinct_inside(models@, order@, order@.len());
    }
    numbers
}

/// Whether a listing holds a model under the path.
pub open spec fn lists_path(models: Seq<Model>, numbers: Seq<usize>, path: Seq<u8>) -> bool {
    exists|k: int| 0 <= k < numbers.len() && models[#[trigger] numbers[k] as int].path@ == path
}

proof fn lemma_listing_prefix(models: Seq<Model>, order: Seq<usize>, n: nat)
    requires
        is_order(models, order),
        n <= order.len(),
    ensures
        forall|i: int|
            0 <= i < distinct(models, order, n).len() ==> order.take(n as int).contains(
                #[trigger] distinct(models, order, n)[i],
            ),
        forall|i: int, j: int|
            0 <= i < j < distinct(models, order, n).len() ==> listed_before(
                models,
                #[trigger] distinct(models, order, n)[i] as int,
                #[trigger] distinct(models, order, n)[j] as int,
            ),
        forall|i: int|
            0 <= i < n ==> lists_path(models, distinct(models, order, n), models[#[trigger] order[i] as int].path@),
    decreases n,
{
    if n > 0 {
        let m = (n - 1) as nat;
        lemma_listing_prefix(models, order, m);
        let before = distinct(models, order, m);
        let now = distinct(models, order, n);
        let head = order.take(m as int);
        let wide = order.take(n as int);
        assert forall|i: int| 0 <= i < now.len() implies wide.contains(#[trigger] now[i]) by {
            if i < before.len() {
                assert(head.contains(before[i]));
                let at = choose|at: int| 0 <= at < head.len() && head[at] == before[i];
                assert(wide[at] == now[i]);
            } else {
                assert(wide[n - 1] == now[i]);
            }
        }
        assert forall|i: int, j: int| 0 <= i < j < now.len() implies listed_before(
            models,
            #[trigger] now[i] as int,
            #[trigger] now[j] as int,
        ) by {
            if j < before.len() {
                assert(listed_before(models, before[i] as int, before[j] as int));
            } else {
                assert(head.contains(before[i]));
                let at = choose|at: int| 0 <= at < head.len() && head[at] == before[i];
                assert(order[at] == now[i]);
                assert(listed_before(models, order[at] as int, order[n - 1] as int));
            }
        }
        assert forall|i: int| 0 <= i < n implies lists_path(models, now, models[#[trigger] order[i] as int].path@) by {
            let path = models[order[i] as int].path@;
            if i < m {
                assert(lists_path(models, before, path));
                let k = choose|k: int| 0 <= k < before.len() && models[#[trigger] before[k] as int].path@ == path;
                assert(models[now[k] as int].path@ == path);
            } else {
                assert(models[now[now.len() - 1] as int].path@ == path);
            }
        }
    }
}

/// A listing is sorted by id, names no model twice, and leaves no path out.
pub proof fn lemma_listing(models: Seq<Model>, order: Seq<usize>, numbers: Seq<usize>)
    requires
        is_order(models, order),
        numbers == distinct(models, order, models.len()),
        models.len() <= usize::MAX,
    ensures
        forall|i: int, j: int|
            0 <= i < j < numbers.len() ==> !text_lt(
                models[#[trigger] numbers[j] as int].id@,
                models[#[trigger] numbers[i] as int].id@,
            ) && numbers[i] != numbers[j],
        forall|m: int| 0 <= m < models.len() ==> lists_path(models, numbers, (#[trigger] models[m]).path@),
{
    lemma_listing_prefix(models, order, order.len());
    assert forall|i: int, j: int| 0 <= i < j < numbers.len() implies !text_lt(
        models[#[trigger] numbers[j] as int].id@,
        models[#[trigger] numbers[i] as int].id@,
    ) && numbers[i] != numbers[j] by {
        let a = models[numbers[i] as int].id@;
        let b = models[numbers[j] as int].id@;
        assert(listed_before(models, numbers[i] as int, numbers[j] as int));
        text::lemma_text_lt_irreflexive(a);
        if text_lt(a, b) && text_lt(b, a) {
            text::lemma_text_lt_transitive(a, b, a);
        }
    }
    assert forall|m: int| 0 <= m < models.len() implies lists_path(models, numbers, (#[trigger] models[m]).path@) by {
        assert(order.contains(m as usize));
        let at = choose|at: int| 0 <= at < order.len() && order[at] == m as usize;
        assert(lists_path(models, numbers, models[order[at] as int].path@));
    }
}

// -------------------------------------------------------------------- resolving

/// The numbers of the texts among the first `n` that contain the needle.
pub open spec fn hits_of(needle: Seq<char>, texts: Seq<Seq<char>>, n: nat) -> Seq<usize>
    decreases n,
{
    if n == 0 {
        Seq::empty()
    } else {
        let before = hits_of(needle, texts, (n - 1) as nat);
        if occurs(texts[n - 1], needle) {
            before.push((n - 1) as usize)
        } else {
            before
        }
    }
}

/// The ids of models.
pub open spec fn ids_of(models: Seq<Model>, numbers: Seq<usize>) -> Seq<Seq<char>> {
    Seq::new(numbers.len(), |i: int| models[numbers[i] as int].id@)
}

/// Where models were looked for.
pub open spec fn hint_of(dirs: Seq<Seq<char>>) -> Seq<char> {
    if dirs.len() == 0 {
        "(none exist)"@
    } else {
        joined(dirs, ", "@)
    }
}

/// The number of the only model whose folded id contains the needle. Ambiguity
/// is an error rather than a coin flip: loading the wrong 4 GB file wastes a
/// minute of somebody's life.
pub open spec fn single_of(
    shown: Seq<char>,
    needle: Seq<char>,
    folded: Seq<Seq<char>>,
    models: Seq<Model>,
    dirs: Seq<Seq<char>>,
) -> Result<usize, ErrorView> {
    let hits = hits_of(needle, folded, models.len());
    if hits.len() == 1 {
        Ok(hits[0])
    } else if hits.len() > 1 {
        Err(
            ErrorView {
                kind: ErrorKind::InvalidInput,
                message: shown + " matches "@ + decimal(hits.len()) + " models: "@ + joined(ids_of(models, hits), ", "@),
            },
        )
    } else if models.len() == 0 {
        Err(
            ErrorView {
                kind: ErrorKind::NotFound,
                message: "no models found. Looked in: "@ + hint_of(dirs)
                    + ". Point at a .gguf path, or set FERRITE_MODELS_DIR."@,
            },
        )
    } else {
        Err(
            ErrorView {
                kind: ErrorKind::NotFound,
                message: "no model id matches "@ + shown + ". Run `ferrite list`."@,
            },
        )
    }
}

/// The ids of models in lower case.
pub open spec fn folded_ids(models: Seq<Model>) -> Seq<Seq<char>> {
    Seq::new(models.len(), |i: int| lowercase(models[i].id@))
}

/// The number of the model that a query means: the only one whose id contains
/// the query, in any case.
pub open spec fn resolve_of(query: Seq<char>, models: Seq<Model>, dirs: Seq<Seq<char>>) -> Result<usize, ErrorView> {
    single_of(quoted(query), lowercase(query), folded_ids(models), models, dirs)
}

fn dirs_hint(dirs: &[String]) -> (hint: String)
    ensures
        hint@ == hint_of(texts(dirs@)),
{
    if dirs.len() == 0 {
        "(none exist)".to_owned()
    } else {
        text::join(dirs, ", ")
    }
}

proof fn lemma_hits_inside(needle: Seq<char>, list: Seq<Seq<char>>, n: nat)
    requires
        n <= list.len() <= usize::MAX,
    ensures
        forall|i: int| 0 <= i < hits_of(needle, list, n).len() ==> (#[trigger] hits_of(needle, list, n)[i]) < n,
        hits_of(needle, list, n).len() <= n,
    decreases n,
{
    if n > 0 {
        lemma_hits_inside(needle, list, (n - 1) as nat);
        let before = hits_of(needle, list, (n - 1) as nat);
        let now = hits_of(needle, list, n);
        assert forall|i: int| 0 <= i < now.len() implies (#[trigger] now[i]) < n by {
            if i < before.len() {
                assert(now[i] == before[i]);
            }
        }
    }
}

proof fn lemma_hits(needle: Seq<char>, list: Seq<Seq<char>>, n: nat)
    requires
        n <= list.len() <= usize::MAX,
    ensures
        forall|j: int| 0 <= j < n && occurs(#[trigger] list[j], needle) ==> hits_of(needle, list, n).contains(j as usize),
        forall|k: int|
            0 <= k < hits_of(needle, list, n).len() ==> occurs(
                list[#[trigger] hits_of(needle, list, n)[k] as int],
                needle,
            ),
        forall|a: int, b: int|
            0 <= a < b < hits_of(needle, list, n).len() ==> #[trigger] hits_of(needle, list, n)[a]
                < #[trigger] hits_of(needle, list, n)[b],
    decreases n,
{
    if n > 0 {
        let m = (n - 1) as nat;
        lemma_hits(needle, list, m);
        lemma_hits_inside(needle, list, m);
        let before = hits_of(needle, list, m);
        let now = hits_of(needle, list, n);
        assert forall|k: int| 0 <= k < now.len() implies occurs(list[#[trigger] now[k] as int], needle) by {
            if k < before.len() {
                assert(now[k] == before[k]);
            }
        }
        assert forall|a: int, b: int| 0 <= a < b < now.len() implies #[trigger] now[a] < #[trigger] now[b] by {
            assert(now[a] == before[a]);
            if b < before.len() {
                assert(before[a] < before[b]);
            }
        }
        assert forall|j: int| 0 <= j < n && occurs(#[trigger] list[j], needle) implies now.contains(j as usize) by {
            if j < m {
                assert(before.contains(j as usize));
                let k = choose|k: int| 0 <= k < before.len() && before[k] == j as usize;
                assert(now[k] == j as usize);
            } else {
                assert(now[now.len() - 1] == j as usize);
            }
        }
    }
}

/// A query finds a model exactly if that is the only one it means.
pub proof fn lemma_single_is_unique(
    shown: Seq<char>,
    needle: Seq<char>,
    folded: Seq<Seq<char>>,
    models: Seq<Model>,
    dirs: Seq<Seq<char>>,
    i: usize,
)
    requires
        folded.len() == models.len() <= usize::MAX,
    ensures
        single_of(shown, needle, folded, models, dirs) == Ok::<usize, ErrorView>(i) <==> (i < models.len() && occurs(
            folded[i as int],
            needle,
        ) && forall|j: int| 0 <= j < models.len() && j != i ==> !occurs(#[trigger] folded[j], needle)),
{
    let hits = hits_of(needle, folded, models.len());
    lemma_hits(needle, folded, models.len());
    lemma_hits_inside(needle, folded, models.len());
    if single_of(shown, needle, folded, models, dirs) == Ok::<usize, ErrorView>(i) {
        assert forall|j: int| 0 <= j < models.len() && j != i implies !occurs(#[trigger] folded[j], needle) by {
            if occurs(folded[j], needle) {
                assert(hits.contains(j as usize));
                let k = choose|k: int| 0 <= k < hits.len() && hits[k] == j as usize;
                assert(k == 0);
            }
        }
        assert(hits[0] == i);
    } else if i < models.len() && occurs(folded[i as int], needle) && forall|j: int|
        0 <= j < models.len() && j != i ==> !occurs(#[trigger] folded[j], needle) {
        assert(hits.contains(i));
        if hits.len() > 1 {
            assert(hits[0] < hits[1]);
            assert(occurs(folded[hits[0] as int], needle));
            assert(occurs(folded[hits[1] as int], needle));
        }
        assert(hits[0] == i);
    }
}

fn find_hits(needle: &str, list: &[String]) -> (hits: Vec<usize>)
    ensures
        hits@ == hits_of(needle@, texts(list@), list@.len()),
        forall|i: int| 0 <= i < hits@.len() ==> (#[trigger] hits@[i]) < list@.len(),
{
    let mut hits: Vec<usize> = Vec::new();
    let mut i: usize = 0;
    while i < list.len()
        invariant
            i <= list@.len(),
            hits@ == hits_of(needle@, texts(list@), i as nat),
        decreases list@.len() - i,
    {
        if text::contains(list[i].as_str(), needle) {
            hits.push(i);
        }
        i += 1;
    }
    proof {
        lemma_hits_inside(needle@, texts(list@), list@.len());
    }
    hits
}

/// The number of the only model whose folded id contains the needle; `shown` is
/// what to call the query in a message.
pub fn find_single(shown: &str, needle: &str, folded: &[String], models: &[Model], dirs: &[String]) -> (got: Result<
    usize,
    Error,
>)
    requires
        folded@.len() == models@.len(),
    ensures
        match got {
            Ok(i) => single_of(shown@, needle@, texts(folded@), models@, texts(dirs@)) == Ok::<usize, ErrorView>(i) && i
                < models@.len(),
            Err(e) => single_of(shown@, needle@, texts(folded@), models@, texts(dirs@)) == Err::<usize, ErrorView>(e@),
        },
{
    let hits = find_hits(needle, folded);
    if hits.len() == 1 {
        return Ok(hits[0]);
    }
    if hits.len() > 1 {
        let mut names: Vec<String> = Vec::new();
        let mut i: usize = 0;
        while i < hits.len()
            invariant
                i <= hits@.len(),
                folded@.len() == models@.len(),
                forall|k: int| 0 <= k < hits@.len() ==> (#[trigger] hits@[k]) < folded@.len(),
                texts(names@) == ids_of(models@, hits@.take(i as int)),
            decreases hits@.len() - i,
        {
            let ghost before = names@;
            let name = models[hits[i]].id.clone();
            names.push(name);
            proof {
                assert(texts(names@) =~= texts(before).push(name@));
                assert(texts(names@) =~= ids_of(models@, hits@.take(i + 1)));
            }
            i += 1;
        }
        proof {
            assert(hits@.take(i as int) =~= hits@);
        }
        let mut message = shown.to_owned();
        message.append(" matches ");
        message.append(text::to_decimal(hits.len() as u64).as_str());
        message.append(" models: ");
        message.append(text::join(names.as_slice(), ", ").as_str());
        return Err(Error::new(ErrorKind::InvalidInput, message));
    }
    if models.len() == 0 {
        let mut message = "no models found. Looked in: ".to_owned();
        message.append(dirs_hint(dirs).as_str());
        message.append(". Point at a .gguf path, or set FERRITE_MODELS_DIR.");
        return Err(Error::new(ErrorKind::NotFound, message));
    }
    let mut message = "no model id matches ".to_owned();
    message.append(shown);
    message.append(". Run `ferrite list`.");
    Err(Error::new(ErrorKind::NotFound, message))
}

/// The number of the model that a query means.
pub fn resolve(query: &str, models: &[Model], dirs: &[String]) -> (got: Result<usize, Error>)
    ensures
        match got {
            Ok(i) => resolve_of(query@, models@, texts(dirs@)) == Ok::<usize, ErrorView>(i) && i < models@.len(),
            Err(e) => resolve_of(query@, models@, texts(dirs@)) == Err::<usize, ErrorView>(e@),
        },
{
    let mut folded: Vec<String> = Vec::new();
    let mut i: usize = 0;
    while i < models.len()
        invariant
            i <= models@.len(),
            texts(folded@) == folded_ids(models@).take(i as int),
        decreases models@.len() - i,
    {
        let ghost before = folded@;
        let lower = text::to_lowercase(models[i].id.as_str());
        folded.push(lower);
        proof {
            assert(texts(folded@) =~= texts(before).push(lower@));
            assert(texts(folded@) =~= folded_ids(models@).take(i + 1));
        }
        i += 1;
    }
    proof {
        assert(folded_ids(models@).take(i as int) =~= folded_ids(models@));
        assert(texts(folded@).len() == folded@.len());
    }
    find_single(
        text::quote(query).as_str(),
        text::to_lowercase(query).as_str(),
        folded.as_slice(),
        models,
        dirs,
    )
}

} // verus!
