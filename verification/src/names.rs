//! Numbers, names and lists as people read them.
//!
//! Laws on how numbers are written, how names are ordered, split and put
//! together, and which files and directories are found.

use vstd::arithmetic::power::pow;
use vstd::prelude::*;
use vstd::utf8::encode_utf8;

use crate::error::{ErrorKind, ErrorView};
use crate::format::volume;
use crate::generate::{verdict_of, Generation, Verdict};
use crate::gguf::{bytes_of, count_of, is_histogram, product, GgmlType, TensorView};
use crate::lmstudio::{
    folded_ids, id_of, is_gguf, kept_dirs, last_dot, lemma_single_is_unique, resolve_of, stem, visit_of, Model, Visit,
};
use crate::report::{total_elements, unit_of, Unit};
use crate::text::{bytes_lt, decimal, joined, lowercase, occurs, quoted};
use crate::value::{shown, shown_items, signed_decimal, PieceView, ValueView};

verus! {

// -------------------------------------------------------------------- numbers

/// The number that decimal digits spell, the first one worth most.
pub open spec fn spelled_number(digits: Seq<char>) -> int
    decreases digits.len(),
{
    if digits.len() == 0 {
        0
    } else {
        10 * spelled_number(digits.drop_last()) + (digits.last() as int - '0' as int)
    }
}

/// A number is written in decimal digits that spell it, without a zero in front.
pub proof fn lemma_decimal_spells(n: nat)
    ensures
        spelled_number(decimal(n)) == n,
        decimal(n).len() > 0,
        forall|i: int| 0 <= i < decimal(n).len() ==> '0' <= #[trigger] decimal(n)[i] && decimal(n)[i] <= '9',
        decimal(n).len() > 1 ==> decimal(n)[0] != '0',
    decreases n,
{
    reveal_with_fuel(spelled_number, 2);
    if n >= 10 {
        lemma_decimal_spells(n / 10);
        let front = decimal(n / 10);
        assert(decimal(n).drop_last() =~= front);
        assert(front[0] == decimal(n)[0]);
        if front.len() == 1 {
            assert(front.drop_last() =~= Seq::empty());
        }
    } else {
        assert(decimal(n).drop_last() =~= Seq::empty());
    }
}

/// A size is shown in the unit of which there is at least one and fewer than
/// 1024: each is 1024 times the one before. From a terabyte on, in terabytes.
pub proof fn lemma_units(bytes: u64, k: nat)
    requires
        k <= 4,
        pow(1024, k) <= bytes || k == 0,
        bytes < pow(1024, k + 1) || k == 4,
    ensures
        unit_of(bytes) == (if k == 0 {
            Unit::B
        } else if k == 1 {
            Unit::KB
        } else if k == 2 {
            Unit::MB
        } else if k == 3 {
            Unit::GB
        } else {
            Unit::TB
        }),
{
    reveal_with_fuel(pow, 6);
    assert(pow(1024, 1) == 1024);
    assert(pow(1024, 2) == 1024 * 1024);
    assert(pow(1024, 3) == 1024 * 1024 * 1024);
    assert(pow(1024, 4) == 1024 * 1024 * 1024 * 1024);
}

// ---------------------------------------------------------------------- order

/// Whether `a` comes before `b` in a dictionary: it is a proper beginning of
/// `b`, or smaller at the first place where they differ, which is `k`.
pub open spec fn before_at(a: Seq<u8>, b: Seq<u8>, k: int) -> bool {
    &&& 0 <= k <= a.len()
    &&& k < b.len()
    &&& a.take(k) == b.take(k)
    &&& k < a.len() ==> a[k] < b[k]
}

/// Names are ordered as in a dictionary.
pub proof fn lemma_dictionary_order(a: Seq<u8>, b: Seq<u8>)
    ensures
        bytes_lt(a, b) == (exists|k: int| before_at(a, b, k)),
    decreases a.len(),
{
    if b.len() == 0 {
    } else if a.len() == 0 {
        assert(a.take(0) =~= b.take(0));
        assert(before_at(a, b, 0));
    } else if a[0] != b[0] {
        assert(a.take(0) =~= b.take(0));
        if a[0] < b[0] {
            assert(before_at(a, b, 0));
        } else {
            assert forall|k: int| !before_at(a, b, k) by {
                if before_at(a, b, k) && k > 0 {
                    assert(a.take(k)[0] == b.take(k)[0]);
                }
            }
        }
    } else {
        let (x, y) = (a.drop_first(), b.drop_first());
        lemma_dictionary_order(x, y);
        if bytes_lt(x, y) {
            let k = choose|k: int| before_at(x, y, k);
            assert(a.take(k + 1) =~= seq![a[0]] + x.take(k));
            assert(b.take(k + 1) =~= seq![b[0]] + y.take(k));
            assert(before_at(a, b, k + 1));
        }
        if exists|k: int| before_at(a, b, k) {
            let k = choose|k: int| before_at(a, b, k);
            assert(k > 0);
            assert(x.take(k - 1) =~= a.take(k).drop_first());
            assert(y.take(k - 1) =~= b.take(k).drop_first());
            assert(before_at(x, y, k - 1));
        }
    }
}

// ---------------------------------------------------------------------- names

/// Joining puts the separator between two lists that are joined themselves, and
/// a single part stays as it is.
pub proof fn lemma_joining(a: Seq<Seq<char>>, b: Seq<Seq<char>>, separator: Seq<char>)
    requires
        a.len() > 0,
        b.len() > 0,
    ensures
        joined(a + b, separator) == joined(a, separator) + separator + joined(b, separator),
        joined(seq![a[0]], separator) == a[0],
    decreases b.len(),
{
    let all = a + b;
    assert(all.last() == b.last());
    if b.len() == 1 {
        assert(all.drop_last() =~= a);
    } else {
        let front = b.drop_last();
        assert(all.drop_last() =~= a + front);
        lemma_joining(a, front, separator);
        assert(joined(all, separator) =~= joined(a, separator) + separator + joined(b, separator));
    }
}

proof fn lemma_dot_at(base: Seq<char>, ext: Seq<char>)
    requires
        base.len() > 0,
        !ext.contains('.'),
    ensures
        last_dot(base + seq!['.'] + ext) == base.len(),
    decreases ext.len(),
{
    let name = base + seq!['.'] + ext;
    if ext.len() == 0 {
        assert(name.last() == '.');
    } else {
        assert(name.last() == ext.last());
        assert(ext.contains(ext.last()));
        let front = ext.drop_last();
        assert(name.drop_last() =~= base + seq!['.'] + front);
        assert forall|ch: char| front.contains(ch) implies ext.contains(ch) by {
            let k = choose|k: int| 0 <= k < front.len() && front[k] == ch;
            assert(ext[k] == ch);
        }
        lemma_dot_at(base, front);
    }
}

/// A name is split at its last dot. What is in front of it is the stem, and the
/// file is a model where `gguf` stands behind it, in whatever case.
pub proof fn lemma_extension(base: Seq<char>, ext: Seq<char>)
    requires
        base.len() > 0,
        !ext.contains('.'),
        base + seq!['.'] + ext != ".."@,
    ensures
        stem(base + seq!['.'] + ext) == base,
        is_gguf(base + seq!['.'] + ext) == (ext.len() == 4 && (ext[0] == 'g' || ext[0] == 'G') && (ext[1] == 'g' || ext[1]
            == 'G') && (ext[2] == 'u' || ext[2] == 'U') && (ext[3] == 'f' || ext[3] == 'F')),
{
    let name = base + seq!['.'] + ext;
    lemma_dot_at(base, ext);
    assert(name.take(base.len() as int) =~= base);
    assert(name.skip(base.len() as int + 1) =~= ext);
    let lower = ext.map_values(|c: char| crate::lmstudio::ascii_lower(c));
    if ext.len() == 4 {
        if lower == seq!['g', 'g', 'u', 'f'] {
            assert(lower[0] == 'g' && lower[1] == 'g' && lower[2] == 'u' && lower[3] == 'f');
        }
        if (ext[0] == 'g' || ext[0] == 'G') && (ext[1] == 'g' || ext[1] == 'G') && (ext[2] == 'u' || ext[2] == 'U') && (
        ext[3] == 'f' || ext[3] == 'F') {
            assert(lower =~= seq!['g', 'g', 'u', 'f']);
        }
    } else {
        assert(lower.len() != seq!['g', 'g', 'u', 'f'].len());
    }
}

proof fn lemma_no_dot(name: Seq<char>)
    requires
        forall|i: int| 0 < i < name.len() ==> #[trigger] name[i] != '.',
    ensures
        last_dot(name) < 0,
    decreases name.len(),
{
    if name.len() > 1 {
        assert(name.last() == name[name.len() - 1]);
        lemma_no_dot(name.drop_last());
    }
}

/// A name without a dot behind its first character is its own stem and no model.
pub proof fn lemma_no_extension(name: Seq<char>)
    requires
        forall|i: int| 0 < i < name.len() ==> #[trigger] name[i] != '.',
    ensures
        stem(name) == name,
        !is_gguf(name),
{
    lemma_no_dot(name);
}

/// The id of a model under a root is its path below the root, with slashes and
/// without the extension.
pub proof fn lemma_model_id(root: Seq<Seq<char>>, dirs: Seq<Seq<char>>, base: Seq<char>, ext: Seq<char>)
    requires
        base.len() > 0,
        !ext.contains('.'),
        base + seq!['.'] + ext != ".."@,
    ensures
        dirs.len() > 0 ==> id_of(root, root + dirs + seq![base + seq!['.'] + ext]) == joined(dirs, "/"@) + "/"@ + base,
        dirs.len() == 0 ==> id_of(root, root + dirs + seq![base + seq!['.'] + ext]) == base,
{
    let name = base + seq!['.'] + ext;
    let path = root + dirs + seq![name];
    lemma_extension(base, ext);
    assert(path.take(root.len() as int) =~= root);
    let parts = path.skip(root.len() as int);
    assert(parts =~= dirs + seq![name]);
    assert(parts.drop_last().push(stem(parts.last())) =~= dirs + seq![base]);
    if dirs.len() > 0 {
        lemma_joining(dirs, seq![base], "/"@);
    } else {
        assert(dirs + seq![base] =~= seq![base]);
    }
}

/// Links are passed over, directories are entered, and of the other entries the
/// models are taken.
pub proof fn lemma_visits(symlink: bool, directory: bool, name: Seq<char>)
    ensures
        symlink ==> visit_of(symlink, directory, name) == Visit::Skip,
        !symlink && directory ==> visit_of(symlink, directory, name) == Visit::Descend,
        !symlink && !directory ==> (visit_of(symlink, directory, name) == Visit::Take) == is_gguf(name),
        visit_of(symlink, directory, name) == Visit::Descend ==> directory,
{
}

/// The directories that are searched exist, come in the order in which they were
/// named, and none comes twice in a row; none that exists is left out.
pub proof fn lemma_searched_dirs(paths: Seq<Vec<u8>>, exist: Seq<bool>, n: nat)
    requires
        n <= paths.len(),
        n <= exist.len(),
        n <= usize::MAX,
    ensures
        forall|k: int|
            0 <= k < kept_dirs(paths, exist, n).len() ==> #[trigger] kept_dirs(paths, exist, n)[k] < n
                && exist[kept_dirs(paths, exist, n)[k] as int],
        forall|k: int|
            0 < k < kept_dirs(paths, exist, n).len() ==> kept_dirs(paths, exist, n)[k - 1] < #[trigger] kept_dirs(
                paths,
                exist,
                n,
            )[k] && paths[kept_dirs(paths, exist, n)[k - 1] as int]@ != paths[kept_dirs(paths, exist, n)[k] as int]@,
        forall|i: int|
            0 <= i < n && #[trigger] exist[i] ==> exists|k: int|
                0 <= k < kept_dirs(paths, exist, n).len() && paths[#[trigger] kept_dirs(paths, exist, n)[k] as int]@
                    == paths[i]@,
    decreases n,
{
    if n > 0 {
        let m = (n - 1) as nat;
        lemma_searched_dirs(paths, exist, m);
        let before = kept_dirs(paths, exist, m);
        let now = kept_dirs(paths, exist, n);
        assert forall|i: int| 0 <= i < n && #[trigger] exist[i] implies exists|k: int|
            0 <= k < now.len() && paths[#[trigger] now[k] as int]@ == paths[i]@ by {
            if i < m {
                let k = choose|k: int| 0 <= k < before.len() && paths[#[trigger] before[k] as int]@ == paths[i]@;
                assert(now[k] == before[k]);
            } else if before.len() > 0 && paths[before.last() as int]@ == paths[m as int]@ {
                assert(now[before.len() - 1] == before.last());
            } else {
                assert(now[before.len() as int] == m);
            }
        }
    }
}

// ---------------------------------------------------------------------- counts

/// The parameters of a file are the elements of its tensors together.
pub proof fn lemma_parameters(tensors: Seq<TensorView>, t: TensorView)
    requires
        product(t.dims) is Some,
    ensures
        total_elements(tensors.push(t), tensors.len() + 1) == total_elements(tensors, tensors.len()) + volume(t.dims),
        total_elements(tensors, 0) == 0,
{
    crate::format::lemma_element_count(t.dims);
    lemma_same_total(tensors, t, tensors.len());
}

proof fn lemma_same_total(tensors: Seq<TensorView>, t: TensorView, n: nat)
    requires
        n <= tensors.len(),
    ensures
        total_elements(tensors.push(t), n) == total_elements(tensors, n),
    decreases n,
{
    if n > 0 {
        lemma_same_total(tensors, t, (n - 1) as nat);
    }
}

/// A tensor counts once, and its bytes once, and only for its own type.
pub proof fn lemma_histogram_counts(tensors: Seq<TensorView>, t: TensorView, ty: GgmlType)
    ensures
        ({
            let (now, n) = (tensors.push(t), tensors.len());
            &&& t.ty == ty ==> count_of(now, ty, n + 1) == count_of(tensors, ty, n) + 1
            &&& t.ty != ty ==> count_of(now, ty, n + 1) == count_of(tensors, ty, n)
            &&& t.ty == ty ==> bytes_of(now, ty, n + 1) == bytes_of(tensors, ty, n) + (match t.byte_len {
                Some(len) => len as nat,
                None => 0,
            })
            &&& t.ty != ty ==> bytes_of(now, ty, n + 1) == bytes_of(tensors, ty, n)
            &&& count_of(tensors, ty, 0) == 0 && bytes_of(tensors, ty, 0) == 0
        }),
{
    lemma_same_counts(tensors, t, ty, tensors.len());
}

proof fn lemma_same_counts(tensors: Seq<TensorView>, t: TensorView, ty: GgmlType, n: nat)
    requires
        n <= tensors.len(),
    ensures
        count_of(tensors.push(t), ty, n) == count_of(tensors, ty, n),
        bytes_of(tensors.push(t), ty, n) == bytes_of(tensors, ty, n),
    decreases n,
{
    if n > 0 {
        lemma_same_counts(tensors, t, ty, (n - 1) as nat);
    }
}

/// A histogram lists every type that occurs once, the one with the most bytes
/// first, each with its own count and its own bytes.
pub proof fn lemma_histogram_descends(tensors: Seq<TensorView>, rows: Seq<(GgmlType, u64, u64)>, k: int, l: int)
    requires
        is_histogram(tensors, rows),
        0 <= k < l < rows.len(),
    ensures
        rows[k].0 != rows[l].0,
        bytes_of(tensors, rows[k].0, tensors.len()) >= bytes_of(tensors, rows[l].0, tensors.len()),
        rows[k].1 == count_of(tensors, rows[k].0, tensors.len()),
        rows[k].2 == bytes_of(tensors, rows[k].0, tensors.len()),
        rows[k].1 > 0,
        forall|i: int|
            0 <= i < tensors.len() ==> exists|r: int| 0 <= r < rows.len() && rows[r].0 == (#[trigger] tensors[i]).ty,
{
    assert(rows[k].2 >= rows[l].2);
    assert forall|i: int| 0 <= i < tensors.len() implies exists|r: int|
        0 <= r < rows.len() && rows[r].0 == (#[trigger] tensors[i]).ty by {
        assert(crate::gguf::lists(rows, tensors[i].ty));
    }
}

/// A run ends exactly at the end token. Any other token is kept: it is the last
/// one where as many as wanted are there or the context is full, and else the
/// run goes on at the position right behind it.
pub proof fn lemma_verdicts(g: Generation, token: u32)
    requires
        g.prompt + g.produced < usize::MAX,
    ensures
        (verdict_of(g, token) == Verdict::End) == (g.eos is Some && g.eos->Some_0 == token),
        verdict_of(g, token) matches Verdict::Go { position } ==> position == g.prompt + g.produced && position < g.context
            && g.produced + 2 <= g.wanted,
        verdict_of(g, token) == Verdict::Last ==> g.wanted <= g.produced + 1 || g.context <= g.prompt + g.produced,
{
}

// --------------------------------------------------------------------- finding

/// A query means the one model whose id has it as a part, whatever the case of
/// either; it is refused where there is none or more than one.
pub proof fn lemma_query_means_one(query: Seq<char>, models: Seq<Model>, dirs: Seq<Seq<char>>, i: usize)
    requires
        models.len() <= usize::MAX,
    ensures
        resolve_of(query, models, dirs) == Ok::<usize, ErrorView>(i) <==> (i < models.len() && occurs(
            lowercase(models[i as int].id@),
            lowercase(query),
        ) && forall|j: int|
            0 <= j < models.len() && j != i ==> !occurs(lowercase((#[trigger] models[j]).id@), lowercase(query))),
        resolve_of(query, models, dirs) matches Err(e) ==> e.kind == ErrorKind::NotFound || e.kind
            == ErrorKind::InvalidInput,
        models.len() == 0 ==> (resolve_of(query, models, dirs) matches Err(e) && e.kind == ErrorKind::NotFound),
{
    let folded = folded_ids(models);
    lemma_single_is_unique(quoted(query), lowercase(query), folded, models, dirs, i);
    assert forall|j: int| 0 <= j < models.len() implies folded[j] == lowercase((#[trigger] models[j]).id@) by {}
    if forall|j: int|
        0 <= j < models.len() && j != i ==> !occurs(lowercase((#[trigger] models[j]).id@), lowercase(query)) {
        assert forall|j: int| 0 <= j < models.len() && j != i implies !occurs(#[trigger] folded[j], lowercase(query)) by {
            assert(folded[j] == lowercase(models[j].id@));
        }
    }
    if resolve_of(query, models, dirs) == Ok::<usize, ErrorView>(i) {
        assert forall|j: int| 0 <= j < models.len() && j != i implies !occurs(
            lowercase((#[trigger] models[j]).id@),
            lowercase(query),
        ) by {
            assert(!occurs(folded[j], lowercase(query)));
        }
        assert(occurs(folded[i as int], lowercase(query)));
    }
}

// -------------------------------------------------------------------- printing

/// A whole number is printed in decimal digits that spell it, a negative one
/// with a minus sign in front.
pub proof fn lemma_printed_numbers(n: int)
    ensures
        n >= 0 ==> spelled_number(signed_decimal(n)) == n,
        n < 0 ==> signed_decimal(n).len() > 1 && signed_decimal(n)[0] == '-' && spelled_number(signed_decimal(n).skip(1))
            == -n,
{
    reveal_strlit("-");
    if n < 0 {
        lemma_decimal_spells((-n) as nat);
        assert(signed_decimal(n).skip(1) =~= decimal((-n) as nat));
    } else {
        lemma_decimal_spells(n as nat);
    }
}

/// Numbers and flags are printed as they are. A text of up to 120 bytes is
/// printed whole; a longer one is cut off after 117 characters, or where it ends,
/// and gets three dots.
pub proof fn lemma_printed_values(value: ValueView)
    ensures
        match value {
            ValueView::U8(v) => shown(value) == seq![PieceView::Text(signed_decimal(v as int))],
            ValueView::I8(v) => shown(value) == seq![PieceView::Text(signed_decimal(v as int))],
            ValueView::U16(v) => shown(value) == seq![PieceView::Text(signed_decimal(v as int))],
            ValueView::I16(v) => shown(value) == seq![PieceView::Text(signed_decimal(v as int))],
            ValueView::U32(v) => shown(value) == seq![PieceView::Text(signed_decimal(v as int))],
            ValueView::I32(v) => shown(value) == seq![PieceView::Text(signed_decimal(v as int))],
            ValueView::U64(v) => shown(value) == seq![PieceView::Text(signed_decimal(v as int))],
            ValueView::I64(v) => shown(value) == seq![PieceView::Text(signed_decimal(v as int))],
            ValueView::F32(v) => shown(value) == seq![PieceView::F32(v)],
            ValueView::F64(v) => shown(value) == seq![PieceView::F64(v)],
            ValueView::Bool(v) => shown(value).len() == 1 && (v ==> shown(value)[0] == PieceView::Text("true"@)) && (!v
                ==> shown(value)[0] == PieceView::Text("false"@)),
            ValueView::Text(s) => {
                &&& encode_utf8(s).len() <= 120 ==> shown(value) == seq![PieceView::Text(s)]
                &&& encode_utf8(s).len() > 120 && s.len() > 117 ==> shown(value) == seq![
                    PieceView::Text(s.take(117) + "..."@),
                ]
                &&& encode_utf8(s).len() > 120 && s.len() <= 117 ==> shown(value) == seq![PieceView::Text(s + "..."@)]
            },
            ValueView::List(_) => shown(value).len() > 1 && shown(value)[0] == PieceView::Text("["@) && shown(value).last()
                == PieceView::Text("]"@),
        },
{
    if let ValueView::Text(s) = value {
        assert(s.take(s.len() as int) =~= s);
    }
}

/// A list of up to six items is printed whole, in brackets and with commas; of a
/// longer one the first six are printed, and how many there are.
pub proof fn lemma_printed_lists(items: Seq<ValueView>, k: nat)
    ensures
        items.len() <= 6 ==> shown(ValueView::List(items)) == seq![PieceView::Text("["@)] + shown_items(items, items.len())
            + seq![PieceView::Text("]"@)],
        items.len() > 6 ==> shown(ValueView::List(items)) == seq![PieceView::Text("["@)] + shown_items(items, 6) + seq![
            PieceView::Text(", ... "@ + decimal(items.len()) + " total"@),
        ] + seq![PieceView::Text("]"@)],
        items.len() > 0 ==> shown_items(items, 1) == shown(items[0]),
        0 < k < items.len() ==> shown_items(items, k + 1) == shown_items(items, k) + seq![PieceView::Text(", "@)] + shown(
            items[k as int],
        ),
{
    reveal_with_fuel(shown, 2);
    reveal_with_fuel(shown_items, 2);
    let open = seq![PieceView::Text("["@)];
    let close = seq![PieceView::Text("]"@)];
    if items.len() <= 6 {
        assert(shown(ValueView::List(items)) =~= open + shown_items(items, items.len()) + close);
    }
    if items.len() > 0 {
        assert(shown_items(items, 0) =~= Seq::empty());
        assert(shown_items(items, 1) =~= shown(items[0]));
    }
}

} // verus!
