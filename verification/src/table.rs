//! A table of values ordered by key.

use vstd::prelude::*;

use crate::text::{self, text_lt};
use crate::value::{Value, ValueView};

verus! {

/// Metadata: values under names, walked in the order of the names.
pub struct Table {
    entries: Vec<(String, Value)>,
}

/// Whether entry `i` goes by the name `key`.
pub open spec fn named(pairs: Seq<(Seq<char>, ValueView)>, key: Seq<char>, i: int) -> bool {
    0 <= i < pairs.len() && pairs[i].0 == key
}

/// The map that pairs without repeated keys stand for.
pub open spec fn map_of(pairs: Seq<(Seq<char>, ValueView)>) -> Map<Seq<char>, ValueView> {
    Map::new(
        |key: Seq<char>| exists|i: int| named(pairs, key, i),
        |key: Seq<char>| pairs[choose|i: int| named(pairs, key, i)].1,
    )
}

/// Whether the keys ascend.
pub open spec fn ascending(pairs: Seq<(Seq<char>, ValueView)>) -> bool {
    forall|i: int, j: int| 0 <= i < j < pairs.len() ==> text_lt(#[trigger] pairs[i].0, #[trigger] pairs[j].0)
}

proof fn lemma_named_once(pairs: Seq<(Seq<char>, ValueView)>, key: Seq<char>, i: int)
    requires
        ascending(pairs),
        named(pairs, key, i),
    ensures
        map_of(pairs).contains_key(key),
        map_of(pairs)[key] == pairs[i].1,
{
    let j = choose|j: int| named(pairs, key, j);
    text::lemma_text_lt_irreflexive(key);
    if i < j {
        assert(text_lt(pairs[i].0, pairs[j].0));
    } else if j < i {
        assert(text_lt(pairs[j].0, pairs[i].0));
    }
}

impl Table {
    /// The pairs of the table, in order.
    pub closed spec fn pairs(&self) -> Seq<(Seq<char>, ValueView)> {
        self.entries@.map_values(|e: (String, Value)| (e.0@, e.1@))
    }

    /// The keys ascend.
    pub open spec fn wf(&self) -> bool {
        ascending(self.pairs())
    }
}

impl View for Table {
    type V = Map<Seq<char>, ValueView>;

    open spec fn view(&self) -> Map<Seq<char>, ValueView> {
        map_of(self.pairs())
    }
}

impl Table {
    /// An empty table.
    pub fn new() -> (table: Self)
        ensures
            table.wf(),
            table@ == Map::<Seq<char>, ValueView>::empty(),
    {
        let table = Table { entries: Vec::new() };
        proof {
            assert(table.pairs() =~= Seq::empty());
            assert(table@ =~= Map::<Seq<char>, ValueView>::empty());
        }
        table
    }

    /// How many entries there are.
    pub fn len(&self) -> (n: usize)
        ensures
            n == self.pairs().len(),
    {
        self.entries.len()
    }

    /// The entry at a position in the order of keys.
    pub fn entry(&self, i: usize) -> (entry: (&str, &Value))
        requires
            i < self.pairs().len(),
        ensures
            (entry.0@, entry.1@) == self.pairs()[i as int],
    {
        (self.entries[i].0.as_str(), &self.entries[i].1)
    }

    /// The position of the first entry whose key does not precede `key`.
    fn lower_bound(&self, key: &str) -> (p: usize)
        requires
            self.wf(),
        ensures
            p <= self.pairs().len(),
            forall|i: int| 0 <= i < p ==> text_lt(#[trigger] self.pairs()[i].0, key@),
            forall|i: int| p <= i < self.pairs().len() ==> !text_lt(#[trigger] self.pairs()[i].0, key@),
    {
        let mut lo: usize = 0;
        let mut hi: usize = self.entries.len();
        while lo < hi
            invariant
                self.wf(),
                lo <= hi <= self.pairs().len() == self.entries@.len(),
                forall|i: int| 0 <= i < lo ==> text_lt(#[trigger] self.pairs()[i].0, key@),
                forall|i: int| hi <= i < self.pairs().len() ==> !text_lt(#[trigger] self.pairs()[i].0, key@),
            decreases hi - lo,
        {
            let mid: usize = lo + (hi - lo) / 2;
            let ghost pairs = self.pairs();
            assert(pairs[mid as int].0 == self.entries@[mid as int].0@);
            if text::str_lt(self.entries[mid].0.as_str(), key) {
                proof {
                    assert forall|i: int| 0 <= i < mid + 1 implies text_lt(#[trigger] pairs[i].0, key@) by {
                        if i < mid {
                            text::lemma_text_lt_transitive(pairs[i].0, pairs[mid as int].0, key@);
                        }
                    }
                }
                lo = mid + 1;
            } else {
                proof {
                    assert forall|i: int| mid <= i < pairs.len() implies !text_lt(#[trigger] pairs[i].0, key@) by {
                        if mid < i && text_lt(pairs[i].0, key@) {
                            text::lemma_text_lt_transitive(pairs[mid as int].0, pairs[i].0, key@);
                        }
                    }
                }
                hi = mid;
            }
        }
        lo
    }

    /// The value under a key.
    pub fn get(&self, key: &str) -> (found: Option<&Value>)
        requires
            self.wf(),
        ensures
            match found {
                Some(value) => self@.contains_key(key@) && value@ == self@[key@],
                None => !self@.contains_key(key@),
            },
    {
        let p: usize = self.lower_bound(key);
        let ghost pairs = self.pairs();
        if p < self.entries.len() {
            assert(pairs[p as int] == (self.entries@[p as int].0@, self.entries@[p as int].1@));
            if text::str_eq(self.entries[p].0.as_str(), key) {
                proof {
                    lemma_named_once(pairs, key@, p as int);
                }
                return Some(&self.entries[p].1);
            }
        }
        proof {
            if self@.contains_key(key@) {
                let i = choose|i: int| named(pairs, key@, i);
                text::lemma_text_lt_irreflexive(key@);
                assert(pairs[i].0 == key@);
                assert(p < i);
                assert(text_lt(pairs[p as int].0, pairs[i].0));
            }
        }
        None
    }

    /// Puts a value under a key, in place of one that was there.
    pub fn insert(&mut self, key: String, value: Value)
        requires
            old(self).wf(),
        ensures
            final(self).wf(),
            final(self)@ == old(self)@.insert(key@, value@),
    {
        let p: usize = self.lower_bound(key.as_str());
        let ghost before = self.pairs();
        let ghost k = key@;
        let ghost v = value@;
        proof {
            if p < before.len() {
                assert(before[p as int].0 == self.entries@[p as int].0@);
                text::lemma_text_lt_total(before[p as int].0, k);
            }
        }
        if p < self.entries.len() && text::str_eq(self.entries[p].0.as_str(), key.as_str()) {
            self.entries[p] = (key, value);
            proof {
                assert(self.pairs() =~= before.update(p as int, (k, v)));
                assert forall|i: int, j: int| 0 <= i < j < self.pairs().len() implies text_lt(
                    #[trigger] self.pairs()[i].0,
                    #[trigger] self.pairs()[j].0,
                ) by {
                    assert(text_lt(before[i].0, before[j].0));
                }
            }
        } else {
            self.entries.insert(p, (key, value));
            proof {
                let after = self.pairs();
                assert(after =~= before.insert(p as int, (k, v)));
                assert forall|i: int, j: int| 0 <= i < j < after.len() implies text_lt(
                    #[trigger] after[i].0,
                    #[trigger] after[j].0,
                ) by {
                    let i0 = if i < p { i } else { i - 1 };
                    let j0 = if j < p { j } else { j - 1 };
                    if i != p && j != p {
                        assert(text_lt(before[i0].0, before[j0].0));
                    } else if j == p {
                        assert(text_lt(before[i].0, k));
                    } else {
                        assert(text_lt(k, before[p as int].0));
                        if p < j0 {
                            assert(text_lt(before[p as int].0, before[j0].0));
                            text::lemma_text_lt_transitive(k, before[p as int].0, before[j0].0);
                        }
                    }
                }
            }
        }
        proof {
            let after = self.pairs();
            assert(after[p as int] == (k, v));
            assert forall|q: Seq<char>| #[trigger] map_of(after).contains_key(q) == map_of(before).insert(k, v).contains_key(q) by {
                if q == k {
                    assert(named(after, k, p as int));
                } else {
                    if map_of(before).contains_key(q) {
                        let i = choose|i: int| named(before, q, i);
                        let i1 = if after.len() > before.len() && i >= p { i + 1 } else { i };
                        assert(named(after, q, i1));
                    }
                    if map_of(after).contains_key(q) {
                        let i = choose|i: int| named(after, q, i);
                        let i0 = if after.len() > before.len() && i > p { i - 1 } else { i };
                        assert(named(before, q, i0));
                    }
                }
            }
            assert forall|q: Seq<char>| #[trigger] map_of(after).contains_key(q) implies map_of(after)[q] == map_of(before).insert(k, v)[q] by {
                let i = choose|i: int| named(after, q, i);
                lemma_named_once(after, q, i);
                if q == k {
                    assert(named(after, k, p as int));
                    lemma_named_once(after, k, p as int);
                } else {
                    let i0 = if after.len() > before.len() && i > p { i - 1 } else { i };
                    assert(named(before, q, i0));
                    lemma_named_once(before, q, i0);
                }
            }
            assert(map_of(after) =~= map_of(before).insert(k, v));
        }
    }
}

} // verus!
