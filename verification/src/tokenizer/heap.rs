//! A priority queue of candidate merges.

use vstd::multiset::Multiset;
use vstd::prelude::*;
use vstd::seq_lib::{to_multiset_build, to_multiset_contains, to_multiset_len, to_multiset_update};

use crate::float;

verus! {

/// Two neighbours that make a token together.
#[derive(Clone, Copy, Debug)]
pub struct Candidate {
    pub left: usize,
    pub right: usize,
    /// The token's score, as the bits of an `f32`.
    pub score: u32,
    /// Combined length when queued, used to detect stale entries.
    pub size: usize,
}

/// Whether `a` comes out before `b`, or could as well: highest score first;
/// ties go to the leftmost pair.
pub open spec fn leads(a: Candidate, b: Candidate) -> bool {
    float::total_rank(a.score) > float::total_rank(b.score) || (float::total_rank(a.score) == float::total_rank(
        b.score,
    ) && a.left <= b.left)
}

fn is_ahead(a: &Candidate, b: &Candidate) -> (yes: bool)
    ensures
        yes == leads(*a, *b),
{
    let x: i64 = float::total_order(a.score);
    let y: i64 = float::total_order(b.score);
    x > y || (x == y && a.left <= b.left)
}

/// A binary heap: every entry leads its children.
pub struct Heap {
    items: Vec<Candidate>,
}

spec fn parent(i: int) -> int {
    (i - 1) / 2
}

spec fn ordered_at(s: Seq<Candidate>, j: int) -> bool {
    leads(s[parent(j)], s[j])
}

impl Heap {
    /// Every entry leads its children.
    pub closed spec fn wf(&self) -> bool {
        forall|j: int| 0 < j < self.items@.len() ==> #[trigger] ordered_at(self.items@, j)
    }
}

impl View for Heap {
    type V = Multiset<Candidate>;

    closed spec fn view(&self) -> Multiset<Candidate> {
        self.items@.to_multiset()
    }
}

proof fn lemma_root_leads(s: Seq<Candidate>, i: int)
    requires
        0 <= i < s.len(),
        forall|j: int| 0 < j < s.len() ==> #[trigger] ordered_at(s, j),
    ensures
        leads(s[0], s[i]),
    decreases i,
{
    if i > 0 {
        assert(ordered_at(s, i));
        lemma_root_leads(s, parent(i));
    }
}

proof fn lemma_swap(s: Seq<Candidate>, i: int, j: int)
    requires
        0 <= i < s.len(),
        0 <= j < s.len(),
    ensures
        s.update(i, s[j]).update(j, s[i]).to_multiset() == s.to_multiset(),
{
    to_multiset_update(s, i, s[j]);
    to_multiset_update(s.update(i, s[j]), j, s[i]);
    to_multiset_contains(s, s[i]);
    to_multiset_contains(s, s[j]);
    assert(s.update(i, s[j]).update(j, s[i]).to_multiset() =~= s.to_multiset());
}

impl Heap {
    /// An empty queue.
    pub fn new() -> (heap: Self)
        ensures
            heap.wf(),
            heap@ == Multiset::<Candidate>::empty(),
    {
        let heap = Heap { items: Vec::new() };
        proof {
            to_multiset_len(heap.items@);
            assert(heap@ =~= Multiset::<Candidate>::empty());
        }
        heap
    }

    fn swap(&mut self, i: usize, j: usize)
        requires
            i < old(self).items@.len(),
            j < old(self).items@.len(),
        ensures
            final(self).items@ == old(self).items@.update(i as int, old(self).items@[j as int]).update(
                j as int,
                old(self).items@[i as int],
            ),
            final(self)@ == old(self)@,
    {
        let a = self.items[i];
        let b = self.items[j];
        proof {
            lemma_swap(self.items@, i as int, j as int);
        }
        self.items[i] = b;
        self.items[j] = a;
    }

    /// Adds a candidate.
    pub fn push(&mut self, c: Candidate)
        requires
            old(self).wf(),
        ensures
            final(self).wf(),
            final(self)@ == old(self)@.insert(c),
    {
        let ghost before = self.items@;
        self.items.push(c);
        proof {
            to_multiset_build(before, c);
        }
        let mut i: usize = self.items.len() - 1;
        proof {
            assert forall|j: int| 0 < j < self.items@.len() && j != i implies #[trigger] ordered_at(self.items@, j) by {
                assert(ordered_at(before, j));
            }
        }
        while i > 0
            invariant_except_break
                i < self.items@.len(),
                forall|j: int| 0 < j < self.items@.len() && j != i ==> #[trigger] ordered_at(self.items@, j),
                forall|k: int|
                    0 < i < k < self.items@.len() && parent(k) == i ==> #[trigger] leads(
                        self.items@[parent(i as int)],
                        self.items@[k],
                    ),
            invariant
                self@ == old(self)@.insert(c),
            ensures
                forall|j: int| 0 < j < self.items@.len() ==> #[trigger] ordered_at(self.items@, j),
            decreases i,
        {
            let p: usize = (i - 1) / 2;
            assert(p == parent(i as int));
            if is_ahead(&self.items[p], &self.items[i]) {
                assert(ordered_at(self.items@, i as int));
                break;
            }
            let ghost s = self.items@;
            self.swap(p, i);
            proof {
                let t = self.items@;
                assert forall|j: int| 0 < j < t.len() && j != p implies #[trigger] ordered_at(t, j) by {
                    if j == i {
                    } else if parent(j) == i {
                        assert(leads(s[parent(i as int)], s[j]));
                    } else if parent(j) == p {
                        assert(ordered_at(s, j));
                    } else {
                        assert(ordered_at(s, j));
                    }
                }
                assert forall|k: int| 0 < p < k < t.len() && parent(k) == p implies #[trigger] leads(
                    t[parent(p as int)],
                    t[k],
                ) by {
                    assert(ordered_at(s, p as int));
                    if k != i {
                        assert(ordered_at(s, k));
                    }
                }
            }
            i = p;
        }
    }

    /// Takes out a candidate that leads all others.
    pub fn pop(&mut self) -> (top: Option<Candidate>)
        requires
            old(self).wf(),
        ensures
            final(self).wf(),
            match top {
                Some(c) => old(self)@ == final(self)@.insert(c) && forall|x: Candidate| #[trigger]
                    old(self)@.count(x) > 0 ==> leads(c, x),
                None => old(self)@ == Multiset::<Candidate>::empty(),
            },
    {
        let ghost whole = self.items@;
        proof {
            assert forall|x: Candidate| #[trigger] old(self)@.count(x) > 0 implies leads(whole[0], x) by {
                to_multiset_contains(whole, x);
                let i = choose|i: int| 0 <= i < whole.len() && whole[i] == x;
                lemma_root_leads(whole, i);
            }
        }
        let last = match self.items.pop() {
            Some(c) => c,
            None => {
                proof {
                    to_multiset_len(whole);
                    assert(old(self)@ =~= Multiset::<Candidate>::empty());
                }
                return None;
            },
        };
        let ghost rest = self.items@;
        proof {
            assert(whole =~= rest.push(last));
            to_multiset_build(rest, last);
        }
        if self.items.len() == 0 {
            return Some(last);
        }
        let top = self.items[0];
        self.items[0] = last;
        proof {
            to_multiset_update(rest, 0, last);
            to_multiset_contains(rest, top);
            assert(old(self)@ =~= self@.insert(top));
            assert forall|j: int| 0 < j < self.items@.len() && parent(j) != 0 implies #[trigger] ordered_at(self.items@, j) by {
                assert(ordered_at(whole, j));
            }
        }
        self.sift_down();
        Some(top)
    }

    fn sift_down(&mut self)
        requires
            old(self).items@.len() > 0,
            forall|j: int|
                0 < j < old(self).items@.len() && parent(j) != 0 ==> #[trigger] ordered_at(old(self).items@, j),
        ensures
            final(self).wf(),
            final(self)@ == old(self)@,
    {
        let n: usize = self.items.len();
        let mut i: usize = 0;
        loop
            invariant_except_break
                i < n,
                forall|j: int| 0 < j < n && parent(j) != i ==> #[trigger] ordered_at(self.items@, j),
                forall|k: int|
                    0 < i < k < n && parent(k) == i ==> #[trigger] leads(self.items@[parent(i as int)], self.items@[k]),
            invariant
                n == self.items@.len(),
                self@ == old(self)@,
            ensures
                forall|j: int| 0 < j < self.items@.len() ==> #[trigger] ordered_at(self.items@, j),
            decreases n - i,
        {
            if i >= n / 2 {
                // No children.
                break;
            }
            let l: usize = 2 * i + 1;
            let r: usize = l + 1;
            let c: usize = if r < n && !is_ahead(&self.items[l], &self.items[r]) { r } else { l };
            assert(forall|j: int| 0 < j < n && parent(j) == i ==> j == l || j == r);
            if is_ahead(&self.items[i], &self.items[c]) {
                assert forall|j: int| 0 < j < n implies #[trigger] ordered_at(self.items@, j) by {
                    if parent(j) == i {
                        assert(leads(self.items@[c as int], self.items@[j]));
                    }
                }
                break;
            }
            let ghost s = self.items@;
            self.swap(i, c);
            proof {
                let t = self.items@;
                assert forall|j: int| 0 < j < n && parent(j) != c implies #[trigger] ordered_at(t, j) by {
                    if j == i {
                        assert(leads(s[parent(i as int)], s[c as int]));
                    } else if parent(j) == i {
                        assert(leads(s[c as int], s[j]));
                    } else {
                        assert(ordered_at(s, j));
                    }
                }
                assert forall|k: int| 0 < c < k < n && parent(k) == c implies #[trigger] leads(
                    t[parent(c as int)],
                    t[k],
                ) by {
                    assert(ordered_at(s, k));
                }
            }
            i = c;
        }
    }
}

} // verus!
