//! The priority frontier: a binary heap of entries, least first.

use vstd::prelude::*;
use vstd::multiset::group_multiset_axioms;
use vstd::seq_lib::{to_multiset_build, to_multiset_remove, to_multiset_update};
use crate::cost::Paces;
use crate::point::Point;
use crate::surd::{lemma_le_antisymmetric, lemma_le_total, lemma_lt_le_transitive};

verus! {

/// A cell on the frontier: its priority and the place of its node in the
/// graph.
#[derive(Clone, Copy, Debug, PartialEq, Eq, Structural)]
pub struct Entry {
    pub key: Paces,
    pub cell: Point,
    pub node: usize,
}

/// `a` does not come after `b`: its key is less, or the keys are equal
/// and its cell does not come after that of `b` by `x`, then by `y`.
pub open spec fn entry_le(a: Entry, b: Entry) -> bool {
    a.key@.lt(b.key@) || (a.key == b.key && !b.cell.lex_lt(a.cell))
}

/// In a heap no entry comes before the one at half its place.
pub open spec fn heap_ordered(s: Seq<Entry>) -> bool {
    forall|i: int| 1 <= i < s.len() ==> entry_le(s[(i - 1) / 2], #[trigger] s[i])
}

/// Of two entries one does not come after the other.
pub proof fn lemma_entry_le_total(a: Entry, b: Entry)
    ensures
        entry_le(a, b) || entry_le(b, a),
{
    lemma_le_total(a.key@, b.key@);
    if a.key@.le(b.key@) && b.key@.le(a.key@) {
        lemma_le_antisymmetric(a.key@, b.key@);
    }
}

/// An entry that does not come after a second, which does not come after a
/// third, does not come after the third.
pub proof fn lemma_entry_le_transitive(a: Entry, b: Entry, c: Entry)
    requires
        entry_le(a, b),
        entry_le(b, c),
    ensures
        entry_le(a, c),
{
    if a.key@.lt(b.key@) && b.key@.lt(c.key@) {
        lemma_le_total(b.key@, c.key@);
        lemma_lt_le_transitive(a.key@, b.key@, c.key@);
    }
}

/// The first entry of a heap comes after no entry of the heap.
pub proof fn lemma_root_is_least(s: Seq<Entry>, i: int)
    requires
        heap_ordered(s),
        0 <= i < s.len(),
    ensures
        entry_le(s[0], s[i]),
    decreases i,
{
    if i > 0 {
        lemma_root_is_least(s, (i - 1) / 2);
        lemma_entry_le_transitive(s[0], s[(i - 1) / 2], s[i]);
    }
}

/// Exchanging two entries keeps how often each entry occurs.
proof fn lemma_exchange(s: Seq<Entry>, i: int, j: int)
    requires
        0 <= i < s.len(),
        0 <= j < s.len(),
        i != j,
    ensures
        s.update(i, s[j]).update(j, s[i]).to_multiset() == s.to_multiset(),
{
    broadcast use group_multiset_axioms;

    let t = s.update(i, s[j]);
    s.to_multiset_ensures();
    to_multiset_update(s, i, s[j]);
    to_multiset_update(t, j, s[i]);
    assert(s.to_multiset().count(s[i]) > 0);
    assert(s.to_multiset().count(s[j]) > 0);
    assert(t.update(j, s[i]).to_multiset() =~= s.to_multiset());
}

/// Putting the last entry in the place of the first and dropping the last
/// place takes the first entry out once, and changes nothing else.
proof fn lemma_take_first(s: Seq<Entry>)
    requires
        s.len() > 0,
    ensures
        s.update(0, s.last()).drop_last().to_multiset().insert(s[0]) == s.to_multiset(),
{
    broadcast use group_multiset_axioms;

    let t = s.update(0, s.last());
    let last = s.len() - 1;
    s.to_multiset_ensures();
    to_multiset_update(s, 0, s.last());
    to_multiset_remove(t, last);
    assert(t.drop_last() =~= t.remove(last));
    assert(s.to_multiset().count(s[0]) > 0);
    assert(s.to_multiset().count(s[last]) > 0);
    assert(t.drop_last().to_multiset().insert(s[0]) =~= s.to_multiset());
}

/// Whether `a` does not come after `b`.
pub fn at_most(a: &Entry, b: &Entry) -> (r: bool)
    ensures
        r == entry_le(*a, *b),
{
    a.key.lt(&b.key) || (a.key == b.key && !b.cell.precedes(&a.cell))
}

/// A heap of entries.
pub struct Frontier {
    pub entries: Vec<Entry>,
}

impl Frontier {
    /// The entries are in heap order.
    pub open spec fn wf(&self) -> bool {
        heap_ordered(self.entries@)
    }

    /// The entry is in the heap.
    pub open spec fn has(&self, e: Entry) -> bool {
        self.entries@.contains(e)
    }

    /// A heap without entries.
    pub fn new() -> (f: Frontier)
        ensures
            f.wf(),
            f.entries@.len() == 0,
    {
        Frontier { entries: Vec::new() }
    }

    /// The number of entries.
    pub fn len(&self) -> (n: usize)
        ensures
            n == self.entries@.len(),
    {
        self.entries.len()
    }

    /// Adds an entry: it is there once more than before, and every other
    /// entry as often as before.
    pub fn push(&mut self, e: Entry)
        requires
            old(self).wf(),
        ensures
            final(self).wf(),
            final(self).entries@.to_multiset() == old(self).entries@.to_multiset().insert(e),
            final(self).entries@.len() == old(self).entries@.len() + 1,
            forall|x: Entry| final(self).has(x) <==> old(self).has(x) || x == e,
    {
        self.entries.push(e);
        proof {
            to_multiset_build(old(self).entries@, e);
        }
        let mut i: usize = self.entries.len() - 1;
        proof {
            let s = self.entries@;
            assert(s[i as int] == e);
            assert forall|x: Entry| s.contains(x) <==> old(self).entries@.contains(x) || x == e by {
                if old(self).entries@.contains(x) {
                    let k = choose|k: int|
                        0 <= k < old(self).entries@.len() && old(self).entries@[k] == x;
                    assert(s[k] == x);
                }
                if s.contains(x) {
                    let k = choose|k: int| 0 <= k < s.len() && s[k] == x;
                    if k < old(self).entries@.len() {
                        assert(old(self).entries@[k] == x);
                    }
                }
            }
        }
        while i > 0
            invariant
                i < self.entries@.len(),
                self.entries@.len() == old(self).entries@.len() + 1,
                self.entries@.to_multiset() == old(self).entries@.to_multiset().insert(e),
                forall|x: Entry| self.entries@.contains(x) <==> old(self).has(x) || x == e,
                forall|j: int|
                    1 <= j < self.entries@.len() && j != i ==> entry_le(
                        self.entries@[(j - 1) / 2],
                        #[trigger] self.entries@[j],
                    ),
                forall|j: int|
                    1 <= j < self.entries@.len() && (j - 1) / 2 == i && i > 0 ==> entry_le(
                        self.entries@[(i - 1) / 2],
                        #[trigger] self.entries@[j],
                    ),
            ensures
                heap_ordered(self.entries@),
            decreases i,
        {
            let parent: usize = (i - 1) / 2;
            let below = self.entries[i];
            let above = self.entries[parent];
            if at_most(&above, &below) {
                break ;
            }
            let ghost before = self.entries@;
            self.entries[i] = above;
            self.entries[parent] = below;
            proof {
                let after = self.entries@;
                lemma_entry_le_total(above, below);
                lemma_exchange(before, i as int, parent as int);
                assert(after =~= before.update(i as int, before[parent as int]).update(
                    parent as int,
                    before[i as int],
                ));
                assert forall|x: Entry| after.contains(x) <==> before.contains(x) by {
                    if before.contains(x) {
                        let k = choose|k: int| 0 <= k < before.len() && before[k] == x;
                        let to = if k == i {
                            parent as int
                        } else if k == parent {
                            i as int
                        } else {
                            k
                        };
                        assert(after[to] == x);
                    }
                    if after.contains(x) {
                        let k = choose|k: int| 0 <= k < after.len() && after[k] == x;
                        let from = if k == i {
                            parent as int
                        } else if k == parent {
                            i as int
                        } else {
                            k
                        };
                        assert(before[from] == x);
                    }
                }
                assert forall|j: int| 1 <= j < after.len() && j != parent implies entry_le(
                    after[(j - 1) / 2],
                    #[trigger] after[j],
                ) by {
                    if j == i {
                    } else if (j - 1) / 2 == i {
                        assert(entry_le(before[(i - 1) / 2], before[j]));
                    } else if (j - 1) / 2 == parent {
                        assert(entry_le(before[(j - 1) / 2], before[j]));
                        lemma_entry_le_transitive(below, above, before[j]);
                    } else {
                        assert(entry_le(before[(j - 1) / 2], before[j]));
                    }
                }
                assert forall|j: int|
                    1 <= j < after.len() && (j - 1) / 2 == parent && parent > 0 implies entry_le(
                    after[(parent - 1) / 2],
                    #[trigger] after[j],
                ) by {
                    assert(entry_le(before[(parent - 1) / 2], before[parent as int]));
                    if j != i {
                        assert(entry_le(before[(j - 1) / 2], before[j]));
                        lemma_entry_le_transitive(before[(parent - 1) / 2], above, before[j]);
                    }
                }
            }
            i = parent;
        }
    }

    /// Takes out an entry that comes after no other, if the heap has any:
    /// it is there once less than before, and every other entry as often as
    /// before.
    pub fn pop(&mut self) -> (least: Option<Entry>)
        requires
            old(self).wf(),
        ensures
            final(self).wf(),
            least is None <==> old(self).entries@.len() == 0,
            least is None ==> final(self).entries@ == old(self).entries@,
            least is Some ==> {
                &&& old(self).entries@.to_multiset() == final(self).entries@.to_multiset().insert(
                    least->0,
                )
                &&& old(self).has(least->0)
                &&& final(self).entries@.len() == old(self).entries@.len() - 1
                &&& forall|x: Entry| old(self).has(x) ==> entry_le(least->0, x)
                &&& forall|x: Entry| final(self).has(x) ==> old(self).has(x)
                &&& forall|x: Entry| old(self).has(x) && x != least->0 ==> final(self).has(x)
            },
    {
        if self.entries.len() == 0 {
            return None;
        }
        proof {
            assert forall|x: Entry| old(self).has(x) implies entry_le(old(self).entries@[0], x) by {
                let k = choose|k: int|
                    0 <= k < old(self).entries@.len() && old(self).entries@[k] == x;
                lemma_root_is_least(old(self).entries@, k);
            }
        }
        let least = self.entries.swap_remove(0);
        proof {
            let before = old(self).entries@;
            let after = self.entries@;
            let last = before.len() - 1;
            assert(before[0] == least);
            lemma_take_first(before);
            assert forall|x: Entry| after.contains(x) implies before.contains(x) by {
                let k = choose|k: int| 0 <= k < after.len() && after[k] == x;
                if k == 0 {
                    assert(before[last] == x);
                } else {
                    assert(before[k] == x);
                }
            }
            assert forall|x: Entry| before.contains(x) && x != least implies after.contains(x) by {
                let k = choose|k: int| 0 <= k < before.len() && before[k] == x;
                if k == last {
                    assert(after[0] == x);
                } else {
                    assert(after[k] == x);
                }
            }
            assert forall|j: int| 1 <= j < after.len() && (j - 1) / 2 != 0 implies entry_le(
                after[(j - 1) / 2],
                #[trigger] after[j],
            ) by {
                assert(entry_le(before[(j - 1) / 2], before[j]));
            }
        }
        let size: usize = self.entries.len();
        let mut i: usize = 0;
        while i < size / 2
            invariant
                size == self.entries@.len(),
                size == old(self).entries@.len() - 1,
                old(self).entries@.to_multiset() == self.entries@.to_multiset().insert(least),
                i < size || size == 0,
                forall|x: Entry| self.entries@.contains(x) ==> old(self).has(x),
                forall|x: Entry| old(self).has(x) && x != least ==> self.entries@.contains(x),
                forall|j: int|
                    1 <= j < self.entries@.len() && (j - 1) / 2 != i ==> entry_le(
                        self.entries@[(j - 1) / 2],
                        #[trigger] self.entries@[j],
                    ),
                forall|j: int|
                    1 <= j < self.entries@.len() && (j - 1) / 2 == i && i > 0 ==> entry_le(
                        self.entries@[(i - 1) / 2],
                        #[trigger] self.entries@[j],
                    ),
            ensures
                heap_ordered(self.entries@),
            decreases size - i,
        {
            let left: usize = 2 * i + 1;
            let mut child: usize = left;
            if left + 1 < size {
                let a = self.entries[left];
                let b = self.entries[left + 1];
                proof {
                    lemma_entry_le_total(a, b);
                }
                if !at_most(&a, &b) {
                    child = left + 1;
                }
            }
            let above = self.entries[i];
            let below = self.entries[child];
            if at_most(&above, &below) {
                proof {
                    let s = self.entries@;
                    assert forall|j: int| 1 <= j < s.len() implies entry_le(
                        s[(j - 1) / 2],
                        #[trigger] s[j],
                    ) by {
                        if (j - 1) / 2 == i && j != child {
                            lemma_entry_le_transitive(above, below, s[j]);
                        }
                    }
                }
                break ;
            }
            let ghost before = self.entries@;
            self.entries[i] = below;
            self.entries[child] = above;
            proof {
                let after = self.entries@;
                lemma_entry_le_total(above, below);
                lemma_exchange(before, i as int, child as int);
                assert(after =~= before.update(i as int, before[child as int]).update(
                    child as int,
                    before[i as int],
                ));
                assert forall|x: Entry| after.contains(x) <==> before.contains(x) by {
                    if before.contains(x) {
                        let k = choose|k: int| 0 <= k < before.len() && before[k] == x;
                        let to = if k == i {
                            child as int
                        } else if k == child {
                            i as int
                        } else {
                            k
                        };
                        assert(after[to] == x);
                    }
                    if after.contains(x) {
                        let k = choose|k: int| 0 <= k < after.len() && after[k] == x;
                        let from = if k == i {
                            child as int
                        } else if k == child {
                            i as int
                        } else {
                            k
                        };
                        assert(before[from] == x);
                    }
                }
                assert forall|j: int|
                    1 <= j < after.len() && (j - 1) / 2 != child implies entry_le(
                    after[(j - 1) / 2],
                    #[trigger] after[j],
                ) by {
                    if j == i {
                        assert(entry_le(before[(i - 1) / 2], before[child as int]));
                    } else if (j - 1) / 2 == i {
                    } else {
                        assert(entry_le(before[(j - 1) / 2], before[j]));
                    }
                }
                assert forall|j: int|
                    1 <= j < after.len() && (j - 1) / 2 == child implies entry_le(
                    after[(child - 1) / 2],
                    #[trigger] after[j],
                ) by {
                    assert(entry_le(before[(j - 1) / 2], before[j]));
                }
            }
            i = child;
        }
        Some(least)
    }
}

} // verus!
