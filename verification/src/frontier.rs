//! The open set of the path search: a binary min-heap of nodes, from which
//! a node of lowest priority is taken first.
use vstd::prelude::*;
use std::cmp::Ordering;
use vstd::multiset::Multiset;

verus! {

broadcast use {vstd::seq_lib::group_to_multiset_ensures, vstd::multiset::group_multiset_axioms};

/// A cell waiting in the open set, with the estimated cost of a path
/// through it.
#[derive(Clone, Copy, Debug, PartialEq, Eq, Structural)]
pub struct PriorityNode {
    pub priority: u64,
    pub q: i32,
    pub r: i32,
}

impl PriorityNode {
    /// The open-set order: a node with a lower priority value ranks higher,
    /// so that it is expanded first. The coordinates play no part.
    pub fn cmp(&self, other: &Self) -> (o: Ordering)
        ensures
            (o == Ordering::Greater) <==> self.priority < other.priority,
            (o == Ordering::Less) <==> self.priority > other.priority,
            (o == Ordering::Equal) <==> self.priority == other.priority,
    {
        if other.priority < self.priority {
            Ordering::Less
        } else if other.priority == self.priority {
            Ordering::Equal
        } else {
            Ordering::Greater
        }
    }

    /// The same order as `cmp`, which is total.
    pub fn partial_cmp(&self, other: &Self) -> (o: Option<Ordering>)
        ensures
            o == Some(
                if self.priority < other.priority {
                    Ordering::Greater
                } else if self.priority > other.priority {
                    Ordering::Less
                } else {
                    Ordering::Equal
                },
            ),
    {
        Some(self.cmp(other))
    }
}

/// Each node of the heap has a priority no lower than its parent's.
pub open spec fn heap_ordered(s: Seq<PriorityNode>) -> bool {
    forall|j: int| 0 < j < s.len() ==> s[(j - 1) / 2].priority <= (#[trigger] s[j]).priority
}

/// The root of a heap has the lowest priority of all.
proof fn lemma_root_is_lowest(s: Seq<PriorityNode>, j: int)
    requires
        heap_ordered(s),
        0 <= j < s.len(),
    ensures
        s[0].priority <= s[j].priority,
    decreases j,
{
    if j > 0 {
        lemma_root_is_lowest(s, (j - 1) / 2);
    }
}

/// Exchanging two entries keeps the multiset of entries.
proof fn lemma_swap_keeps_entries(s: Seq<PriorityNode>, a: int, b: int)
    requires
        0 <= a < s.len(),
        0 <= b < s.len(),
    ensures
        s.update(a, s[b]).update(b, s[a]).to_multiset() =~= s.to_multiset(),
{
    let t = s.update(a, s[b]);
    assert(t.to_multiset() == s.to_multiset().insert(s[b]).remove(s[a]));
    assert(t.update(b, s[a]).to_multiset() == t.to_multiset().insert(s[a]).remove(t[b]));
    assert(t[b] == s[b]);
}

/// The priority queue of the search, kept as a binary min-heap.
pub struct Frontier {
    nodes: Vec<PriorityNode>,
}

impl View for Frontier {
    type V = Multiset<PriorityNode>;

    closed spec fn view(&self) -> Multiset<PriorityNode> {
        self.nodes@.to_multiset()
    }
}

impl Frontier {
    /// The heap order holds.
    pub closed spec fn well_formed(&self) -> bool {
        heap_ordered(self.nodes@)
    }

    fn swap(&mut self, a: usize, b: usize)
        requires
            a < old(self).nodes@.len(),
            b < old(self).nodes@.len(),
        ensures
            final(self).nodes@ == old(self).nodes@.update(a as int, old(self).nodes@[b as int]).update(
                b as int,
                old(self).nodes@[a as int],
            ),
            final(self)@ == old(self)@,
    {
        let x = self.nodes[a];
        let y = self.nodes[b];
        self.nodes.set(a, y);
        self.nodes.set(b, x);
        proof {
            lemma_swap_keeps_entries(old(self).nodes@, a as int, b as int);
        }
    }

    /// An empty open set.
    pub fn new() -> (f: Self)
        ensures
            f.well_formed(),
            f@ == Multiset::<PriorityNode>::empty(),
    {
        let f = Frontier { nodes: Vec::new() };
        assert(f.nodes@.to_multiset() =~= Multiset::<PriorityNode>::empty());
        f
    }

    /// Whether no node waits.
    pub fn is_empty(&self) -> (b: bool)
        ensures
            b == (self@.len() == 0),
    {
        self.nodes.len() == 0
    }

    /// The number of waiting nodes.
    pub fn len(&self) -> (n: usize)
        ensures
            n == self@.len(),
    {
        self.nodes.len()
    }

    /// Adds a node.
    pub fn push(&mut self, node: PriorityNode)
        requires
            old(self).well_formed(),
        ensures
            final(self).well_formed(),
            final(self)@ == old(self)@.insert(node),
    {
        self.nodes.push(node);
        let ghost entries = self@;
        let n = self.nodes.len();
        let mut i = n - 1;
        let mut done = false;
        while i > 0 && !done
            invariant
                n == self.nodes@.len(),
                i < n,
                self@ == entries,
                forall|j: int| 0 < j < n && j != i ==> self.nodes@[(j - 1) / 2].priority <= (#[trigger] self.nodes@[j]).priority,
                i > 0 ==> forall|j: int|
                    0 < j < n && (j - 1) / 2 == i ==> self.nodes@[(i - 1) / 2].priority <= (#[trigger] self.nodes@[j]).priority,
                done ==> i > 0 && self.nodes@[(i - 1) / 2].priority <= self.nodes@[i as int].priority,
            decreases i + if done { 0int } else { 1int },
        {
            let p = (i - 1) / 2;
            if self.nodes[p].priority <= self.nodes[i].priority {
                done = true;
            } else {
                let ghost s = self.nodes@;
                self.swap(p, i);
                proof {
                    let t = self.nodes@;
                    assert forall|j: int| 0 < j < n && j != p implies t[(j - 1) / 2].priority <= (#[trigger] t[j]).priority by {
                        if j == i {
                        } else if (j - 1) / 2 == i {
                            assert(t[(j - 1) / 2] == s[p as int]);
                            assert(t[j] == s[j]);
                        } else if (j - 1) / 2 == p {
                            assert(s[p as int].priority <= s[j].priority);
                        } else {
                            assert(s[(j - 1) / 2].priority <= s[j].priority);
                        }
                    }
                    if p > 0 {
                        assert forall|j: int| 0 < j < n && (j - 1) / 2 == p implies t[(p - 1) / 2].priority <= (#[trigger] t[j]).priority by {
                            assert(s[(p - 1) / 2].priority <= s[p as int].priority);
                            if j != i {
                                assert(s[p as int].priority <= s[j].priority);
                            }
                        }
                    }
                }
                i = p;
            }
        }
    }

    /// Takes out a node of lowest priority; `None` when the set is empty.
    /// Which of several nodes of equal priority comes out is left open.
    pub fn pop(&mut self) -> (out: Option<PriorityNode>)
        requires
            old(self).well_formed(),
        ensures
            final(self).well_formed(),
            old(self)@.len() == 0 ==> out is None && final(self)@ == old(self)@,
            old(self)@.len() > 0 ==> (out matches Some(n) && old(self)@.count(n) > 0 && final(self)@
                == old(self)@.remove(n)),
            out matches Some(n) ==> forall|m: PriorityNode|
                #[trigger] old(self)@.count(m) > 0 ==> n.priority <= m.priority,
    {
        let len = self.nodes.len();
        if len == 0 {
            return None;
        }
        let ghost s0 = self.nodes@;
        let top = self.nodes[0];
        proof {
            assert forall|m: PriorityNode| #[trigger] s0.to_multiset().count(m) > 0 implies top.priority <= m.priority by {
                assert(s0.contains(m));
                let j = choose|j: int| 0 <= j < s0.len() && s0[j] == m;
                lemma_root_is_lowest(s0, j);
            }
            assert(s0.contains(top));
        }
        let last = match self.nodes.pop() {
            Some(x) => x,
            None => {
                return None;
            },
        };
        let n = self.nodes.len();
        if n == 0 {
            assert(self.nodes@.to_multiset() =~= s0.to_multiset().remove(top)) by {
                assert(s0 == self.nodes@.push(last));
                assert(self.nodes@ =~= Seq::<PriorityNode>::empty());
            }
            return Some(top);
        }
        self.nodes.set(0, last);
        proof {
            let d = s0.drop_last();
            assert(s0 == d.push(last));
            assert(self.nodes@ == d.update(0, last));
            assert(self.nodes@.to_multiset() =~= s0.to_multiset().remove(top));
        }
        let ghost entries = self@;
        let mut i: usize = 0;
        let mut done = false;
        while !done
            invariant
                n == self.nodes@.len(),
                i < n,
                self@ == entries,
                forall|j: int| 0 < j < n && (j - 1) / 2 != i ==> self.nodes@[(j - 1) / 2].priority <= (#[trigger] self.nodes@[j]).priority,
                i > 0 ==> forall|j: int|
                    0 < j < n && (j - 1) / 2 == i ==> self.nodes@[(i - 1) / 2].priority <= (#[trigger] self.nodes@[j]).priority,
                done ==> forall|j: int| 0 < j < n && (j - 1) / 2 == i ==> self.nodes@[i as int].priority <= (#[trigger] self.nodes@[j]).priority,
            decreases n - i + if done { 0int } else { 1int },
        {
            let mut smallest = i;
            if i < n / 2 {
                let left = 2 * i + 1;
                if self.nodes[left].priority < self.nodes[smallest].priority {
                    smallest = left;
                }
                if left + 1 < n && self.nodes[left + 1].priority < self.nodes[smallest].priority {
                    smallest = left + 1;
                }
            }
            if smallest == i {
                done = true;
                proof {
                    assert forall|j: int| 0 < j < n && (j - 1) / 2 == i implies self.nodes@[i as int].priority <= (#[trigger] self.nodes@[j]).priority by {
                        assert(j == 2 * i + 1 || j == 2 * i + 2);
                    }
                }
            } else {
                let ghost s = self.nodes@;
                let c = smallest;
                proof {
                    assert(c == 2 * i + 1 || c == 2 * i + 2);
                    assert forall|j: int| 0 < j < n && (j - 1) / 2 == i implies s[c as int].priority <= #[trigger] s[j].priority by {
                        assert(j == 2 * i + 1 || j == 2 * i + 2);
                    }
                }
                self.swap(i, c);
                proof {
                    let t = self.nodes@;
                    assert forall|j: int| 0 < j < n && (j - 1) / 2 != c implies t[(j - 1) / 2].priority <= (#[trigger] t[j]).priority by {
                        if j == c {
                        } else if (j - 1) / 2 == i {
                            assert(s[c as int].priority <= s[j].priority);
                        } else if j == i {
                            assert(s[(j - 1) / 2].priority <= s[c as int].priority);
                        } else {
                            assert(s[(j - 1) / 2].priority <= s[j].priority);
                        }
                    }
                    assert forall|j: int| 0 < j < n && (j - 1) / 2 == c implies t[(c - 1) / 2].priority <= (#[trigger] t[j]).priority by {
                        assert(s[c as int].priority <= s[j].priority);
                    }
                }
                i = c;
            }
        }
        Some(top)
    }
}

} // verus!
