//! Least-recently-used choice of the frame to evict: a doubly linked list
//! threaded through one node per frame, most recently used at the head.
use crate::buffer::FrameId;
use vstd::prelude::*;

verus! {

struct Node {
    prev: Option<FrameId>,
    next: Option<FrameId>,
    linked: bool,
}

pub struct LruReplacer {
    nodes: Vec<Node>,
    head: Option<FrameId>,  // most recently used
    tail: Option<FrameId>,  // next victim
    order: Ghost<Seq<FrameId>>,
}

/// `o` with every occurrence of `f` taken out.
pub open spec fn without(o: Seq<FrameId>, f: FrameId) -> Seq<FrameId>
    decreases o.len(),
{
    if o.len() == 0 {
        o
    } else if o.last() == f {
        without(o.drop_last(), f)
    } else {
        without(o.drop_last(), f).push(o.last())
    }
}

/// The order after a frame becomes a candidate again: it moves to the front.
pub open spec fn touched(o: Seq<FrameId>, f: FrameId) -> Seq<FrameId> {
    seq![f] + without(o, f)
}

proof fn lemma_without_absent(o: Seq<FrameId>, f: FrameId)
    requires
        !o.contains(f),
    ensures
        without(o, f) == o,
    decreases o.len(),
{
    if o.len() > 0 {
        assert(!o.drop_last().contains(f)) by {
            if o.drop_last().contains(f) {
                let k = choose|k: int| 0 <= k < o.drop_last().len() && o.drop_last()[k] == f;
                assert(o[k] == f);
            }
        }
        lemma_without_absent(o.drop_last(), f);
        assert(o.drop_last().push(o.last()) =~= o);
    }
}

proof fn lemma_without_at(o: Seq<FrameId>, f: FrameId, k: int)
    requires
        o.no_duplicates(),
        0 <= k < o.len(),
        o[k] == f,
    ensures
        without(o, f) == o.remove(k),
    decreases o.len(),
{
    if k == o.len() - 1 {
        assert(!o.drop_last().contains(f)) by {
            if o.drop_last().contains(f) {
                let j = choose|j: int| 0 <= j < o.drop_last().len() && o.drop_last()[j] == f;
                assert(o[j] == f);
            }
        }
        lemma_without_absent(o.drop_last(), f);
        assert(o.remove(k) =~= o.drop_last());
    } else {
        assert(o.drop_last().no_duplicates());
        lemma_without_at(o.drop_last(), f, k);
        assert(o.remove(k) =~= o.drop_last().remove(k).push(o.last()));
    }
}

/// A frame that becomes a candidate goes to the front of the order, once:
/// every other candidate is evicted before it.
pub proof fn law_touched_goes_to_front(o: Seq<FrameId>, f: FrameId)
    ensures
        touched(o, f)[0] == f,
        forall|k: int| 1 <= k < touched(o, f).len() ==> #[trigger] touched(o, f)[k] != f,
{
    assert forall|k: int| 1 <= k < touched(o, f).len() implies #[trigger] touched(o, f)[k] != f by {
        crate::buffer::lemma_without_contains(o, f, f);
        assert(without(o, f)[k - 1] == touched(o, f)[k]);
    }
}

/// The victim is the candidate that became one longest ago: another frame
/// becoming a candidate leaves it the victim.
pub proof fn law_touch_keeps_victim(o: Seq<FrameId>, f: FrameId)
    requires
        o.len() > 0,
        o.last() != f,
    ensures
        touched(o, f).last() == o.last(),
{
}

/// Taking a frame out of the candidates keeps the order of the others.
pub proof fn law_remove_keeps_order(o: Seq<FrameId>, f: FrameId, k: int)
    requires
        o.no_duplicates(),
        0 <= k < o.len(),
        o[k] == f,
    ensures
        without(o, f) == o.remove(k),
{
    lemma_without_at(o, f, k);
}

impl View for LruReplacer {
    type V = Seq<FrameId>;

    /// The eviction candidates, most recently used first.
    closed spec fn view(&self) -> Seq<FrameId> {
        self.order@
    }
}

impl LruReplacer {
    /// Number of frames the replacer knows about.
    pub closed spec fn capacity(&self) -> nat {
        self.nodes@.len()
    }

    pub closed spec fn wf(&self) -> bool {
        let o = self.order@;
        let n = self.nodes@.len();
        &&& o.no_duplicates()
        &&& forall|k: int| 0 <= k < o.len() ==> #[trigger] o[k] < n
        &&& self.head == (if o.len() == 0 {
            None
        } else {
            Some(o[0])
        })
        &&& self.tail == (if o.len() == 0 {
            None
        } else {
            Some(o.last())
        })
        &&& forall|k: int|
            0 <= k < o.len() ==> {
                let node = #[trigger] self.nodes@[o[k] as int];
                &&& node.linked
                &&& node.prev == (if k == 0 {
                    None
                } else {
                    Some(o[k - 1])
                })
                &&& node.next == (if k == o.len() - 1 {
                    None
                } else {
                    Some(o[k + 1])
                })
            }
        &&& forall|f: FrameId| f < n && (#[trigger] self.nodes@[f as int]).linked ==> o.contains(f)
    }

    /// Every candidate is a frame that the replacer knows about.
    pub proof fn lemma_candidates_in_range(&self)
        requires
            self.wf(),
        ensures
            forall|k: int| 0 <= k < self@.len() ==> #[trigger] self@[k] < self.capacity(),
            self@.no_duplicates(),
    {
    }

    /// A replacer for `frame_count` frames with no candidates yet.
    pub fn new(frame_count: usize) -> (r: LruReplacer)
        ensures
            r.wf(),
            r.capacity() == frame_count,
            r@ == Seq::<FrameId>::empty(),
    {
        let mut nodes: Vec<Node> = Vec::new();
        let mut i: usize = 0;
        while i < frame_count
            invariant
                0 <= i <= frame_count,
                nodes@.len() == i,
                forall|f: int| 0 <= f < i ==> !(#[trigger] nodes@[f]).linked,
            decreases frame_count - i,
        {
            nodes.push(Node { prev: None, next: None, linked: false });
            i = i + 1;
        }
        LruReplacer { nodes, head: None, tail: None, order: Ghost(Seq::empty()) }
    }

    /// Makes `frame_id` the most recently used candidate, whether or not it
    /// was a candidate before.
    pub fn insert(&mut self, frame_id: FrameId)
        requires
            old(self).wf(),
            frame_id < old(self).capacity(),
        ensures
            final(self).wf(),
            final(self).capacity() == old(self).capacity(),
            final(self)@ == touched(old(self)@, frame_id),
    {
        self.unlink(frame_id);
        let ghost o = self.order@;
        let ghost nodes1 = self.nodes@;
        let old_head = self.head;
        self.nodes.set(frame_id, Node { prev: None, next: old_head, linked: true });
        match old_head {
            Some(h) => {
                let hn = Node { prev: Some(frame_id), next: self.nodes[h].next, linked: true };
                self.nodes.set(h, hn);
            },
            None => {
                self.tail = Some(frame_id);
            },
        }
        self.head = Some(frame_id);
        self.order = Ghost(seq![frame_id] + o);
        proof {
            let o2 = self.order@;
            assert(o2.no_duplicates()) by {
                assert forall|a: int, b: int| 0 <= a < b < o2.len() implies o2[a] != o2[b] by {
                    if a == 0 {
                        assert(o2[b] == o[b - 1]);
                    }
                }
            }
            assert forall|k: int| 0 <= k < o2.len() implies {
                let node = #[trigger] self.nodes@[o2[k] as int];
                &&& node.linked
                &&& node.prev == (if k == 0 {
                    None
                } else {
                    Some(o2[k - 1])
                })
                &&& node.next == (if k == o2.len() - 1 {
                    None
                } else {
                    Some(o2[k + 1])
                })
            } by {
                if k > 0 {
                    assert(o2[k] == o[k - 1]);
                    assert(o[k - 1] != frame_id);
                }
            }
            assert forall|f: FrameId|
                f < self.nodes@.len() && (#[trigger] self.nodes@[f as int]).linked implies o2.contains(
                f,
            ) by {
                if f != frame_id {
                    if o.len() > 0 && f == o[0] {
                        assert(o2[1] == f);
                    } else {
                        assert(nodes1[f as int].linked);
                        assert(o.contains(f));
                        let j = choose|j: int| 0 <= j < o.len() && o[j] == f;
                        assert(o2[j + 1] == f);
                    }
                } else {
                    assert(o2[0] == f);
                }
            }
        }
    }

    /// Takes `frame_id` out of the candidates, if it is one.
    pub fn remove(&mut self, frame_id: FrameId)
        requires
            old(self).wf(),
            frame_id < old(self).capacity(),
        ensures
            final(self).wf(),
            final(self).capacity() == old(self).capacity(),
            final(self)@ == without(old(self)@, frame_id),
    {
        self.unlink(frame_id);
    }

    /// Takes the least recently used candidate out and returns it.
    pub fn evict(&mut self) -> (r: Option<FrameId>)
        requires
            old(self).wf(),
        ensures
            final(self).wf(),
            final(self).capacity() == old(self).capacity(),
            match r {
                Some(f) => old(self)@.len() > 0 && f == old(self)@.last() && final(self)@ == old(
                    self,
                )@.drop_last() && !final(self)@.contains(f) && f < old(self).capacity(),
                None => old(self)@.len() == 0 && final(self)@ == old(self)@,
            },
    {
        let victim = match self.tail {
            Some(v) => v,
            None => return None,
        };
        proof {
            let o = self.order@;
            assert(o[o.len() - 1] == victim);
            lemma_without_at(o, victim, o.len() - 1);
            assert(o.remove(o.len() - 1) =~= o.drop_last());
        }
        self.unlink(victim);
        Some(victim)
    }

    fn unlink(&mut self, frame_id: FrameId)
        requires
            old(self).wf(),
            frame_id < old(self).capacity(),
        ensures
            final(self).wf(),
            final(self).capacity() == old(self).capacity(),
            final(self)@ == without(old(self)@, frame_id),
            !final(self).nodes@[frame_id as int].linked,
            final(self).head == old(self).head || old(self)@.contains(frame_id),
            !final(self)@.contains(frame_id),
    {
        let ghost o = self.order@;
        if !self.nodes[frame_id].linked {
            proof {
                assert(!o.contains(frame_id)) by {
                    if o.contains(frame_id) {
                        let k = choose|k: int| 0 <= k < o.len() && o[k] == frame_id;
                        assert(self.nodes@[o[k] as int].linked);
                    }
                }
                lemma_without_absent(o, frame_id);
            }
            return;
        }
        let ghost k = choose|k: int| 0 <= k < o.len() && o[k] == frame_id;
        let ghost nodes0 = self.nodes@;
        let prev = self.nodes[frame_id].prev;
        let next = self.nodes[frame_id].next;
        match prev {
            Some(p) => {
                let pn = Node { prev: self.nodes[p].prev, next, linked: true };
                self.nodes.set(p, pn);
            },
            None => {
                self.head = next;
            },
        }
        match next {
            Some(n) => {
                let nn = Node { prev, next: self.nodes[n].next, linked: true };
                self.nodes.set(n, nn);
            },
            None => {
                self.tail = prev;
            },
        }
        self.nodes.set(frame_id, Node { prev: None, next: None, linked: false });
        self.order = Ghost(o.remove(k));
        proof {
            lemma_without_at(o, frame_id, k);
            let o2 = self.order@;
            assert forall|j: int| 0 <= j < o2.len() implies {
                let node = #[trigger] self.nodes@[o2[j] as int];
                &&& node.linked
                &&& node.prev == (if j == 0 {
                    None
                } else {
                    Some(o2[j - 1])
                })
                &&& node.next == (if j == o2.len() - 1 {
                    None
                } else {
                    Some(o2[j + 1])
                })
            } by {
                if j < k {
                    assert(o2[j] == o[j]);
                    assert(o[j] != frame_id);
                } else {
                    assert(o2[j] == o[j + 1]);
                    assert(o[j + 1] != frame_id);
                }
            }
            assert forall|f: FrameId|
                f < self.nodes@.len() && (#[trigger] self.nodes@[f as int]).linked implies o2.contains(
                f,
            ) by {
                assert(f != frame_id);
                if k > 0 && f == o[k - 1] {
                    assert(o2[k - 1] == f);
                } else if k < o.len() - 1 && f == o[k + 1] {
                    assert(o2[k] == f);
                } else {
                    assert(nodes0[f as int].linked);
                }
                assert(o.contains(f));
                let j = choose|j: int| 0 <= j < o.len() && o[j] == f;
                assert(j != k);
                if j < k {
                    assert(o2[j] == f);
                } else {
                    assert(o2[j - 1] == f);
                }
            }
            assert(!o2.contains(frame_id)) by {
                if o2.contains(frame_id) {
                    let j = choose|j: int| 0 <= j < o2.len() && o2[j] == frame_id;
                    if j < k {
                        assert(o[j] == frame_id);
                    } else {
                        assert(o[j + 1] == frame_id);
                    }
                }
            }
        }
    }
}

} // verus!
