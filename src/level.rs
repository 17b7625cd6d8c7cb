use vstd::prelude::*;
use crate::node::{InsertPosition, Node};
use vstd::set_lib::{lemma_int_range, set_int_range};

verus! {

/// One level of the skip list: a sorted doubly linked list of arena nodes.
///
/// `order` lists the arena indices of the level's nodes from head to tail.
pub struct List {
    pub header: Option<usize>,
    pub tailer: Option<usize>,
    pub len: usize,
    pub level: usize,
    pub order: Ghost<Seq<usize>>,
}

impl List {
    pub open spec fn key_at<V>(self, nodes: Seq<Node<V>>, i: int) -> u64 {
        nodes[self.order@[i] as int].score
    }

    /// The keys of the level, from head to tail.
    pub open spec fn keys<V>(self, nodes: Seq<Node<V>>) -> Seq<u64> {
        Seq::new(self.order@.len(), |i: int| nodes[self.order@[i] as int].score)
    }

    pub open spec fn wf<V>(self, nodes: Seq<Node<V>>) -> bool {
        let o = self.order@;
        &&& self.len == o.len()
        &&& self.len <= nodes.len()
        &&& forall|i: int| 0 <= i < o.len() ==> (#[trigger] o[i] as int) < nodes.len()
        &&& forall|i: int| 0 <= i < o.len() ==> (#[trigger] nodes[o[i] as int]).level == self.level
        &&& self.header == (if o.len() == 0 { None } else { Some(o[0]) })
        &&& self.tailer == (if o.len() == 0 { None } else { Some(o.last()) })
        &&& forall|i: int| 0 <= i < o.len() ==> (#[trigger] nodes[o[i] as int]).next == (if i + 1 < o.len() { Some(o[i + 1]) } else { None })
        &&& forall|i: int| 0 <= i < o.len() ==> (#[trigger] nodes[o[i] as int]).prev == (if i > 0 { Some(o[i - 1]) } else { None })
        &&& forall|i: int, j: int| 0 <= i < j < o.len() ==> #[trigger] self.key_at(nodes, i) < #[trigger] self.key_at(nodes, j)
    }

    /// `pos` names the node at index `p` of the level, and `key` belongs
    /// on the side of it that `pos` gives.
    pub open spec fn anchor_at<V>(self, nodes: Seq<Node<V>>, pos: InsertPosition, key: u64, p: int) -> bool {
        &&& 0 <= p < self.order@.len()
        &&& pos.position == Some(self.order@[p])
        &&& if pos.is_right {
            &&& self.key_at(nodes, p) <= key
            &&& (p + 1 == self.order@.len() || key < self.key_at(nodes, p + 1))
        } else {
            &&& key < self.key_at(nodes, p)
            &&& (p == 0 || self.key_at(nodes, p - 1) < key)
        }
    }

    pub open spec fn anchors<V>(self, nodes: Seq<Node<V>>, pos: InsertPosition, key: u64) -> bool {
        exists|p: int| self.anchor_at(nodes, pos, key, p)
    }

    pub fn new(level: usize) -> (r: Self)
        ensures
            r.order@ == Seq::<usize>::empty(),
            r.len == 0,
            r.level == level,
            r.header is None,
            r.tailer is None,
    {
        List { header: None, tailer: None, len: 0, level, order: Ghost(Seq::empty()) }
    }

    /// Finds the node next to which `score` belongs, or the node holding it,
    /// walking from `start` (or from the head) towards `score`.
    /// Returns `None` exactly when the level is empty.
    pub fn find<V>(&self, nodes: &Vec<Node<V>>, score: u64, start: Option<usize>) -> (r: Option<InsertPosition>)
        requires
            self.wf(nodes@),
            start matches Some(s) ==> self.order@.contains(s),
        ensures
            r is None <==> self.order@.len() == 0,
            r matches Some(p) ==> p.level == self.level && self.anchors(nodes@, p, score),
    {
        let ghost o = self.order@;
        let mut cur: usize;
        let ghost mut j: int = 0;
        match start {
            Some(s) => {
                cur = s;
                proof {
                    j = choose|j: int| 0 <= j < o.len() && o[j] == s;
                }
            },
            None => match self.header {
                None => {
                    return None;
                },
                Some(h) => {
                    cur = h;
                },
            },
        }
        let mut pos = InsertPosition::new(Some(cur), true);
        pos.level = self.level;
        if nodes[cur].score == score {
            assert(self.anchor_at(nodes@, pos, score, j));
            return Some(pos);
        }
        if nodes[cur].score < score {
            loop
                invariant
                    self.wf(nodes@),
                    o == self.order@,
                    0 <= j < o.len(),
                    o[j] == cur,
                    self.key_at(nodes@, j) <= score,
                decreases o.len() - j,
            {
                let mut pos = InsertPosition::new(Some(cur), true);
                pos.level = self.level;
                match nodes[cur].next {
                    None => {
                        assert(self.anchor_at(nodes@, pos, score, j));
                        return Some(pos);
                    },
                    Some(nx) => {
                        if nodes[nx].score > score {
                            assert(self.anchor_at(nodes@, pos, score, j));
                            return Some(pos);
                        }
                        cur = nx;
                        proof {
                            j = j + 1;
                        }
                    },
                }
            }
        } else {
            loop
                invariant
                    self.wf(nodes@),
                    o == self.order@,
                    0 <= j < o.len(),
                    o[j] == cur,
                    score < self.key_at(nodes@, j),
                decreases j,
            {
                match nodes[cur].prev {
                    None => {
                        let mut pos = InsertPosition::new(Some(cur), false);
                        pos.level = self.level;
                        assert(self.anchor_at(nodes@, pos, score, j));
                        return Some(pos);
                    },
                    Some(pv) => {
                        if nodes[pv].score < score {
                            let mut pos = InsertPosition::new(Some(cur), false);
                            pos.level = self.level;
                            assert(self.anchor_at(nodes@, pos, score, j));
                            return Some(pos);
                        }
                        if nodes[pv].score == score {
                            let mut pos = InsertPosition::new(Some(pv), true);
                            pos.level = self.level;
                            assert(self.anchor_at(nodes@, pos, score, j - 1));
                            return Some(pos);
                        }
                        cur = pv;
                        proof {
                            j = j - 1;
                        }
                    },
                }
            }
        }
    }

    /// The arena outside this level is left as it was: a node keeps its key,
    /// value, level and tower links, and only nodes of `level` may change
    /// their links within a level.
    pub open spec fn relinked<V>(a: Node<V>, b: Node<V>, level: usize) -> bool {
        &&& b.score == a.score
        &&& b.data == a.data
        &&& b.level == a.level
        &&& b.tower_above == a.tower_above
        &&& b.tower_below == a.tower_below
        &&& (a.level != level ==> b == a)
    }

    /// Nodes of a well-formed level are distinct.
    pub proof fn lemma_distinct<V>(self, nodes: Seq<Node<V>>)
        requires
            self.wf(nodes),
        ensures
            forall|i: int, j: int| 0 <= i < self.order@.len() && 0 <= j < self.order@.len() && i != j
                ==> self.order@[i] != self.order@[j],
    {
        assert forall|i: int, j: int| 0 <= i < self.order@.len() && 0 <= j < self.order@.len() && i != j
            implies self.order@[i] != self.order@[j] by {
            if i < j {
                assert(self.key_at(nodes, i) < self.key_at(nodes, j));
            } else {
                assert(self.key_at(nodes, j) < self.key_at(nodes, i));
            }
        }
    }

    /// An anchor for a key that is absent splits the level into the keys
    /// below it and the keys above it.
    pub proof fn lemma_anchor_splits<V>(self, nodes: Seq<Node<V>>, pos: InsertPosition, key: u64, q: int)
        requires
            self.wf(nodes),
            self.anchor_at(nodes, pos, key, q),
            !self.keys(nodes).contains(key),
        ensures
            forall|i: int| 0 <= i < q + (if pos.is_right { 1int } else { 0 }) ==> self.key_at(nodes, i) < key,
            forall|i: int| q + (if pos.is_right { 1int } else { 0 }) <= i < self.order@.len() ==> key < self.key_at(nodes, i),
    {
        assert(self.keys(nodes)[q] == self.key_at(nodes, q));
        let k = q + (if pos.is_right { 1int } else { 0 });
        assert forall|i: int| 0 <= i < k implies self.key_at(nodes, i) < key by {
            if i < k - 1 {
                assert(self.key_at(nodes, i) < self.key_at(nodes, k - 1));
            }
        }
        assert forall|i: int| k <= i < self.order@.len() implies key < self.key_at(nodes, i) by {
            if i > k {
                assert(self.key_at(nodes, k) < self.key_at(nodes, i));
            }
        }
    }

    /// An anchor tells whether `key` is in the level: it is exactly when the
    /// anchor holds it.
    pub proof fn lemma_anchor_hit<V>(self, nodes: Seq<Node<V>>, pos: InsertPosition, key: u64, q: int)
        requires
            self.wf(nodes),
            self.anchor_at(nodes, pos, key, q),
        ensures
            self.keys(nodes).contains(key) <==> (pos.is_right && self.key_at(nodes, q) == key),
    {
        if pos.is_right && self.key_at(nodes, q) == key {
            assert(self.keys(nodes)[q] == key);
        }
        if self.keys(nodes).contains(key) {
            let t = choose|t: int| 0 <= t < self.order@.len() && self.keys(nodes)[t] == key;
            if t < q {
                assert(self.key_at(nodes, t) < self.key_at(nodes, q));
                if !pos.is_right && q > 0 {
                    assert(self.key_at(nodes, t) <= self.key_at(nodes, q - 1));
                }
            } else if t > q {
                assert(self.key_at(nodes, q) < self.key_at(nodes, t));
                if pos.is_right {
                    assert(self.key_at(nodes, q + 1) <= self.key_at(nodes, t));
                }
            }
        }
    }

    /// A level stays well formed when its nodes keep their keys, levels and
    /// links, and the arena only grows.
    pub proof fn lemma_wf_frame<V>(self, a: Seq<Node<V>>, b: Seq<Node<V>>)
        requires
            self.wf(a),
            a.len() <= b.len(),
            forall|i: int| 0 <= i < self.order@.len() ==> (#[trigger] b[self.order@[i] as int]).score == a[self.order@[i] as int].score
                && b[self.order@[i] as int].level == a[self.order@[i] as int].level
                && b[self.order@[i] as int].prev == a[self.order@[i] as int].prev
                && b[self.order@[i] as int].next == a[self.order@[i] as int].next,
        ensures
            self.wf(b),
            self.keys(b) == self.keys(a),
    {
        let o = self.order@;
        assert forall|i: int| 0 <= i < o.len() implies (#[trigger] b[o[i] as int]).next == a[o[i] as int].next by {
        }
        assert forall|i: int, j: int| 0 <= i < j < o.len() implies #[trigger] self.key_at(b, i) < #[trigger] self.key_at(b, j) by {
            assert(self.key_at(a, i) < self.key_at(a, j));
        }
        assert(self.keys(b) =~= self.keys(a));
    }

    /// An anchor stays an anchor when no node changes its key.
    pub proof fn lemma_anchor_frame<V>(self, a: Seq<Node<V>>, b: Seq<Node<V>>, pos: InsertPosition, key: u64)
        requires
            self.wf(a),
            a.len() <= b.len(),
            forall|i: int| 0 <= i < self.order@.len() ==> (#[trigger] b[self.order@[i] as int]).score == a[self.order@[i] as int].score,
            self.anchors(a, pos, key),
        ensures
            self.anchors(b, pos, key),
    {
        let q = choose|q: int| self.anchor_at(a, pos, key, q);
        assert(self.key_at(b, q) == self.key_at(a, q));
        if q + 1 < self.order@.len() {
            assert(self.key_at(b, q + 1) == self.key_at(a, q + 1));
        }
        if q > 0 {
            assert(self.key_at(b, q - 1) == self.key_at(a, q - 1));
        }
        assert(self.anchor_at(b, pos, key, q));
    }

    /// A level stays well formed when a node with a fresh key is spliced in
    /// at index `k` and only its two neighbours change their links.
    #[verifier::spinoff_prover]
    pub proof fn lemma_splice<V>(
        a: List,
        b: List,
        old_nodes: Seq<Node<V>>,
        nodes: Seq<Node<V>>,
        score: u64,
        k: int,
        r: usize,
    )
        requires
            a.wf(old_nodes),
            0 <= k <= a.order@.len(),
            (r as int) < old_nodes.len(),
            nodes.len() == old_nodes.len(),
            !a.order@.contains(r),
            b.order@ == a.order@.insert(k, r),
            b.len == a.len + 1,
            b.len <= nodes.len(),
            b.level == a.level,
            b.header == Some(b.order@[0]),
            b.tailer == Some(b.order@.last()),
            forall|i: int| 0 <= i < k ==> a.key_at(old_nodes, i) < score,
            forall|i: int| k <= i < a.order@.len() ==> score < a.key_at(old_nodes, i),
            forall|i: int| 0 <= i < nodes.len() && i != r ==> (#[trigger] nodes[i]).score == old_nodes[i].score && nodes[i].level == old_nodes[i].level,
            nodes[r as int].score == score,
            nodes[r as int].level == a.level,
            nodes[r as int].prev == (if k > 0 { Some(a.order@[k - 1]) } else { None }),
            nodes[r as int].next == (if k < a.order@.len() { Some(a.order@[k]) } else { None }),
            k > 0 ==> nodes[a.order@[k - 1] as int].next == Some(r),
            k < a.order@.len() ==> nodes[a.order@[k] as int].prev == Some(r),
            forall|i: int| 0 <= i < a.order@.len() && i != k - 1 ==> (#[trigger] nodes[a.order@[i] as int]).next == old_nodes[a.order@[i] as int].next,
            forall|i: int| 0 <= i < a.order@.len() && i != k ==> (#[trigger] nodes[a.order@[i] as int]).prev == old_nodes[a.order@[i] as int].prev,
        ensures
            b.wf(nodes),
    {
        let o = a.order@;
        let n = b.order@;
        assert(forall|i: int| 0 <= i < k ==> n[i] == o[i]);
        assert(forall|i: int| k < i < n.len() ==> n[i] == o[i - 1]);
        assert(n[k] == r);
        assert forall|i: int| 0 <= i < n.len() implies (#[trigger] nodes[n[i] as int]).next == (if i + 1 < n.len() { Some(n[i + 1]) } else { None }) by {
            if i < k {
                assert(n[i] == o[i]);
            } else if i > k {
                assert(n[i] == o[i - 1]);
            }
        }
        assert forall|i: int| 0 <= i < n.len() implies (#[trigger] nodes[n[i] as int]).prev == (if i > 0 { Some(n[i - 1]) } else { None }) by {
            if i < k {
                assert(n[i] == o[i]);
            } else if i > k {
                assert(n[i] == o[i - 1]);
            }
        }
        assert forall|t: int| 0 <= t < n.len() implies #[trigger] b.key_at(nodes, t) == (if t < k {
            a.key_at(old_nodes, t)
        } else if t == k {
            score
        } else {
            a.key_at(old_nodes, t - 1)
        }) by {
            if t < k {
                assert(n[t] == o[t]);
                assert(o[t] != r);
            } else if t > k {
                assert(n[t] == o[t - 1]);
                assert(o[t - 1] != r);
            }
        }
        assert forall|i: int, j: int| 0 <= i < j < n.len() implies #[trigger] b.key_at(nodes, i) < #[trigger] b.key_at(nodes, j) by {
            if i < k && j > k {
                assert(a.key_at(old_nodes, i) < score);
                assert(score < a.key_at(old_nodes, j - 1));
            } else if i < k && j == k {
                assert(a.key_at(old_nodes, i) < score);
            } else if i == k {
                assert(score < a.key_at(old_nodes, j - 1));
            } else if j < k {
                assert(a.key_at(old_nodes, i) < a.key_at(old_nodes, j));
            } else {
                assert(a.key_at(old_nodes, i - 1) < a.key_at(old_nodes, j - 1));
            }
        }
    }

    /// Splicing node `r` in at index `k` inserts its key at index `k` of
    /// the keys, and the keys gain exactly that key.
    pub proof fn lemma_keys_after_splice<V>(a: List, b: List, a_nodes: Seq<Node<V>>, b_nodes: Seq<Node<V>>, k: int, r: usize)
        requires
            a.wf(a_nodes),
            0 <= k <= a.order@.len(),
            b.order@ == a.order@.insert(k, r),
            forall|i: int| 0 <= i < a.order@.len() ==> (#[trigger] b_nodes[a.order@[i] as int]).score == a_nodes[a.order@[i] as int].score,
        ensures
            b.keys(b_nodes) == a.keys(a_nodes).insert(k, b_nodes[r as int].score),
            forall|x: u64| #[trigger] b.keys(b_nodes).contains(x) <==> (a.keys(a_nodes).contains(x) || x == b_nodes[r as int].score),
    {
        let score = b_nodes[r as int].score;
        let t = a.keys(a_nodes);
        let u = b.keys(b_nodes);
        assert forall|i: int| 0 <= i < u.len() implies u[i] == t.insert(k, score)[i] by {
            if i < k {
                assert(b.order@[i] == a.order@[i]);
            } else if i > k {
                assert(b.order@[i] == a.order@[i - 1]);
            }
        }
        assert(u =~= t.insert(k, score));
        assert forall|x: u64| #[trigger] u.contains(x) <==> (t.contains(x) || x == score) by {
            assert(u[k] == score);
            if t.contains(x) {
                let j = choose|j: int| 0 <= j < t.len() && t[j] == x;
                if j < k {
                    assert(u[j] == x);
                } else {
                    assert(u[j + 1] == x);
                }
            }
            if u.contains(x) && x != score {
                let j = choose|j: int| 0 <= j < u.len() && u[j] == x;
                if j < k {
                    assert(t[j] == x);
                } else {
                    assert(t[j - 1] == x);
                }
            }
        }
    }

    /// Splices a new node holding `score` and `data` into the level at
    /// `position`, and returns its arena index.
    pub fn insert_with_position<V>(
        &mut self,
        nodes: &mut Vec<Node<V>>,
        score: u64,
        data: Option<V>,
        position: Option<InsertPosition>,
    ) -> (r: usize)
        requires
            old(self).wf(old(nodes)@),
            !old(self).keys(old(nodes)@).contains(score),
            position is None <==> old(self).order@.len() == 0,
            position matches Some(p) ==> old(self).anchors(old(nodes)@, p, score),
        ensures
            r == old(nodes)@.len(),
            final(nodes)@.len() == r + 1,
            final(self).wf(final(nodes)@),
            final(self).level == old(self).level,
            exists|k: int| 0 <= k <= old(self).order@.len() && final(self).order@ == old(self).order@.insert(k, r),
            final(nodes)@[r as int].score == score,
            final(nodes)@[r as int].data == data,
            final(nodes)@[r as int].level == old(self).level,
            final(nodes)@[r as int].tower_above is None,
            final(nodes)@[r as int].tower_below is None,
            forall|i: int| 0 <= i < r ==> Self::relinked(#[trigger] old(nodes)@[i], final(nodes)@[i], old(self).level),
    {
        let ghost old_nodes = nodes@;
        let r = nodes.len();
        let mut node = Node::new(score, data);
        node.level = self.level;
        nodes.push(node);
        proof {
            assert forall|i: int| 0 <= i < self.order@.len() implies (#[trigger] self.order@[i]) != r by {
                assert(self.wf(old_nodes));
            }
            self.lemma_wf_frame(old_nodes, nodes@);
            if let Some(p) = position {
                self.lemma_anchor_frame(old_nodes, nodes@, p, score);
            }
        }
        let ghost mid = nodes@;
        self.link_in(nodes, r, position);
        proof {
            assert forall|i: int| 0 <= i < r implies Self::relinked(#[trigger] old_nodes[i], nodes@[i], self.level) by {
                assert(mid[i] == old_nodes[i]);
                assert(Self::relinked(mid[i], nodes@[i], self.level));
            }
        }
        r
    }

    /// Links the arena node `r`, which no level holds, into the level at
    /// `position`. Only the links within the level change.
    #[verifier::spinoff_prover]
    pub fn link_in<V>(&mut self, nodes: &mut Vec<Node<V>>, r: usize, position: Option<InsertPosition>)
        requires
            old(self).wf(old(nodes)@),
            (r as int) < old(nodes)@.len(),
            !old(self).order@.contains(r),
            old(nodes)@[r as int].level == old(self).level,
            !old(self).keys(old(nodes)@).contains(old(nodes)@[r as int].score),
            position is None <==> old(self).order@.len() == 0,
            position matches Some(p) ==> old(self).anchors(old(nodes)@, p, old(nodes)@[r as int].score),
        ensures
            final(self).wf(final(nodes)@),
            final(self).level == old(self).level,
            final(nodes)@.len() == old(nodes)@.len(),
            exists|k: int| 0 <= k <= old(self).order@.len() && final(self).order@ == old(self).order@.insert(k, r),
            forall|i: int| 0 <= i < old(nodes)@.len() ==> Self::relinked(#[trigger] old(nodes)@[i], final(nodes)@[i], old(self).level),
    {
        let ghost o = self.order@;
        let ghost old_nodes = nodes@;
        proof {
            self.lemma_distinct(nodes@);
            lemma_room_for(o, nodes@.len() as int, r);
        }
        let total = nodes.len();
        assert(self.len < total);
        let score = nodes[r].score;
        let ghost mut k: int = 0;
        match position {
            None => {
                nodes[r].prev = None;
                nodes[r].next = None;
                self.header = Some(r);
                self.tailer = Some(r);
            },
            Some(p) => {
                let ghost q = choose|q: int| self.anchor_at(nodes@, p, score, q);
                proof {
                    self.lemma_anchor_splits(nodes@, p, score, q);
                }
                let b = p.position.unwrap();
                if p.is_right {
                    proof {
                        k = q + 1;
                    }
                    let bn = nodes[b].next;
                    nodes[r].prev = Some(b);
                    nodes[r].next = bn;
                    nodes[b].next = Some(r);
                    match bn {
                        Some(x) => {
                            nodes[x].prev = Some(r);
                        },
                        None => {
                            self.tailer = Some(r);
                        },
                    }
                    assert(forall|i: int| 0 <= i < old_nodes.len() && i != b && i != r && (bn != Some(i as usize)) ==> nodes@[i] == old_nodes[i]);
                } else {
                    proof {
                        k = q;
                    }
                    let bp = nodes[b].prev;
                    nodes[r].next = Some(b);
                    nodes[r].prev = bp;
                    nodes[b].prev = Some(r);
                    match bp {
                        Some(x) => {
                            nodes[x].next = Some(r);
                        },
                        None => {
                            self.header = Some(r);
                        },
                    }
                    assert(forall|i: int| 0 <= i < old_nodes.len() && i != b && i != r && (bp != Some(i as usize)) ==> nodes@[i] == old_nodes[i]);
                }
                assert(forall|i: int| 0 <= i < k ==> old(self).key_at(old_nodes, i) < score);
                assert(forall|i: int| k <= i < o.len() ==> score < old(self).key_at(old_nodes, i));
            },
        }
        self.len = self.len + 1;
        self.order = Ghost(o.insert(k, r));
        proof {
            assert(forall|i: int| 0 <= i < o.len() ==> (#[trigger] o[i]) != r);
            Self::lemma_splice(*old(self), *self, old_nodes, nodes@, score, k, r);
        }
    }

    /// Unlinks the node at `position` from the level. The node stays in the
    /// arena with its key, value and tower links.
    #[verifier::spinoff_prover]
    pub fn remove<V>(&mut self, nodes: &mut Vec<Node<V>>, position: InsertPosition)
        requires
            old(self).wf(old(nodes)@),
            position.position matches Some(x) && old(self).order@.contains(x),
        ensures
            final(self).wf(final(nodes)@),
            final(self).level == old(self).level,
            final(nodes)@.len() == old(nodes)@.len(),
            exists|k: int|
                0 <= k < old(self).order@.len() && Some(old(self).order@[k]) == position.position
                    && final(self).order@ == old(self).order@.remove(k),
            forall|i: int| 0 <= i < old(nodes)@.len() ==> Self::relinked(#[trigger] old(nodes)@[i], final(nodes)@[i], old(self).level),
    {
        let ghost o = self.order@;
        let ghost old_nodes = nodes@;
        proof {
            self.lemma_distinct(nodes@);
        }
        let x = position.position.unwrap();
        let ghost k = choose|k: int| 0 <= k < o.len() && o[k] == x;
        let front = nodes[x].prev;
        let next = nodes[x].next;
        match front {
            None => {
                self.header = next;
            },
            Some(f) => {
                nodes[f].next = next;
            },
        }
        match next {
            None => {
                self.tailer = front;
            },
            Some(n) => {
                nodes[n].prev = front;
            },
        }
        assert(forall|i: int| 0 <= i < old_nodes.len() && front != Some(i as usize) && next != Some(i as usize) ==> nodes@[i] == old_nodes[i]);
        assert(k > 0 ==> nodes@[o[k - 1] as int].next == next);
        assert(k + 1 < o.len() ==> nodes@[o[k + 1] as int].prev == front);
        self.len = self.len - 1;
        self.order = Ghost(o.remove(k));
        proof {
            let n = self.order@;
            assert(forall|i: int| 0 <= i < k ==> n[i] == o[i]);
            assert(forall|i: int| k <= i < n.len() ==> n[i] == o[i + 1]);
            assert(forall|i: int| 0 <= i < nodes@.len() ==> (#[trigger] nodes@[i]).score == old_nodes[i].score);
            assert(forall|i: int| 0 <= i < nodes@.len() ==> (#[trigger] nodes@[i]).level == old_nodes[i].level);
            assert forall|i: int| 0 <= i < n.len() implies (#[trigger] nodes@[n[i] as int]).next == (if i + 1 < n.len() { Some(n[i + 1]) } else { None }) by {
            }
            assert forall|i: int| 0 <= i < n.len() implies (#[trigger] nodes@[n[i] as int]).prev == (if i > 0 { Some(n[i - 1]) } else { None }) by {
            }
            assert forall|i: int, j: int| 0 <= i < j < n.len() implies #[trigger] self.key_at(nodes@, i) < #[trigger] self.key_at(nodes@, j) by {
                let i2 = if i < k { i } else { i + 1 };
                let j2 = if j < k { j } else { j + 1 };
                assert(old(self).key_at(old_nodes, i2) < old(self).key_at(old_nodes, j2));
            }
        }
    }

    /// Puts `score` with `data` in its place in the level: a key already
    /// present has its value replaced, a new key gets a new node.
    #[verifier::spinoff_prover]
    pub fn insert<V>(&mut self, nodes: &mut Vec<Node<V>>, score: u64, data: Option<V>)
        requires
            old(self).wf(old(nodes)@),
        ensures
            final(self).wf(final(nodes)@),
            final(self).level == old(self).level,
            old(self).keys(old(nodes)@).contains(score) ==> {
                &&& final(self).order@ == old(self).order@
                &&& exists|p: int|
                    0 <= p < old(self).order@.len() && old(self).key_at(old(nodes)@, p) == score
                        && final(nodes)@ == old(nodes)@.update(
                        old(self).order@[p] as int,
                        Node { data: data, ..old(nodes)@[old(self).order@[p] as int] },
                    )
            },
            !old(self).keys(old(nodes)@).contains(score) ==> {
                let r = old(nodes)@.len();
                &&& final(nodes)@.len() == r + 1
                &&& exists|k: int| 0 <= k <= old(self).order@.len() && final(self).order@ == #[trigger] old(self).order@.insert(k, r as usize)
                &&& final(nodes)@[r as int].score == score
                &&& final(nodes)@[r as int].data == data
                &&& forall|i: int| 0 <= i < r ==> Self::relinked(#[trigger] old(nodes)@[i], final(nodes)@[i], old(self).level)
            },
    {
        let ghost old_nodes = nodes@;
        let found = self.find(nodes, score, None);
        if let Some(p) = found {
            let ghost q = choose|q: int| self.anchor_at(nodes@, p, score, q);
            let idx = p.position.unwrap();
            if nodes[idx].score == score {
                nodes[idx].data = data;
                proof {
                    assert(self.keys(old_nodes)[q] == score);
                    assert(nodes@ == old_nodes.update(idx as int, Node { data: data, ..old_nodes[idx as int] }));
                    assert(forall|i: int| 0 <= i < nodes@.len() ==> (#[trigger] nodes@[i]).score == old_nodes[i].score
                        && nodes@[i].level == old_nodes[i].level && nodes@[i].next == old_nodes[i].next
                        && nodes@[i].prev == old_nodes[i].prev);
                    assert forall|i: int, j: int| 0 <= i < j < self.order@.len() implies #[trigger] self.key_at(nodes@, i) < #[trigger] self.key_at(nodes@, j) by {
                        assert(self.key_at(old_nodes, i) < self.key_at(old_nodes, j));
                    }
                }
                return;
            }
            proof {
                if self.keys(nodes@).contains(score) {
                    let t = choose|t: int| 0 <= t < self.order@.len() && self.keys(nodes@)[t] == score;
                    if t < q {
                        assert(self.key_at(nodes@, t) < self.key_at(nodes@, q));
                    } else if t > q {
                        assert(self.key_at(nodes@, q) < self.key_at(nodes@, t));
                    }
                }
            }
        }
        let r = self.insert_with_position(nodes, score, data, found);
        proof {
            let k = choose|k: int| 0 <= k <= old(self).order@.len() && self.order@ == old(self).order@.insert(k, r);
            assert(self.order@ == old(self).order@.insert(k, old_nodes.len() as usize));
        }
    }

    /// Unlinks the head of the level and returns its key.
    pub fn pop<V>(&mut self, nodes: &mut Vec<Node<V>>) -> (r: Option<u64>)
        requires
            old(self).wf(old(nodes)@),
        ensures
            final(self).wf(final(nodes)@),
            final(self).level == old(self).level,
            old(self).order@.len() == 0 ==> r is None && *final(self) == *old(self) && final(nodes)@ == old(nodes)@,
            old(self).order@.len() > 0 ==> r == Some(old(self).key_at(old(nodes)@, 0)) && final(self).order@
                == old(self).order@.drop_first(),
            final(nodes)@.len() == old(nodes)@.len(),
            forall|i: int| 0 <= i < old(nodes)@.len() ==> Self::relinked(#[trigger] old(nodes)@[i], final(nodes)@[i], old(self).level),
    {
        match self.header {
            None => None,
            Some(h) => {
                let s = nodes[h].score;
                assert(self.order@[0] == h);
                self.remove(nodes, InsertPosition::new(Some(h), true));
                assert(old(self).order@.remove(0) =~= old(self).order@.drop_first());
                Some(s)
            },
        }
    }

    /// The keys of the level from head to tail.
    pub fn to_debug<V>(&self, nodes: &Vec<Node<V>>) -> (r: Vec<u64>)
        requires
            self.wf(nodes@),
        ensures
            r@ == self.keys(nodes@),
    {
        let mut out: Vec<u64> = Vec::new();
        let mut cur = self.header;
        let ghost mut j: int = 0;
        while cur.is_some()
            invariant
                self.wf(nodes@),
                0 <= j <= self.order@.len(),
                cur == (if j < self.order@.len() { Some(self.order@[j]) } else { None::<usize> }),
                out@ == self.keys(nodes@).subrange(0, j),
            decreases self.order@.len() - j,
        {
            let c = cur.unwrap();
            out.push(nodes[c].score);
            cur = nodes[c].next;
            proof {
                j = j + 1;
            }
        }
        assert(out@ =~= self.keys(nodes@));
        out
    }

    /// The keys of the level from tail to head.
    pub fn to_debug_reverse<V>(&self, nodes: &Vec<Node<V>>) -> (r: Vec<u64>)
        requires
            self.wf(nodes@),
        ensures
            r@ == self.keys(nodes@).reverse(),
    {
        let mut out: Vec<u64> = Vec::new();
        let mut cur = self.tailer;
        let ghost n = self.order@.len();
        let ghost mut j: int = 0;
        while cur.is_some()
            invariant
                self.wf(nodes@),
                n == self.order@.len(),
                0 <= j <= n,
                cur == (if j < n { Some(self.order@[n - 1 - j]) } else { None::<usize> }),
                out@ == self.keys(nodes@).reverse().subrange(0, j),
            decreases n - j,
        {
            let c = cur.unwrap();
            out.push(nodes[c].score);
            cur = nodes[c].prev;
            proof {
                j = j + 1;
            }
            assert(out@ =~= self.keys(nodes@).reverse().subrange(0, j));
        }
        assert(out@ =~= self.keys(nodes@).reverse());
        out
    }
}

/// An element stays in a sequence when another one is inserted, and the
/// inserted one is in it.
pub proof fn lemma_insert_contains(s: Seq<usize>, k: int, r: usize)
    requires
        0 <= k <= s.len(),
    ensures
        s.insert(k, r).contains(r),
        forall|b: usize| s.contains(b) ==> #[trigger] s.insert(k, r).contains(b),
        forall|b: usize| #[trigger] s.insert(k, r).contains(b) ==> s.contains(b) || b == r,
{
    let t = s.insert(k, r);
    assert(t[k] == r);
    assert forall|b: usize| s.contains(b) implies #[trigger] s.insert(k, r).contains(b) by {
        let j = choose|j: int| 0 <= j < s.len() && s[j] == b;
        if j < k {
            assert(t[j] == b);
        } else {
            assert(t[j + 1] == b);
        }
    }
    assert forall|b: usize| #[trigger] s.insert(k, r).contains(b) implies s.contains(b) || b == r by {
        let j = choose|j: int| 0 <= j < t.len() && t[j] == b;
        if j < k {
            assert(s[j] == b);
        } else if j > k {
            assert(s[j - 1] == b);
        }
    }
}

/// Removing index `k` keeps every other element and adds none.
pub proof fn lemma_remove_contains(s: Seq<usize>, k: int)
    requires
        0 <= k < s.len(),
    ensures
        forall|b: usize| s.contains(b) && b != s[k] ==> #[trigger] s.remove(k).contains(b),
        forall|b: usize| #[trigger] s.remove(k).contains(b) ==> s.contains(b),
{
    let t = s.remove(k);
    assert forall|b: usize| s.contains(b) && b != s[k] implies #[trigger] s.remove(k).contains(b) by {
        let j = choose|j: int| 0 <= j < s.len() && s[j] == b;
        if j < k {
            assert(t[j] == b);
        } else {
            assert(t[j - 1] == b);
        }
    }
    assert forall|b: usize| #[trigger] s.remove(k).contains(b) implies s.contains(b) by {
        let j = choose|j: int| 0 <= j < t.len() && t[j] == b;
        if j < k {
            assert(s[j] == b);
        } else {
            assert(s[j + 1] == b);
        }
    }
}

/// A sequence of distinct indices below `n` that misses `r < n` has fewer
/// than `n` elements.
pub proof fn lemma_room_for(o: Seq<usize>, n: int, r: usize)
    requires
        forall|i: int| 0 <= i < o.len() ==> (#[trigger] o[i] as int) < n,
        forall|i: int, j: int| 0 <= i < o.len() && 0 <= j < o.len() && i != j ==> o[i] != o[j],
        (r as int) < n,
        !o.contains(r),
    ensures
        o.len() < n,
{
    let m = o.map_values(|x: usize| x as int);
    assert(m.no_duplicates()) by {
        assert forall|i: int, j: int| 0 <= i < m.len() && 0 <= j < m.len() && i != j implies m[i] != m[j] by {
            assert(o[i] != o[j]);
        }
    }
    m.unique_seq_to_set();
    lemma_int_range(0, n);
    assert(m.to_set().subset_of(set_int_range(0, n))) by {
        assert forall|x: int| m.to_set().contains(x) implies set_int_range(0, n).contains(x) by {
            let i = choose|i: int| 0 <= i < m.len() && m[i] == x;
        }
    }
    assert(!m.to_set().contains(r as int)) by {
        if m.to_set().contains(r as int) {
            let i = choose|i: int| 0 <= i < m.len() && m[i] == r as int;
            assert(o[i] == r);
        }
    }
    m.to_set().lemma_subset_not_in_lt(set_int_range(0, n), r as int);
}

} // verus!
