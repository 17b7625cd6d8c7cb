use vstd::prelude::*;
use crate::level::{lemma_insert_contains, lemma_remove_contains, List};
use crate::node::{InsertPosition, Node};

verus! {

/// The number of levels of a skip list made by `Skiplist::new`.
pub const DEFAULT_MAX_LEVEL: usize = 10;

/// Relies on `rand::random::<bool>`: one bit drawn from the thread-local
/// generator. Nothing is promised of its value.
#[verifier::external_body]
fn coin_flip() -> bool {
    rand::random::<bool>()
}

/// The height of a tower decided by coin flips: one level, and one more
/// for each flip that comes up `false` before the first `true`, at most
/// `max_level`. A flip that is missing counts as `true`.
pub open spec fn height_of(flips: Seq<bool>, max_level: nat) -> nat
    decreases flips.len(),
{
    if max_level <= 1 || flips.len() == 0 || flips[0] {
        1
    } else {
        1 + height_of(flips.drop_first(), (max_level - 1) as nat)
    }
}

/// The height of `height_of` is between 1 and `max_level`.
pub proof fn lemma_height_range(flips: Seq<bool>, max_level: nat)
    requires
        max_level >= 1,
    ensures
        1 <= height_of(flips, max_level) <= max_level,
    decreases flips.len(),
{
    if !(max_level <= 1 || flips.len() == 0 || flips[0]) {
        lemma_height_range(flips.drop_first(), (max_level - 1) as nat);
    }
}

/// The tower height that `flips` decide, one flip per level above the
/// lowest.
pub fn height_from_flips(flips: &Vec<bool>, max_level: usize) -> (r: usize)
    requires
        max_level >= 1,
        flips@.len() + 1 >= max_level,
    ensures
        r == height_of(flips@, max_level as nat),
        1 <= r <= max_level,
{
    let mut h: usize = 1;
    assert(flips@.skip(0) =~= flips@);
    while h < max_level && !flips[h - 1]
        invariant
            1 <= h <= max_level,
            flips@.len() + 1 >= max_level,
            height_of(flips@, max_level as nat) == (h - 1) + height_of(flips@.skip(h - 1), (max_level - (h - 1)) as nat),
        decreases max_level - h,
    {
        proof {
            let t = flips@.skip(h - 1);
            assert(t[0] == flips@[h - 1]);
            assert(t.drop_first() =~= flips@.skip(h as int));
        }
        h = h + 1;
    }
    proof {
        let t = flips@.skip(h - 1);
        if h < max_level {
            assert(t[0] == flips@[h - 1]);
        }
        lemma_height_range(flips@, max_level as nat);
    }
    h
}

/// A tower height drawn from the thread-local generator: a coin is flipped
/// for each level above the lowest, and `height_from_flips` decides.
pub fn random_height(max_level: usize) -> (r: usize)
    requires
        max_level >= 1,
    ensures
        1 <= r <= max_level,
        exists|f: Seq<bool>| f.len() + 1 == max_level && r == #[trigger] height_of(f, max_level as nat),
{
    let mut flips: Vec<bool> = Vec::new();
    let mut i: usize = 1;
    while i < max_level
        invariant
            1 <= i <= max_level,
            flips@.len() + 1 == i,
        decreases max_level - i,
    {
        flips.push(coin_flip());
        i = i + 1;
    }
    height_from_flips(&flips, max_level)
}

/// An ordered map from `u64` keys to values, kept as a skip list.
///
/// Every node lives in `nodes`; `towers[l]` is the sorted list of level `l`.
/// Level 0 holds every key with its value; each higher level holds a subset
/// of the keys of the level below, linked to them by tower links.
pub struct Skiplist<V> {
    towers: Vec<List>,
    /// The arena of nodes.
    nodes: Vec<Node<V>>,
    /// Arena slots that no level holds, ready for reuse.
    free: Vec<usize>,
    /// The node the cursor hands out next, once it has started.
    next: Option<usize>,
    /// The cursor stands at the start.
    iterator_complete: bool,
    /// How many values the cursor has handed out since it started.
    cursor: Ghost<nat>,
}

impl<V> View for Skiplist<V> {
    type V = Map<u64, V>;

    /// Each key of the list with its value.
    closed spec fn view(&self) -> Map<u64, V> {
        seq_map(self.key_seq(), self.value_seq())
    }
}

impl<V> Skiplist<V> {
    /// The number of levels.
    pub closed spec fn levels(self) -> nat {
        self.towers@.len()
    }

    /// The keys of level `l`, in list order.
    pub closed spec fn level_keys(self, l: int) -> Seq<u64> {
        self.towers@[l].keys(self.nodes@)
    }

    /// `p` is the anchor of `key` at level `l`.
    pub closed spec fn anchors(self, l: int, p: InsertPosition, key: u64) -> bool {
        p.level == l && self.towers@[l].anchors(self.nodes@, p, key)
    }

    /// Level `l` holds key `k`.
    pub open spec fn at_level(self, l: int, k: u64) -> bool {
        self.level_keys(l).contains(k)
    }

    /// `self` is `before` with `score` put in: the levels are those of
    /// `before`, and a key that `before` lacked is added to the lowest `h`.
    pub open spec fn placed(self, before: Self, score: u64, h: int) -> bool {
        forall|l: int, k: u64| 0 <= l < before.levels() ==> #[trigger] self.at_level(l, k) == (before.at_level(l, k)
            || (k == score && !before@.contains_key(score) && l < h))
    }

    /// The keys in the order in which forward iteration yields them.
    pub open spec fn key_seq(self) -> Seq<u64> {
        self.level_keys(0)
    }

    /// The values in the order in which forward iteration yields them.
    pub closed spec fn value_seq(self) -> Seq<V> {
        Seq::new(
            self.towers@[0].order@.len(),
            |i: int| self.nodes@[self.towers@[0].order@[i] as int].data->Some_0,
        )
    }


    /// The tower links of node `x` of level `l` are consistent: it has a
    /// node with its key below it (above level 0), the node above it (if
    /// any) holds its key too, and both point back to it.
    closed spec fn links_ok(self, l: int, x: usize) -> bool {
        let n = self.nodes@[x as int];
        &&& (l == 0 ==> n.data is Some && n.tower_below is None)
        &&& (l > 0 ==> {
            &&& n.data is None
            &&& n.tower_below matches Some(b) && self.towers@[l - 1].order@.contains(b)
                && self.nodes@[b as int].score == n.score && self.nodes@[b as int].tower_above == Some(x)
        })
        &&& (n.tower_above matches Some(a) ==> {
            &&& l + 1 < self.towers@.len()
            &&& self.towers@[l + 1].order@.contains(a)
            &&& self.nodes@[a as int].score == n.score
            &&& self.nodes@[a as int].tower_below == Some(x)
        })
    }

    closed spec fn levels_wf(self) -> bool {
        &&& self.towers@.len() >= 1
        &&& forall|l: int| 0 <= l < self.towers@.len() ==> (#[trigger] self.towers@[l]).wf(self.nodes@)
            && self.towers@[l].level == l
    }

    /// The free slots are distinct arena indices that no level holds.
    closed spec fn free_wf(self) -> bool {
        &&& self.free@.no_duplicates()
        &&& forall|x: usize| #[trigger] self.free@.contains(x) ==> (x as int) < self.nodes@.len()
            && forall|l: int| 0 <= l < self.towers@.len() ==> !#[trigger] self.towers@[l].order@.contains(x)
    }

    closed spec fn cursor_wf(self) -> bool {
        &&& self.cursor@ <= self.towers@[0].order@.len()
        &&& self.iterator_complete ==> self.next is None && self.cursor@ == 0
        &&& !self.iterator_complete ==> self.next == (if self.cursor@ < self.towers@[0].order@.len() {
            Some(self.towers@[0].order@[self.cursor@ as int])
        } else {
            None
        })
    }

    /// The structure is consistent: every level is a well-formed sorted
    /// list, all tower links are consistent, the free slots are free and
    /// the cursor is in range.
    pub closed spec fn wf(self) -> bool {
        &&& self.levels_wf()
        &&& forall|l: int, x: usize| 0 <= l < self.towers@.len() && #[trigger] self.towers@[l].order@.contains(x)
            ==> #[trigger] self.links_ok(l, x)
        &&& self.free_wf()
        &&& self.cursor_wf()
    }

    /// Where forward iteration stands: the number of values the cursor has
    /// handed out since it last started.
    pub closed spec fn cursor_index(self) -> nat {
        self.cursor@
    }

    /// Whether the cursor stands at the start.
    pub closed spec fn cursor_at_start(self) -> bool {
        self.iterator_complete
    }

    /// A skip list of `DEFAULT_MAX_LEVEL` empty levels.
    pub fn new() -> (r: Self)
        ensures
            r.wf(),
            r@ == Map::<u64, V>::empty(),
            r.levels() == DEFAULT_MAX_LEVEL,
            r.cursor_at_start(),
    {
        let r = Self::with_max_level(DEFAULT_MAX_LEVEL);
        r.unwrap()
    }

    /// A skip list of `max_level` empty levels; `None` when `max_level` is 0.
    pub fn with_max_level(max_level: usize) -> (r: Option<Self>)
        ensures
            r is None <==> max_level == 0,
            r matches Some(s) ==> s.wf() && s@ == Map::<u64, V>::empty() && s.levels() == max_level
                && s.cursor_at_start(),
    {
        if max_level == 0 {
            return None;
        }
        let mut towers: Vec<List> = Vec::new();
        let mut i: usize = 0;
        while i < max_level
            invariant
                i <= max_level,
                towers@.len() == i,
                forall|l: int| 0 <= l < i ==> (#[trigger] towers@[l]).order@.len() == 0 && towers@[l].len == 0
                    && towers@[l].header is None && towers@[l].tailer is None && towers@[l].level == l,
            decreases max_level - i,
        {
            towers.push(List::new(i));
            i = i + 1;
        }
        let s = Skiplist { towers, nodes: Vec::new(), free: Vec::new(), next: None, iterator_complete: true, cursor: Ghost(0) };
        assert(s@ =~= Map::<u64, V>::empty());
        Some(s)
    }

    /// The keys of a level are strictly increasing.
    proof fn lemma_level_sorted(self, l: int)
        requires
            self.levels_wf(),
            0 <= l < self.levels(),
        ensures
            strictly_increasing(self.level_keys(l)),
    {
        let t = self.towers@[l];
        assert(t.wf(self.nodes@));
        assert forall|a: int, b: int| 0 <= a < b < self.level_keys(l).len() implies self.level_keys(l)[a] < self.level_keys(l)[b] by {
            assert(t.key_at(self.nodes@, a) < t.key_at(self.nodes@, b));
        }
    }

    /// A well-formed list has at least one level, and the keys of each
    /// level are strictly increasing, so no key repeats within a level.
    pub proof fn lemma_wf_facts(self)
        requires
            self.wf(),
        ensures
            self.levels() >= 1,
            forall|l: int| 0 <= l < self.levels() ==> #[trigger] strictly_increasing(self.level_keys(l)),
    {
        assert forall|l: int| 0 <= l < self.levels() implies #[trigger] strictly_increasing(self.level_keys(l)) by {
            self.lemma_level_sorted(l);
        }
    }

    /// The key of the node that anchor `p` names.
    pub closed spec fn anchor_key(self, p: InsertPosition) -> u64 {
        self.nodes@[p.position->Some_0 as int].score
    }

    /// An anchor of `key` at level `l` tells whether the level holds `key`:
    /// it does exactly when the anchor's node holds it. The anchor's own key
    /// is at the level.
    pub proof fn lemma_anchor_tells(self, l: int, p: InsertPosition, key: u64)
        requires
            self.wf(),
            0 <= l < self.levels(),
            self.anchors(l, p, key),
        ensures
            self.at_level(l, self.anchor_key(p)),
            self.at_level(l, key) <==> (p.is_right && self.anchor_key(p) == key),
            p.is_right ==> self.anchor_key(p) <= key,
            !p.is_right ==> key < self.anchor_key(p),
    {
        let t = self.towers@[l];
        assert(t.wf(self.nodes@));
        let q = choose|q: int| t.anchor_at(self.nodes@, p, key, q);
        t.lemma_anchor_hit(self.nodes@, p, key, q);
        assert(self.level_keys(l)[q] == self.anchor_key(p));
    }

    /// Every key at a level above 0 is at every level below it.
    pub proof fn lemma_tower_monotonic(self, l: int, k: u64)
        requires
            self.wf(),
            0 <= l < self.levels(),
            self.at_level(l, k),
        ensures
            forall|m: int| 0 <= m <= l ==> self.at_level(m, k),
        decreases l,
    {
        if l > 0 {
            let t = self.towers@[l];
            assert(t.wf(self.nodes@));
            let i = choose|i: int| 0 <= i < self.level_keys(l).len() && self.level_keys(l)[i] == k;
            let x = t.order@[i];
            assert(t.order@.contains(x));
            assert(self.links_ok(l, x));
            let b = self.nodes@[x as int].tower_below->Some_0;
            let u = self.towers@[l - 1];
            assert(u.wf(self.nodes@));
            let j = choose|j: int| 0 <= j < u.order@.len() && u.order@[j] == b;
            assert(self.level_keys(l - 1)[j] == k);
            self.lemma_tower_monotonic(l - 1, k);
        }
    }

    /// Tower links stay consistent when level `l` gains node `r` with key
    /// `score`, linked up from `below`, the node of `score` one level down.
    #[verifier::spinoff_prover]
    proof fn lemma_step_links(s0: Self, s1: Self, l: int, below: usize, r: usize, k: int, score: u64)
        requires
            s0.levels_wf(),
            s1.towers@.len() == s0.towers@.len(),
            0 <= l < s0.towers@.len(),
            forall|ll: int| 0 <= ll < s0.towers@.len() && ll != l ==> s1.towers@[ll] == s0.towers@[ll],
            0 <= k <= s0.towers@[l].order@.len(),
            s1.towers@[l].order@ == s0.towers@[l].order@.insert(k, r),
            (r as int) < s1.nodes@.len(),
            s0.nodes@.len() <= s1.nodes@.len(),
            forall|ll: int| 0 <= ll < s0.towers@.len() ==> !#[trigger] s0.towers@[ll].order@.contains(r),
            forall|ll: int, x: usize| 0 <= ll < s0.towers@.len() && #[trigger] s0.towers@[ll].order@.contains(x)
                ==> s0.links_ok(ll, x),
            forall|i: int| 0 <= i < s0.nodes@.len() && i != below && i != r ==> (#[trigger] s1.nodes@[i]).score == s0.nodes@[i].score
                && s1.nodes@[i].data == s0.nodes@[i].data && s1.nodes@[i].tower_above == s0.nodes@[i].tower_above
                && s1.nodes@[i].tower_below == s0.nodes@[i].tower_below,
            s1.nodes@[r as int].score == score,
            s1.nodes@[r as int].tower_above is None,
            l == 0 ==> below == r && s1.nodes@[r as int].data is Some && s1.nodes@[r as int].tower_below is None,
            l > 0 ==> {
                &&& s0.towers@[l - 1].order@.contains(below)
                &&& s0.nodes@[below as int].score == score
                &&& s0.nodes@[below as int].tower_above is None
                &&& s1.nodes@[below as int].score == score
                &&& s1.nodes@[below as int].data == s0.nodes@[below as int].data
                &&& s1.nodes@[below as int].tower_below == s0.nodes@[below as int].tower_below
                &&& s1.nodes@[below as int].tower_above == Some(r)
                &&& s1.nodes@[r as int].data is None
                &&& s1.nodes@[r as int].tower_below == Some(below)
            },
        ensures
            forall|ll: int, x: usize| 0 <= ll < s1.towers@.len() && #[trigger] s1.towers@[ll].order@.contains(x)
                ==> s1.links_ok(ll, x),
    {
        lemma_insert_contains(s0.towers@[l].order@, k, r);
        assert forall|ll: int, x: usize| 0 <= ll < s0.towers@.len() && #[trigger] s0.towers@[ll].order@.contains(x)
            implies (x as int) < s0.nodes@.len() && x != r by {
            assert(s0.towers@[ll].wf(s0.nodes@));
            let j = choose|j: int| 0 <= j < s0.towers@[ll].order@.len() && s0.towers@[ll].order@[j] == x;
        }
        assert forall|ll: int, x: usize| 0 <= ll < s0.towers@.len() && s0.towers@[ll].order@.contains(x)
            implies #[trigger] s1.towers@[ll].order@.contains(x) by {
        }
        assert forall|ll: int, x: usize| 0 <= ll < s1.towers@.len() && #[trigger] s1.towers@[ll].order@.contains(x)
            implies s1.links_ok(ll, x) by {
            if x == r {
                assert(ll == l) by {
                    if ll != l {
                        assert(s0.towers@[ll].order@.contains(x));
                    }
                }
            } else {
                assert(s0.towers@[ll].order@.contains(x));
                assert(s0.links_ok(ll, x));
                let n0 = s0.nodes@[x as int];
                if let Some(b) = n0.tower_below {
                    assert(s0.towers@[ll - 1].order@.contains(b));
                    assert(s1.towers@[ll - 1].order@.contains(b));
                    if l > 0 && b == below {
                        assert(false);
                    }
                }
                if let Some(a) = n0.tower_above {
                    assert(s0.towers@[ll + 1].order@.contains(a));
                    assert(s1.towers@[ll + 1].order@.contains(a));
                }
            }
        }
    }

    /// The anchor of `score` at every level, from the top level down: entry
    /// `i` is for level `levels - 1 - i`, and is `None` exactly when that
    /// level is empty. Each level's search starts from the node below the
    /// anchor of the level above.
    pub fn find_path(&self, score: &u64) -> (r: Vec<Option<InsertPosition>>)
        requires
            self.wf(),
        ensures
            r@.len() == self.levels(),
            forall|i: int| 0 <= i < r@.len() ==> {
                let l = self.levels() - 1 - i;
                &&& (#[trigger] r@[i] is None <==> self.level_keys(l).len() == 0)
                &&& (r@[i] matches Some(p) ==> self.anchors(l, p, *score))
            },
    {
        let mut path: Vec<Option<InsertPosition>> = Vec::new();
        let mut start: Option<usize> = None;
        let mut l: usize = self.towers.len();
        while l > 0
            invariant
                self.wf(),
                l <= self.towers@.len(),
                path@.len() == self.towers@.len() - l,
                l > 0 ==> (start matches Some(s) ==> self.towers@[l - 1].order@.contains(s)),
                forall|i: int| 0 <= i < path@.len() ==> {
                    let ll = self.levels() - 1 - i;
                    &&& (#[trigger] path@[i] is None <==> self.towers@[ll].order@.len() == 0)
                    &&& (path@[i] matches Some(p) ==> p.level == ll && self.towers@[ll].anchors(self.nodes@, p, *score))
                },
            decreases l,
        {
            l = l - 1;
            assert(self.towers@[l as int].wf(self.nodes@));
            let found = self.towers[l].find(&self.nodes, *score, start);
            start = None;
            if let Some(p) = found {
                if l > 0 {
                    let x = p.position.unwrap();
                    proof {
                        let q = choose|q: int| self.towers@[l as int].anchor_at(self.nodes@, p, *score, q);
                        assert(self.towers@[l as int].order@.contains(x));
                        assert(self.links_ok(l as int, x));
                    }
                    start = self.nodes[x].tower_below;
                }
            }
            path.push(found);
        }
        path
    }

    /// The value of `score`, or `None` when it is absent.
    pub fn peek(&self, score: &u64) -> (r: Option<&V>)
        requires
            self.wf(),
        ensures
            r is Some <==> self@.contains_key(*score),
            r matches Some(v) ==> *v == self@[*score],
    {
        let path = self.find_path(score);
        let last = path[path.len() - 1];
        assert(self.towers@[0].wf(self.nodes@));
        match last {
            None => {
                None
            },
            Some(p) => {
                let x = p.position.unwrap();
                let ghost q = choose|q: int| self.towers@[0].anchor_at(self.nodes@, p, *score, q);
                proof {
                    self.towers@[0].lemma_anchor_hit(self.nodes@, p, *score, q);
                }
                if p.is_right && self.nodes[x].score == *score {
                    proof {
                        assert(self.towers@[0].order@.contains(x));
                        assert(self.links_ok(0, x));
                        self.lemma_level_sorted(0);
                        lemma_pos_in(self.key_seq(), q);
                    }
                    self.nodes[x].get()
                } else {
                    None
                }
            },
        }
    }

    /// Puts `score` with `data` in the list. A key already present has its
    /// value replaced and its tower left as it is. A new key is placed at the
    /// lowest `height` levels, at least one and at most all of them.
    /// The cursor starts over.
    #[verifier::rlimit(80)]
    #[verifier::spinoff_prover]
    pub fn insert_with_height(&mut self, score: u64, data: V, height: usize)
        requires
            old(self).wf(),
        ensures
            final(self).wf(),
            final(self)@ == old(self)@.insert(score, data),
            final(self).levels() == old(self).levels(),
            final(self).cursor_at_start(),
            final(self).placed(*old(self), score, clamp_height(height, old(self).levels())),
    {
        let ghost s0 = *self;
        let path = self.find_path(&score);
        let n = self.towers.len();
        self.next = None;
        self.iterator_complete = true;
        self.cursor = Ghost(0);
        let ghost s_reset = *self;
        proof {
            assert(self.towers@[0].wf(self.nodes@));
            s0.lemma_level_sorted(0);
            assert forall|ll: int, x: usize| 0 <= ll < n && #[trigger] s_reset.towers@[ll].order@.contains(x)
                implies s_reset.links_ok(ll, x) by {
                assert(s0.links_ok(ll, x));
            }
            assert(s_reset.wf());
        }
        let base_pos = path[n - 1];
        if let Some(p) = base_pos {
            let x = p.position.unwrap();
            let ghost q = choose|q: int| s0.towers@[0].anchor_at(s0.nodes@, p, score, q);
            proof {
                s0.towers@[0].lemma_anchor_hit(s0.nodes@, p, score, q);
            }
            if p.is_right && self.nodes[x].score == score {
                self.nodes[x].data = Some(data);
                proof {
                    self.lemma_after_overwrite(s_reset, x, q, data);
                    lemma_seq_map_update(s0.key_seq(), s0.value_seq(), q, data);
                }
                return;
            }
        }
        proof {
            assert(!s0.at_level(0, score)) by {
                assert(path@[n - 1] == base_pos);
                if base_pos is None {
                    assert(s0.level_keys(0).len() == 0);
                }
            }
            assert forall|l: int| 0 <= l < n implies !s0.at_level(l, score) by {
                if s0.at_level(l, score) {
                    s0.lemma_tower_monotonic(l, score);
                }
            }
        }
        let h: usize = if height == 0 {
            1
        } else if height > n {
            n
        } else {
            height
        };
        let mut below = self.place(0, score, Some(data), base_pos);
        proof {
            let k = choose|k: int| 0 <= k <= s0.towers@[0].order@.len() && self.towers@[0].order@ == s0.towers@[0].order@.insert(k, below);
            self.lemma_after_insert(s_reset, self.nodes@, 0, below, below, k, score);
            assert forall|t: int| 0 <= t < self.towers@[0].order@.len() implies self.value_seq()[t] == s0.value_seq().insert(k, data)[t] by {
                if t < k {
                    assert(s_reset.towers@[0].order@.contains(s_reset.towers@[0].order@[t]));
                } else if t > k {
                    assert(s_reset.towers@[0].order@.contains(s_reset.towers@[0].order@[t - 1]));
                }
            }
            assert(self.value_seq() =~= s0.value_seq().insert(k, data));
            self.lemma_level_sorted(0);
            lemma_seq_map_insert(s0.key_seq(), s0.value_seq(), k, score, data);
            lemma_insert_contains(s0.towers@[0].order@, k, below);
        }
        let mut l: usize = 1;
        while l < h
            invariant
                n == self.towers@.len(),
                n == s0.towers@.len(),
                1 <= l <= h <= n,
                h == clamp_height(height, n as nat),
                s0.wf(),
                self.levels_wf(),
                self.free_wf(),
                self.cursor_wf(),
                self.iterator_complete,
                path@.len() == n,
                forall|i: int| 0 <= i < n ==> {
                    let ll = n - 1 - i;
                    &&& (#[trigger] path@[i] is None <==> s0.level_keys(ll).len() == 0)
                    &&& (path@[i] matches Some(p) ==> s0.anchors(ll, p, score))
                },
                forall|ll: int| l <= ll < n ==> #[trigger] self.towers@[ll] == s0.towers@[ll],
                self.nodes@.len() >= s0.nodes@.len(),
                forall|ll: int, x: usize| l <= ll < n && #[trigger] s0.towers@[ll].order@.contains(x)
                    ==> self.nodes@[x as int].score == s0.nodes@[x as int].score,
                forall|ll: int, x: usize| 0 <= ll < n && #[trigger] self.towers@[ll].order@.contains(x)
                    ==> self.links_ok(ll, x),
                self.towers@[l - 1].order@.contains(below),
                self.nodes@[below as int].score == score,
                self.nodes@[below as int].tower_above is None,
                forall|ll: int| 0 <= ll < n ==> !s0.at_level(ll, score),
                forall|ll: int, k: u64| 0 <= ll < n ==> #[trigger] self.at_level(ll, k) == (s0.at_level(ll, k) || (k == score && ll < l)),
                self@ == s0@.insert(score, data),
            decreases h - l,
        {
            let ghost s1 = *self;
            let pl = path[n - 1 - l];
            proof {
                assert(path@[n - 1 - l] == pl);
                assert(s0.towers@[l as int].wf(s0.nodes@));
                assert(self.towers@[l as int].wf(self.nodes@));
                if let Some(p) = pl {
                    assert forall|i: int| 0 <= i < s0.towers@[l as int].order@.len() implies (#[trigger] self.nodes@[s0.towers@[l as int].order@[i] as int]).score
                        == s0.nodes@[s0.towers@[l as int].order@[i] as int].score by {
                        assert(s0.towers@[l as int].order@.contains(s0.towers@[l as int].order@[i]));
                    }
                    s0.towers@[l as int].lemma_anchor_frame(s0.nodes@, self.nodes@, p, score);
                }
                assert(!self.at_level(l as int, score));
            }
            let r = self.place(l, score, None, pl);
            let ghost mid = self.nodes@;
            let ghost placed = *self;
            self.nodes[r].tower_below = Some(below);
            self.nodes[below].tower_above = Some(r);
            proof {
                let k = choose|k: int| 0 <= k <= s1.towers@[l as int].order@.len() && placed.towers@[l as int].order@ == s1.towers@[l as int].order@.insert(k, r);
                self.lemma_after_insert(s1, mid, l as int, below, r, k, score);
                lemma_insert_contains(s1.towers@[l as int].order@, k, r);
                assert(self.value_seq() =~= s1.value_seq());
                assert forall|ll: int, x: usize| l + 1 <= ll < n && #[trigger] s0.towers@[ll].order@.contains(x)
                    implies self.nodes@[x as int].score == s0.nodes@[x as int].score by {
                    assert(s1.towers@[ll] == s0.towers@[ll]);
                    assert(s1.towers@[ll].order@.contains(x));
                }
            }
            below = r;
            l = l + 1;
        }
        proof {
            assert forall|ll: int, k: u64| 0 <= ll < n implies #[trigger] self.at_level(ll, k) == (s0.at_level(ll, k)
                || (k == score && !s0@.contains_key(score) && ll < clamp_height(height, s0.levels()))) by {
                assert(!s0@.contains_key(score));
            }
        }
    }

    /// After level `l` of `s1` gains node `r` through
    /// `List::insert_with_position` and, above level 0, `r` and `below` are
    /// linked, the structure is consistent and only level `l` gained `score`.
    #[verifier::rlimit(60)]
    #[verifier::spinoff_prover]
    proof fn lemma_after_insert(self, s1: Self, mid: Seq<Node<V>>, l: int, below: usize, r: usize, k: int, score: u64)
        requires
            s1.levels_wf(),
            s1.cursor_wf(),
            s1.iterator_complete,
            forall|ll: int, x: usize| 0 <= ll < s1.towers@.len() && #[trigger] s1.towers@[ll].order@.contains(x)
                ==> s1.links_ok(ll, x),
            0 <= l < s1.towers@.len(),
            self.towers@.len() == s1.towers@.len(),
            forall|ll: int| 0 <= ll < s1.towers@.len() && ll != l ==> self.towers@[ll] == s1.towers@[ll],
            self.towers@[l].level == l,
            0 <= k <= s1.towers@[l].order@.len(),
            self.towers@[l].order@ == s1.towers@[l].order@.insert(k, r),
            (r as int) < self.nodes@.len(),
            s1.nodes@.len() <= self.nodes@.len(),
            forall|ll: int| 0 <= ll < s1.towers@.len() ==> !#[trigger] s1.towers@[ll].order@.contains(r),
            s1.free_wf(),
            self.free@.no_duplicates(),
            forall|x: usize| #[trigger] self.free@.contains(x) ==> s1.free@.contains(x) && x != r,
            self.next == s1.next,
            self.iterator_complete == s1.iterator_complete,
            self.cursor == s1.cursor,
            self.nodes@[r as int].score == score,
            self.nodes@[r as int].level == l,
            self.nodes@[r as int].tower_above is None,
            !s1.level_keys(l).contains(score),
            l == 0 ==> below == r && self.nodes@[r as int].data is Some && self.nodes@[r as int].tower_below is None,
            l == 0 ==> forall|i: int| 0 <= i < s1.nodes@.len() && i != r ==> List::relinked(#[trigger] s1.nodes@[i], self.nodes@[i], 0),
            l > 0 ==> {
                &&& s1.towers@[l - 1].order@.contains(below)
                &&& s1.nodes@[below as int].score == score
                &&& s1.nodes@[below as int].tower_above is None
                &&& self.nodes@[r as int].data is None
                &&& self.nodes@[r as int].tower_below == Some(below)
            },
            l > 0 ==> {
                &&& mid.len() == self.nodes@.len()
                &&& self.towers@[l].wf(mid)
                &&& forall|i: int| 0 <= i < s1.nodes@.len() && i != r ==> List::relinked(#[trigger] s1.nodes@[i], mid[i], l as usize)
                &&& self.nodes@ == mid.update(r as int, Node { tower_below: Some(below), ..mid[r as int] }).update(
                    below as int,
                    Node { tower_above: Some(r), ..mid[below as int] },
                )
            },
            l == 0 ==> self.towers@[0].wf(self.nodes@),
        ensures
            self.levels_wf(),
            self.cursor_wf(),
            forall|ll: int, x: usize| 0 <= ll < self.towers@.len() && #[trigger] self.towers@[ll].order@.contains(x)
                ==> self.links_ok(ll, x),
            self.free_wf(),
            forall|ll: int, x: usize| l < ll < s1.towers@.len() && #[trigger] s1.towers@[ll].order@.contains(x)
                ==> self.nodes@[x as int] == s1.nodes@[x as int],
            forall|ll: int, x: usize| 0 <= ll < s1.towers@.len() && #[trigger] s1.towers@[ll].order@.contains(x)
                ==> self.nodes@[x as int].data == s1.nodes@[x as int].data,
            forall|ll: int, x: u64| 0 <= ll < s1.towers@.len() ==> #[trigger] self.at_level(ll, x) == (s1.at_level(ll, x) || (x == score && ll == l)),
            self.level_keys(l) == s1.level_keys(l).insert(k, score),
            forall|ll: int| 0 <= ll < s1.towers@.len() && ll != l ==> #[trigger] self.level_keys(ll) == s1.level_keys(ll),
            l > 0 ==> self.value_seq() == s1.value_seq(),
    {
        let n = s1.towers@.len();
        assert(s1.towers@[l].wf(s1.nodes@));
        assert forall|ll: int, x: usize| 0 <= ll < n && #[trigger] s1.towers@[ll].order@.contains(x)
            implies (x as int) < s1.nodes@.len() && x != r && s1.nodes@[x as int].level == ll by {
            assert(s1.towers@[ll].wf(s1.nodes@));
            let j = choose|j: int| 0 <= j < s1.towers@[ll].order@.len() && s1.towers@[ll].order@[j] == x;
        }
        if l > 0 {
            assert(s1.towers@[l - 1].wf(s1.nodes@));
            let j = choose|j: int| 0 <= j < s1.towers@[l - 1].order@.len() && #[trigger] s1.towers@[l - 1].order@[j] == below;
            assert(s1.nodes@[below as int].level == l - 1);
            assert(mid[below as int] == s1.nodes@[below as int]);
            assert forall|i: int| 0 <= i < self.nodes@.len() implies (#[trigger] self.nodes@[i]).score == mid[i].score && self.nodes@[i].level == mid[i].level
                && self.nodes@[i].prev == mid[i].prev && self.nodes@[i].next == mid[i].next by {
            }
            self.towers@[l].lemma_wf_frame(mid, self.nodes@);
        }
        assert forall|ll: int, x: usize| 0 <= ll < n && ll != l && #[trigger] s1.towers@[ll].order@.contains(x)
            implies self.nodes@[x as int] == s1.nodes@[x as int] || (x == below && l > 0) by {
            if l > 0 {
                assert(List::relinked(s1.nodes@[x as int], mid[x as int], l as usize));
            } else {
                assert(List::relinked(s1.nodes@[x as int], self.nodes@[x as int], 0));
            }
        }
        assert forall|ll: int| 0 <= ll < n && ll != l implies (#[trigger] self.towers@[ll]).wf(self.nodes@)
            && self.towers@[ll].keys(self.nodes@) == s1.towers@[ll].keys(s1.nodes@) by {
            assert(s1.towers@[ll].wf(s1.nodes@));
            assert forall|i: int| 0 <= i < s1.towers@[ll].order@.len() implies (#[trigger] self.nodes@[s1.towers@[ll].order@[i] as int]).score
                == s1.nodes@[s1.towers@[ll].order@[i] as int].score
                && self.nodes@[s1.towers@[ll].order@[i] as int].level == s1.nodes@[s1.towers@[ll].order@[i] as int].level
                && self.nodes@[s1.towers@[ll].order@[i] as int].prev == s1.nodes@[s1.towers@[ll].order@[i] as int].prev
                && self.nodes@[s1.towers@[ll].order@[i] as int].next == s1.nodes@[s1.towers@[ll].order@[i] as int].next by {
                assert(s1.towers@[ll].order@.contains(s1.towers@[ll].order@[i]));
            }
            s1.towers@[ll].lemma_wf_frame(s1.nodes@, self.nodes@);
        }
        assert(self.levels_wf());
        assert forall|i: int| 0 <= i < s1.nodes@.len() && i != below && i != r implies (#[trigger] self.nodes@[i]).score == s1.nodes@[i].score
            && self.nodes@[i].data == s1.nodes@[i].data && self.nodes@[i].tower_above == s1.nodes@[i].tower_above
            && self.nodes@[i].tower_below == s1.nodes@[i].tower_below by {
            if l > 0 {
                assert(List::relinked(s1.nodes@[i], mid[i], l as usize));
            } else {
                assert(List::relinked(s1.nodes@[i], self.nodes@[i], 0));
            }
        }
        if l > 0 {
            assert(List::relinked(s1.nodes@[below as int], mid[below as int], l as usize));
        }
        Self::lemma_step_links(s1, self, l, below, r, k, score);
        assert forall|i: int| 0 <= i < s1.towers@[l].order@.len() implies (#[trigger] self.nodes@[s1.towers@[l].order@[i] as int]).score
            == s1.nodes@[s1.towers@[l].order@[i] as int].score by {
            assert(s1.towers@[l].order@.contains(s1.towers@[l].order@[i]));
        }
        List::lemma_keys_after_splice(s1.towers@[l], self.towers@[l], s1.nodes@, self.nodes@, k, r);
        assert forall|ll: int, x: u64| 0 <= ll < n implies #[trigger] self.at_level(ll, x) == (s1.at_level(ll, x) || (x == score && ll == l)) by {
        }
        if l > 0 {
            assert(self.value_seq() =~= s1.value_seq());
        }
        self.lemma_free_after_insert(s1, l, k, r);
    }

    /// The free slots stay free when level `l` gains slot `r`, which the
    /// free slots no longer hold.
    proof fn lemma_free_after_insert(self, s1: Self, l: int, k: int, r: usize)
        requires
            s1.free_wf(),
            0 <= l < s1.towers@.len(),
            self.towers@.len() == s1.towers@.len(),
            forall|ll: int| 0 <= ll < s1.towers@.len() && ll != l ==> self.towers@[ll] == s1.towers@[ll],
            0 <= k <= s1.towers@[l].order@.len(),
            self.towers@[l].order@ == s1.towers@[l].order@.insert(k, r),
            s1.nodes@.len() <= self.nodes@.len(),
            self.free@.no_duplicates(),
            forall|x: usize| #[trigger] self.free@.contains(x) ==> s1.free@.contains(x) && x != r,
        ensures
            self.free_wf(),
    {
        lemma_insert_contains(s1.towers@[l].order@, k, r);
        assert forall|x: usize| #[trigger] self.free@.contains(x) implies (x as int) < self.nodes@.len()
            && forall|ll: int| 0 <= ll < self.towers@.len() ==> !#[trigger] self.towers@[ll].order@.contains(x) by {
            assert(s1.free@.contains(x));
            assert(!s1.towers@[l].order@.contains(x));
        }
    }

    /// Puts `node` in a free arena slot, or in a new one at the end, and
    /// returns its index, which no level holds.
    fn take_slot(&mut self, node: Node<V>) -> (r: usize)
        requires
            old(self).levels_wf(),
            old(self).free_wf(),
        ensures
            final(self).towers == old(self).towers,
            final(self).next == old(self).next,
            final(self).iterator_complete == old(self).iterator_complete,
            final(self).cursor == old(self).cursor,
            (r as int) < final(self).nodes@.len(),
            old(self).nodes@.len() <= final(self).nodes@.len(),
            final(self).nodes@[r as int] == node,
            forall|i: int| 0 <= i < old(self).nodes@.len() && i != r ==> #[trigger] final(self).nodes@[i] == old(self).nodes@[i],
            forall|l: int| 0 <= l < old(self).towers@.len() ==> !#[trigger] old(self).towers@[l].order@.contains(r),
            final(self).free@.no_duplicates(),
            forall|x: usize| #[trigger] final(self).free@.contains(x) ==> old(self).free@.contains(x) && x != r,
    {
        let ghost f = self.free@;
        match self.free.pop() {
            Some(slot) => {
                proof {
                    assert(f.contains(slot)) by {
                        assert(f[f.len() - 1] == slot);
                    }
                    assert forall|x: usize| #[trigger] self.free@.contains(x) implies f.contains(x) && x != slot by {
                        let i = choose|i: int| 0 <= i < self.free@.len() && self.free@[i] == x;
                        assert(f[i] == x);
                        assert(f[f.len() - 1] == slot);
                    }
                }
                self.nodes[slot] = node;
                slot
            },
            None => {
                let r = self.nodes.len();
                proof {
                    assert forall|l: int| 0 <= l < self.towers@.len() implies !#[trigger] self.towers@[l].order@.contains(r) by {
                        assert(self.towers@[l].wf(self.nodes@));
                        if self.towers@[l].order@.contains(r) {
                            let j = choose|j: int| 0 <= j < self.towers@[l].order@.len() && self.towers@[l].order@[j] == r;
                        }
                    }
                }
                self.nodes.push(node);
                r
            },
        }
    }

    /// Puts a new node of `score` with `data` at level `l`, next to `pos`,
    /// and returns its arena index. The node has no tower links yet.
    #[verifier::spinoff_prover]
    fn place(&mut self, l: usize, score: u64, data: Option<V>, pos: Option<InsertPosition>) -> (r: usize)
        requires
            old(self).levels_wf(),
            old(self).free_wf(),
            l < old(self).towers@.len(),
            !old(self).at_level(l as int, score),
            pos is None <==> old(self).towers@[l as int].order@.len() == 0,
            pos matches Some(p) ==> old(self).towers@[l as int].anchors(old(self).nodes@, p, score),
        ensures
            final(self).towers@.len() == old(self).towers@.len(),
            forall|ll: int| 0 <= ll < old(self).towers@.len() && ll != l ==> #[trigger] final(self).towers@[ll] == old(self).towers@[ll],
            final(self).towers@[l as int].level == l,
            final(self).towers@[l as int].wf(final(self).nodes@),
            exists|k: int| 0 <= k <= old(self).towers@[l as int].order@.len()
                && final(self).towers@[l as int].order@ == old(self).towers@[l as int].order@.insert(k, r),
            (r as int) < final(self).nodes@.len(),
            old(self).nodes@.len() <= final(self).nodes@.len(),
            forall|ll: int| 0 <= ll < old(self).towers@.len() ==> !#[trigger] old(self).towers@[ll].order@.contains(r),
            final(self).free@.no_duplicates(),
            forall|x: usize| #[trigger] final(self).free@.contains(x) ==> old(self).free@.contains(x) && x != r,
            final(self).next == old(self).next,
            final(self).iterator_complete == old(self).iterator_complete,
            final(self).cursor == old(self).cursor,
            forall|i: int| 0 <= i < old(self).nodes@.len() && i != r ==> List::relinked(#[trigger] old(self).nodes@[i], final(self).nodes@[i], l),
            final(self).nodes@[r as int].score == score,
            final(self).nodes@[r as int].data == data,
            final(self).nodes@[r as int].level == l,
            final(self).nodes@[r as int].tower_above is None,
            final(self).nodes@[r as int].tower_below is None,
    {
        let mut node = Node::new(score, data);
        node.level = l;
        let r = self.take_slot(node);
        let ghost a = self.nodes@;
        proof {
            let t = self.towers@[l as int];
            assert(t.wf(old(self).nodes@));
            assert forall|i: int| 0 <= i < t.order@.len() implies (#[trigger] a[t.order@[i] as int]).score == old(self).nodes@[t.order@[i] as int].score
                && a[t.order@[i] as int].level == old(self).nodes@[t.order@[i] as int].level
                && a[t.order@[i] as int].prev == old(self).nodes@[t.order@[i] as int].prev
                && a[t.order@[i] as int].next == old(self).nodes@[t.order@[i] as int].next by {
                assert(t.order@.contains(t.order@[i]));
                assert((t.order@[i] as int) < old(self).nodes@.len());
            }
            t.lemma_wf_frame(old(self).nodes@, a);
            if let Some(p) = pos {
                t.lemma_anchor_frame(old(self).nodes@, a, p, score);
            }
        }
        self.towers[l].link_in(&mut self.nodes, r, pos);
        proof {
            assert forall|i: int| 0 <= i < old(self).nodes@.len() && i != r implies List::relinked(#[trigger] old(self).nodes@[i], self.nodes@[i], l) by {
                assert(a[i] == old(self).nodes@[i]);
                assert(List::relinked(a[i], self.nodes@[i], l));
            }
        }
        r
    }

    /// Replacing the value of the node at position `q` of level 0 keeps the
    /// structure consistent and replaces that value alone.
    #[verifier::spinoff_prover]
    proof fn lemma_after_overwrite(self, s1: Self, x: usize, q: int, data: V)
        requires
            s1.wf(),
            0 <= q < s1.towers@[0].order@.len(),
            s1.towers@[0].order@[q] == x,
            self.towers == s1.towers,
            self.free == s1.free,
            self.next == s1.next,
            self.iterator_complete == s1.iterator_complete,
            self.cursor == s1.cursor,
            self.nodes@ == s1.nodes@.update(x as int, Node { data: Some(data), ..s1.nodes@[x as int] }),
        ensures
            self.wf(),
            self.key_seq() == s1.key_seq(),
            self.value_seq() == s1.value_seq().update(q, data),
            forall|l: int, k: u64| 0 <= l < s1.levels() ==> #[trigger] self.at_level(l, k) == s1.at_level(l, k),
            strictly_increasing(s1.key_seq()),
    {
        let n = s1.towers@.len();
        assert(s1.towers@[0].wf(s1.nodes@));
        assert(s1.nodes@[x as int].level == 0);
        assert forall|ll: int| 0 <= ll < n implies (#[trigger] self.towers@[ll]).wf(self.nodes@)
            && self.towers@[ll].keys(self.nodes@) == s1.towers@[ll].keys(s1.nodes@) by {
            assert(s1.towers@[ll].wf(s1.nodes@));
            s1.towers@[ll].lemma_wf_frame(s1.nodes@, self.nodes@);
        }
        assert forall|ll: int, y: usize| 0 <= ll < n && #[trigger] self.towers@[ll].order@.contains(y)
            implies self.links_ok(ll, y) by {
            assert(s1.links_ok(ll, y));
            if y == x {
                assert(ll == 0) by {
                    assert(s1.towers@[ll].wf(s1.nodes@));
                    let j = choose|j: int| 0 <= j < s1.towers@[ll].order@.len() && s1.towers@[ll].order@[j] == y;
                }
            }
        }
        assert forall|y: usize| #[trigger] self.free@.contains(y) implies (y as int) < self.nodes@.len()
            && forall|ll: int| 0 <= ll < self.towers@.len() ==> !#[trigger] self.towers@[ll].order@.contains(y) by {
            assert(s1.free@.contains(y));
        }
        assert(self.value_seq() =~= s1.value_seq().update(q, data)) by {
            assert(s1.towers@[0].order@[q] == x);
            s1.towers@[0].lemma_distinct(s1.nodes@);
        }
        s1.lemma_level_sorted(0);
    }

    /// Removes `score` and its value from every level; nothing changes but
    /// the cursor when it is absent. The cursor starts over.
    #[verifier::spinoff_prover]
    pub fn remove(&mut self, score: &u64)
        requires
            old(self).wf(),
        ensures
            final(self).wf(),
            final(self)@ == old(self)@.remove(*score),
            final(self).levels() == old(self).levels(),
            final(self).cursor_at_start(),
            forall|l: int, k: u64| 0 <= l < old(self).levels() ==> #[trigger] final(self).at_level(l, k) == (old(self).at_level(l, k) && k != *score),
            !old(self)@.contains_key(*score) ==> final(self).key_seq() == old(self).key_seq()
                && final(self).value_seq() == old(self).value_seq(),
            !old(self)@.contains_key(*score) ==> forall|l: int| 0 <= l < old(self).levels()
                ==> #[trigger] final(self).level_keys(l) == old(self).level_keys(l),
    {
        let ghost s0 = *self;
        let path = self.find_path(score);
        let n = self.towers.len();
        self.next = None;
        self.iterator_complete = true;
        self.cursor = Ghost(0);
        proof {
            assert forall|ll: int, x: usize| 0 <= ll < n && #[trigger] self.towers@[ll].order@.contains(x)
                implies self.links_ok(ll, x) by {
                assert(s0.links_ok(ll, x));
            }
            assert forall|y: usize| #[trigger] self.free@.contains(y) implies (y as int) < self.nodes@.len()
                && forall|ll: int| 0 <= ll < self.towers@.len() ==> !#[trigger] self.towers@[ll].order@.contains(y) by {
                assert(s0.free@.contains(y));
            }
        }
        proof {
            assert(s0@.contains_key(*score) == s0.at_level(0, *score));
            if !s0@.contains_key(*score) {
                assert forall|ll: int| 0 <= ll < n implies !s0.at_level(ll, *score) by {
                    if s0.at_level(ll, *score) {
                        s0.lemma_tower_monotonic(ll, *score);
                    }
                }
            }
        }
        let mut i: usize = 0;
        while i + 1 < n
            invariant
                n == self.towers@.len(),
                n == s0.towers@.len(),
                i + 1 <= n,
                s0.wf(),
                self.levels_wf(),
                self.free_wf(),
                self.cursor_wf(),
                self.iterator_complete,
                path@.len() == n,
                forall|j: int| 0 <= j < n ==> {
                    let ll = n - 1 - j;
                    &&& (#[trigger] path@[j] is None <==> s0.level_keys(ll).len() == 0)
                    &&& (path@[j] matches Some(p) ==> s0.anchors(ll, p, *score))
                },
                forall|ll: int| 0 <= ll < n - i ==> #[trigger] self.towers@[ll] == s0.towers@[ll],
                self.nodes@.len() == s0.nodes@.len(),
                forall|j: int| 0 <= j < s0.nodes@.len() ==> (#[trigger] self.nodes@[j]).score == s0.nodes@[j].score
                    && self.nodes@[j].data == s0.nodes@[j].data,
                forall|ll: int, x: usize| 0 <= ll < n && #[trigger] self.towers@[ll].order@.contains(x)
                    && self.nodes@[x as int].score != *score ==> self.links_ok(ll, x),
                forall|ll: int, k: u64| 0 <= ll < n ==> #[trigger] self.at_level(ll, k) == (s0.at_level(ll, k) && (k != *score || ll < n - i)),
                self.key_seq() == s0.key_seq(),
                self.value_seq() == s0.value_seq(),
                !s0@.contains_key(*score) ==> self.towers == s0.towers && self.nodes == s0.nodes,
                !s0@.contains_key(*score) ==> forall|ll: int| 0 <= ll < n ==> !#[trigger] s0.at_level(ll, *score),
            decreases n - i,
        {
            let l = n - 1 - i;
            proof {
                if !s0@.contains_key(*score) {
                    assert(self.level_keys(l as int) == s0.level_keys(l as int));
                    assert(!s0.at_level(l as int, *score));
                }
            }
            self.remove_at(path[i], l, score, Ghost(s0));
            i = i + 1;
        }
        proof {
            if !s0@.contains_key(*score) {
                assert(self.level_keys(0) == s0.level_keys(0));
            }
        }
        self.remove_at(path[n - 1], 0, score, Ghost(s0));
        proof {
            assert forall|ll: int, x: usize| 0 <= ll < n && #[trigger] self.towers@[ll].order@.contains(x)
                implies self.links_ok(ll, x) by {
                assert(self.towers@[ll].wf(self.nodes@));
                let j = choose|j: int| 0 <= j < self.towers@[ll].order@.len() && self.towers@[ll].order@[j] == x;
                assert(self.level_keys(ll)[j] == self.nodes@[x as int].score);
                assert(self.at_level(ll, self.nodes@[x as int].score));
            }
        }
    }

    /// Unlinks the node of `score` from level `l` when `pos`, its anchor,
    /// holds it.
    #[verifier::spinoff_prover]
    fn remove_at(&mut self, pos: Option<InsertPosition>, l: usize, score: &u64, s0: Ghost<Self>)
        requires
            s0@.wf(),
            l < old(self).towers@.len(),
            old(self).towers@.len() == s0@.towers@.len(),
            old(self).levels_wf(),
            old(self).free_wf(),
            old(self).cursor_wf(),
            old(self).iterator_complete,
            pos is None <==> s0@.level_keys(l as int).len() == 0,
            pos matches Some(p) ==> s0@.anchors(l as int, p, *score),
            old(self).towers@[l as int] == s0@.towers@[l as int],
            old(self).nodes@.len() == s0@.nodes@.len(),
            forall|j: int| 0 <= j < s0@.nodes@.len() ==> (#[trigger] old(self).nodes@[j]).score == s0@.nodes@[j].score
                && old(self).nodes@[j].data == s0@.nodes@[j].data,
            forall|ll: int, x: usize| 0 <= ll < old(self).towers@.len() && #[trigger] old(self).towers@[ll].order@.contains(x)
                && old(self).nodes@[x as int].score != *score ==> old(self).links_ok(ll, x),
        ensures
            final(self).levels_wf(),
            final(self).free_wf(),
            final(self).cursor_wf(),
            final(self).iterator_complete,
            final(self).towers@.len() == old(self).towers@.len(),
            forall|ll: int| 0 <= ll < old(self).towers@.len() && ll != l ==> #[trigger] final(self).towers@[ll] == old(self).towers@[ll],
            final(self).nodes@.len() == old(self).nodes@.len(),
            forall|ll: int, x: usize| 0 <= ll < final(self).towers@.len() && #[trigger] final(self).towers@[ll].order@.contains(x)
                && final(self).nodes@[x as int].score != *score ==> final(self).links_ok(ll, x),
            forall|ll: int, k: u64| 0 <= ll < old(self).towers@.len() ==> #[trigger] final(self).at_level(ll, k) == (old(self).at_level(ll, k) && (k != *score || ll != l)),
            forall|j: int| 0 <= j < s0@.nodes@.len() ==> (#[trigger] final(self).nodes@[j]).score == s0@.nodes@[j].score,
            l > 0 ==> forall|j: int| 0 <= j < s0@.nodes@.len() ==> (#[trigger] final(self).nodes@[j]).data == s0@.nodes@[j].data,
            l > 0 ==> final(self).key_seq() == old(self).key_seq() && final(self).value_seq() == old(self).value_seq(),
            l == 0 ==> final(self)@ == old(self)@.remove(*score),
            !old(self).at_level(l as int, *score) ==> *final(self) == *old(self),
    {
        let ghost s1 = *self;
        let ghost n = self.towers@.len();
        proof {
            assert(s0@.towers@[l as int].wf(s0@.nodes@));
            assert(self.towers@[l as int].wf(self.nodes@));
        }
        if let Some(p) = pos {
            let x = p.position.unwrap();
            let ghost q: int;
            proof {
                s0@.towers@[l as int].lemma_anchor_frame(s0@.nodes@, self.nodes@, p, *score);
                q = choose|q: int| self.towers@[l as int].anchor_at(self.nodes@, p, *score, q);
                self.towers@[l as int].lemma_anchor_hit(self.nodes@, p, *score, q);
                assert(self.towers@[l as int].order@[q] == x);
            }
            if self.nodes[x].score == *score {
                self.towers[l].remove(&mut self.nodes, p);
                let ghost mid = self.nodes@;
                if l == 0 {
                    self.nodes[x].data = None;
                }
                self.free.push(x);
                proof {
                    let k = choose|k: int| 0 <= k < s1.towers@[l as int].order@.len() && Some(s1.towers@[l as int].order@[k]) == p.position
                        && self.towers@[l as int].order@ == s1.towers@[l as int].order@.remove(k);
                    self.lemma_after_remove(s1, mid, l as int, x, k, *score);
                }
                return;
            }
        }
        proof {
            if pos is None {
                assert(self.level_keys(l as int).len() == 0);
            }
        }
    }

    /// After level `l` of `s1` loses node `x`, the node of `score`, through
    /// `List::remove` (and at level 0 `x` is emptied of its value), the
    /// structure is consistent and only level `l` lost `score`.
    #[verifier::spinoff_prover]
    proof fn lemma_after_remove(self, s1: Self, mid: Seq<Node<V>>, l: int, x: usize, k: int, score: u64)
        requires
            s1.levels_wf(),
            s1.cursor_wf(),
            s1.iterator_complete,
            forall|ll: int, y: usize| 0 <= ll < s1.towers@.len() && #[trigger] s1.towers@[ll].order@.contains(y)
                && s1.nodes@[y as int].score != score ==> s1.links_ok(ll, y),
            0 <= l < s1.towers@.len(),
            self.towers@.len() == s1.towers@.len(),
            forall|ll: int| 0 <= ll < s1.towers@.len() && ll != l ==> self.towers@[ll] == s1.towers@[ll],
            self.towers@[l].level == l,
            0 <= k < s1.towers@[l].order@.len(),
            s1.towers@[l].order@[k] == x,
            s1.nodes@[x as int].score == score,
            self.towers@[l].order@ == s1.towers@[l].order@.remove(k),
            self.next == s1.next,
            self.iterator_complete == s1.iterator_complete,
            self.cursor == s1.cursor,
            mid.len() == s1.nodes@.len(),
            self.towers@[l].wf(mid),
            forall|i: int| 0 <= i < s1.nodes@.len() ==> List::relinked(#[trigger] s1.nodes@[i], mid[i], l as usize),
            l == 0 ==> self.nodes@ == mid.update(x as int, Node { data: None, ..mid[x as int] }),
            l > 0 ==> self.nodes@ == mid,
            s1.free_wf(),
            self.free@ == s1.free@.push(x),
        ensures
            self.levels_wf(),
            self.free_wf(),
            self.cursor_wf(),
            forall|ll: int, y: usize| 0 <= ll < self.towers@.len() && #[trigger] self.towers@[ll].order@.contains(y)
                && self.nodes@[y as int].score != score ==> self.links_ok(ll, y),
            forall|ll: int, y: u64| 0 <= ll < s1.towers@.len() ==> #[trigger] self.at_level(ll, y) == (s1.at_level(ll, y) && (y != score || ll != l)),
            self.nodes@.len() == s1.nodes@.len(),
            forall|i: int| 0 <= i < s1.nodes@.len() ==> (#[trigger] self.nodes@[i]).score == s1.nodes@[i].score,
            forall|i: int| 0 <= i < s1.nodes@.len() && i != x ==> (#[trigger] self.nodes@[i]).data == s1.nodes@[i].data,
            l > 0 ==> self.key_seq() == s1.key_seq() && self.value_seq() == s1.value_seq(),
            l == 0 ==> self@ == s1@.remove(score),
    {
        let n = s1.towers@.len();
        assert(s1.towers@[l].wf(s1.nodes@));
        assert(s1.nodes@[x as int].level == l);
        lemma_remove_contains(s1.towers@[l].order@, k);
        if l == 0 {
            self.towers@[l].lemma_wf_frame(mid, self.nodes@);
        }
        assert forall|ll: int| 0 <= ll < n && ll != l implies (#[trigger] self.towers@[ll]).wf(self.nodes@)
            && self.towers@[ll].keys(self.nodes@) == s1.towers@[ll].keys(s1.nodes@) by {
            assert(s1.towers@[ll].wf(s1.nodes@));
            s1.towers@[ll].lemma_wf_frame(s1.nodes@, self.nodes@);
        }
        assert(self.levels_wf());
        assert forall|ll: int, y: usize| 0 <= ll < n && #[trigger] self.towers@[ll].order@.contains(y)
            && self.nodes@[y as int].score != score implies self.links_ok(ll, y) by {
            assert(s1.towers@[ll].order@.contains(y));
            assert(s1.links_ok(ll, y));
            let n1 = s1.nodes@[y as int];
            if let Some(b) = n1.tower_below {
                assert(s1.towers@[ll - 1].order@.contains(b));
                assert(self.towers@[ll - 1].order@.contains(b));
            }
            if let Some(a) = n1.tower_above {
                assert(s1.towers@[ll + 1].order@.contains(a));
                assert(self.towers@[ll + 1].order@.contains(a));
            }
        }
        s1.towers@[l].lemma_distinct(s1.nodes@);
        assert forall|ll: int, y: usize| 0 <= ll < n && #[trigger] self.towers@[ll].order@.contains(y)
            implies s1.towers@[ll].order@.contains(y) && y != x by {
            if ll == l {
                let j = choose|j: int| 0 <= j < self.towers@[l].order@.len() && self.towers@[l].order@[j] == y;
                if j < k {
                    assert(s1.towers@[l].order@[j] == y);
                } else {
                    assert(s1.towers@[l].order@[j + 1] == y);
                }
            } else {
                assert(s1.towers@[ll].wf(s1.nodes@));
                let j = choose|j: int| 0 <= j < s1.towers@[ll].order@.len() && s1.towers@[ll].order@[j] == y;
            }
        }
        assert(!s1.free@.contains(x)) by {
            assert(s1.towers@[l].order@.contains(x));
        }
        assert forall|y: usize| #[trigger] self.free@.contains(y) implies (y as int) < self.nodes@.len()
            && forall|ll: int| 0 <= ll < self.towers@.len() ==> !#[trigger] self.towers@[ll].order@.contains(y) by {
            if y != x {
                let j = choose|j: int| 0 <= j < self.free@.len() && self.free@[j] == y;
                assert(s1.free@[j] == y);
                assert(s1.free@.contains(y));
            } else {
                assert(s1.towers@[l].order@.contains(x));
            }
        }
        assert(self.free@.no_duplicates()) by {
            assert forall|i: int, j: int| 0 <= i < j < self.free@.len() implies self.free@[i] != self.free@[j] by {
                if j == self.free@.len() - 1 {
                    assert(s1.free@.contains(s1.free@[i]));
                }
            }
        }
        s1.lemma_level_sorted(l);
        assert(self.level_keys(l) =~= s1.level_keys(l).remove(k));
        assert(s1.level_keys(l)[k] == score);
        lemma_remove_sorted(s1.level_keys(l), k);
        if l == 0 {
            assert(self.value_seq() =~= s1.value_seq().remove(k)) by {
                s1.towers@[0].lemma_distinct(s1.nodes@);
            }
            lemma_seq_map_remove(s1.key_seq(), s1.value_seq(), k);
        } else {
            assert(self.value_seq() =~= s1.value_seq());
        }
    }

    /// Puts `score` with `data` in the list. A key already present has its
    /// value replaced and its tower left as it is; a new key is placed at
    /// level 0 and promoted one level at a time for as long as a fair coin
    /// says so, up to the top level. The cursor starts over.
    pub fn insert(&mut self, score: u64, data: V)
        requires
            old(self).wf(),
        ensures
            final(self).wf(),
            final(self)@ == old(self)@.insert(score, data),
            final(self).levels() == old(self).levels(),
            final(self).cursor_at_start(),
            exists|f: Seq<bool>| f.len() + 1 == old(self).levels()
                && #[trigger] final(self).placed(*old(self), score, height_of(f, old(self).levels()) as int),
    {
        proof {
            self.lemma_wf_facts();
        }
        let height = random_height(self.towers.len());
        self.insert_with_height(score, data, height);
        assert(clamp_height(height, old(self).levels()) == height);
    }

    /// Puts `score` with `data` in the list, as `insert` does, with the coin
    /// flips given: a new key is placed at the lowest
    /// `height_of(flips, levels)` levels.
    pub fn insert_with_flips(&mut self, score: u64, data: V, flips: &Vec<bool>)
        requires
            old(self).wf(),
            flips@.len() + 1 >= old(self).levels(),
        ensures
            final(self).wf(),
            final(self)@ == old(self)@.insert(score, data),
            final(self).levels() == old(self).levels(),
            final(self).cursor_at_start(),
            final(self).placed(*old(self), score, height_of(flips@, old(self).levels()) as int),
    {
        proof {
            self.lemma_wf_facts();
        }
        let height = height_from_flips(flips, self.towers.len());
        self.insert_with_height(score, data, height);
        assert(clamp_height(height, old(self).levels()) == height);
    }

    /// Steps the cursor: hands out the next value in ascending key order, or
    /// `None` once every value has been handed out, after which the cursor
    /// starts over.
    pub fn next(&mut self) -> (r: Option<&V>)
        requires
            old(self).wf(),
        ensures
            final(self).wf(),
            final(self)@ == old(self)@,
            final(self).key_seq() == old(self).key_seq(),
            final(self).value_seq() == old(self).value_seq(),
            final(self).levels() == old(self).levels(),
            forall|l: int, k: u64| #[trigger] final(self).at_level(l, k) == old(self).at_level(l, k),
            ({
                let p = if old(self).cursor_at_start() { 0 } else { old(self).cursor_index() };
                &&& p < old(self).key_seq().len() ==> (r matches Some(v) && *v == old(self).value_seq()[p as int]
                    && !final(self).cursor_at_start() && final(self).cursor_index() == p + 1)
                &&& p >= old(self).key_seq().len() ==> (r is None && final(self).cursor_at_start())
            }),
    {
        match self.step() {
            Some(c) => self.nodes[c].get(),
            None => None,
        }
    }

    /// Moves the cursor one node on and returns the node it passed.
    fn step(&mut self) -> (r: Option<usize>)
        requires
            old(self).wf(),
        ensures
            final(self).wf(),
            final(self).towers == old(self).towers,
            final(self).nodes == old(self).nodes,
            ({
                let p = if old(self).cursor_at_start() { 0 } else { old(self).cursor_index() };
                &&& p < old(self).key_seq().len() ==> (r == Some(old(self).towers@[0].order@[p as int])
                    && !final(self).cursor_at_start() && final(self).cursor_index() == p + 1)
                &&& p >= old(self).key_seq().len() ==> (r is None && final(self).cursor_at_start())
            }),
            r matches Some(c) ==> old(self).towers@[0].order@.contains(c) && final(self).nodes@[c as int].data is Some,
    {
        let cur = if self.iterator_complete {
            self.cursor = Ghost(0);
            self.towers[0].header
        } else {
            self.next
        };
        proof {
            assert(self.towers@[0].wf(self.nodes@));
        }
        match cur {
            None => {
                self.iterator_complete = true;
                self.next = None;
                self.cursor = Ghost(0);
                proof {
                    assert forall|ll: int, x: usize| 0 <= ll < self.towers@.len() && #[trigger] self.towers@[ll].order@.contains(x)
                        implies self.links_ok(ll, x) by {
                        assert(old(self).links_ok(ll, x));
                    }
                }
                None
            },
            Some(c) => {
                proof {
                    let o = self.towers@[0].order@;
                    assert(o[self.cursor@ as int] == c);
                    assert(o.contains(c));
                    assert(self.links_ok(0, c));
                }
                self.next = self.nodes[c].next;
                self.iterator_complete = false;
                self.cursor = Ghost(self.cursor@ + 1);
                proof {
                    assert forall|ll: int, x: usize| 0 <= ll < self.towers@.len() && #[trigger] self.towers@[ll].order@.contains(x)
                        implies self.links_ok(ll, x) by {
                        assert(old(self).links_ok(ll, x));
                    }
                }
                Some(c)
            },
        }
    }

    /// The values in ascending key order.
    pub fn iterate_forward(&self) -> (r: Vec<&V>)
        requires
            self.wf(),
        ensures
            r@.len() == self.value_seq().len(),
            forall|i: int| 0 <= i < r@.len() ==> *r@[i] == self.value_seq()[i],
    {
        let mut out: Vec<&V> = Vec::new();
        let mut cur = self.towers[0].header;
        let ghost o = self.towers@[0].order@;
        let ghost mut j: int = 0;
        proof {
            assert(self.towers@[0].wf(self.nodes@));
        }
        while cur.is_some()
            invariant
                self.wf(),
                o == self.towers@[0].order@,
                self.towers@[0].wf(self.nodes@),
                0 <= j <= o.len(),
                cur == (if j < o.len() { Some(o[j]) } else { None::<usize> }),
                out@.len() == j,
                forall|i: int| 0 <= i < j ==> *out@[i] == self.value_seq()[i],
            decreases o.len() - j,
        {
            let c = cur.unwrap();
            proof {
                assert(o.contains(c));
                assert(self.links_ok(0, c));
            }
            match self.nodes[c].get() {
                Some(v) => out.push(v),
                None => {},
            }
            cur = self.nodes[c].next;
            proof {
                j = j + 1;
            }
        }
        out
    }

    /// The values in descending key order.
    pub fn iterate_backward(&self) -> (r: Vec<&V>)
        requires
            self.wf(),
        ensures
            r@.len() == self.value_seq().len(),
            forall|i: int| 0 <= i < r@.len() ==> *r@[i] == self.value_seq().reverse()[i],
    {
        let mut out: Vec<&V> = Vec::new();
        let mut cur = self.towers[0].tailer;
        let ghost o = self.towers@[0].order@;
        let ghost n = o.len();
        let ghost mut j: int = 0;
        proof {
            assert(self.towers@[0].wf(self.nodes@));
        }
        while cur.is_some()
            invariant
                self.wf(),
                o == self.towers@[0].order@,
                n == o.len(),
                self.towers@[0].wf(self.nodes@),
                0 <= j <= n,
                cur == (if j < n { Some(o[n - 1 - j]) } else { None::<usize> }),
                out@.len() == j,
                forall|i: int| 0 <= i < j ==> *out@[i] == self.value_seq()[n - 1 - i],
            decreases n - j,
        {
            let c = cur.unwrap();
            proof {
                assert(o.contains(c));
                assert(self.links_ok(0, c));
            }
            match self.nodes[c].get() {
                Some(v) => out.push(v),
                None => {},
            }
            cur = self.nodes[c].prev;
            proof {
                j = j + 1;
            }
        }
        out
    }

    /// The keys in ascending order.
    pub fn keys(&self) -> (r: Vec<u64>)
        requires
            self.wf(),
        ensures
            r@ == self.key_seq(),
    {
        proof {
            assert(self.towers@[0].wf(self.nodes@));
        }
        self.towers[0].to_debug(&self.nodes)
    }

    /// The number of levels.
    pub fn max_level(&self) -> (r: usize)
        ensures
            r == self.levels(),
    {
        self.towers.len()
    }

    /// The number of nodes at level `l`.
    pub fn level_len(&self, l: usize) -> (r: usize)
        requires
            self.wf(),
            l < self.levels(),
        ensures
            r == self.level_keys(l as int).len(),
    {
        proof {
            assert(self.towers@[l as int].wf(self.nodes@));
        }
        self.towers[l].len
    }

    /// The view and iteration agree: forward iteration runs through the keys
    /// in strictly ascending order, each with its value, and reaches every
    /// key; backward iteration yields the same values in reverse.
    pub proof fn lemma_iteration_order(self)
        requires
            self.wf(),
        ensures
            strictly_increasing(self.key_seq()),
            self.key_seq().len() == self.value_seq().len(),
            forall|i: int| 0 <= i < self.key_seq().len() ==> #[trigger] self@.contains_key(self.key_seq()[i])
                && self@[self.key_seq()[i]] == self.value_seq()[i],
            forall|k: u64| #[trigger] self@.contains_key(k) ==> self.key_seq().contains(k),
            self.value_seq().reverse().len() == self.value_seq().len(),
            forall|i: int| 0 <= i < self.value_seq().len() ==> #[trigger] self.value_seq().reverse()[i]
                == self.value_seq()[self.value_seq().len() - 1 - i],
    {
        self.lemma_level_sorted(0);
        assert forall|i: int| 0 <= i < self.key_seq().len() implies #[trigger] self@.contains_key(self.key_seq()[i])
            && self@[self.key_seq()[i]] == self.value_seq()[i] by {
            lemma_pos_in(self.key_seq(), i);
        }
    }

    /// A value put in under a key is what the key is then found with.
    pub proof fn lemma_round_trip(before: Self, after: Self, k: u64, v: V)
        requires
            after@ == before@.insert(k, v),
        ensures
            after@.contains_key(k),
            after@[k] == v,
    {
    }

    /// Putting in or removing another key leaves the value of a key as it
    /// was.
    pub proof fn lemma_value_kept(before: Self, after: Self, k: u64, other: u64, w: V)
        requires
            before@.contains_key(k),
            k != other,
            after@ == before@.insert(other, w) || after@ == before@.remove(other),
        ensures
            after@.contains_key(k),
            after@[k] == before@[k],
    {
    }

    /// `states` runs through a sequence of puts and removals of keys other
    /// than `k`: step `i` puts in or removes `others[i]`.
    pub open spec fn steps_on_other_keys(states: Seq<Self>, others: Seq<u64>, k: u64) -> bool {
        &&& others.len() + 1 == states.len()
        &&& forall|i: int| 0 <= i < others.len() ==> #[trigger] others[i] != k
            && (states[i + 1]@ == states[i]@.remove(others[i]) || exists|w: V| states[i + 1]@ == states[i]@.insert(others[i], w))
    }

    /// A value put in under `k` is found under `k` after any sequence of
    /// puts and removals of other keys.
    pub proof fn lemma_value_kept_through(states: Seq<Self>, others: Seq<u64>, k: u64, v: V)
        requires
            Self::steps_on_other_keys(states, others, k),
            states[0]@.contains_key(k),
            states[0]@[k] == v,
        ensures
            states.last()@.contains_key(k),
            states.last()@[k] == v,
        decreases states.len(),
    {
        if states.len() > 1 {
            let n = states.len() - 1;
            let i = n - 1;
            assert(Self::steps_on_other_keys(states.drop_last(), others.drop_last(), k)) by {
                assert forall|j: int| 0 <= j < others.drop_last().len() implies #[trigger] others.drop_last()[j] != k
                    && (states.drop_last()[j + 1]@ == states.drop_last()[j]@.remove(others.drop_last()[j])
                    || exists|w: V| states.drop_last()[j + 1]@ == states.drop_last()[j]@.insert(others.drop_last()[j], w)) by {
                    assert(others[j] != k);
                }
            }
            Self::lemma_value_kept_through(states.drop_last(), others.drop_last(), k, v);
            assert(others[i] != k);
            if states[i + 1]@ != states[i]@.remove(others[i]) {
                let w = choose|w: V| states[i + 1]@ == states[i]@.insert(others[i], w);
            }
        }
    }

    /// A removed key stays absent after any sequence of puts and removals
    /// of other keys.
    pub proof fn lemma_absent_kept_through(states: Seq<Self>, others: Seq<u64>, k: u64)
        requires
            Self::steps_on_other_keys(states, others, k),
            !states[0]@.contains_key(k),
        ensures
            !states.last()@.contains_key(k),
        decreases states.len(),
    {
        if states.len() > 1 {
            let n = states.len() - 1;
            let i = n - 1;
            assert(Self::steps_on_other_keys(states.drop_last(), others.drop_last(), k)) by {
                assert forall|j: int| 0 <= j < others.drop_last().len() implies #[trigger] others.drop_last()[j] != k
                    && (states.drop_last()[j + 1]@ == states.drop_last()[j]@.remove(others.drop_last()[j])
                    || exists|w: V| states.drop_last()[j + 1]@ == states.drop_last()[j]@.insert(others.drop_last()[j], w)) by {
                    assert(others[j] != k);
                }
            }
            Self::lemma_absent_kept_through(states.drop_last(), others.drop_last(), k);
            assert(others[i] != k);
            if states[i + 1]@ != states[i]@.remove(others[i]) {
                let w = choose|w: V| states[i + 1]@ == states[i]@.insert(others[i], w);
            }
        }
    }

    /// Putting in `k` with `v2` while `k` is present (put in earlier and not
    /// removed since) leaves `k` with `v2`, its tower as it was, and at most
    /// one node for `k` on each level.
    pub proof fn lemma_overwrite_once(s1: Self, s2: Self, k: u64, v2: V, h: int)
        requires
            s1@.contains_key(k),
            s2@ == s1@.insert(k, v2),
            s2.wf(),
            s2.levels() == s1.levels(),
            s2.placed(s1, k, h),
        ensures
            s2@.contains_key(k),
            s2@[k] == v2,
            forall|l: int| 0 <= l < s2.levels() ==> #[trigger] s2.at_level(l, k) == s1.at_level(l, k),
            forall|l: int, i: int, j: int| 0 <= l < s2.levels() && 0 <= i < s2.level_keys(l).len() && 0 <= j < s2.level_keys(l).len()
                && #[trigger] s2.level_keys(l)[i] == k && #[trigger] s2.level_keys(l)[j] == k ==> i == j,
    {
        assert forall|l: int, i: int, j: int| 0 <= l < s2.levels() && 0 <= i < s2.level_keys(l).len() && 0 <= j < s2.level_keys(l).len()
            && #[trigger] s2.level_keys(l)[i] == k && #[trigger] s2.level_keys(l)[j] == k implies i == j by {
            s2.lemma_level_sorted(l);
        }
    }

    /// After `k` is removed it has no value, and neither iteration nor any
    /// level holds it.
    pub proof fn lemma_removal_complete(before: Self, after: Self, k: u64)
        requires
            after.wf(),
            after.levels() == before.levels(),
            after@ == before@.remove(k),
            forall|l: int, x: u64| 0 <= l < before.levels() ==> #[trigger] after.at_level(l, x) == (before.at_level(l, x) && x != k),
        ensures
            !after@.contains_key(k),
            !after.key_seq().contains(k),
            !after.key_seq().reverse().contains(k),
            forall|l: int| 0 <= l < after.levels() ==> !#[trigger] after.at_level(l, k),
    {
        assert(!after.at_level(0, k));
        if after.key_seq().reverse().contains(k) {
            let i = choose|i: int| 0 <= i < after.key_seq().reverse().len() && after.key_seq().reverse()[i] == k;
            assert(after.key_seq()[after.key_seq().len() - 1 - i] == k);
        }
    }

    /// Removing a key that is absent leaves forward and backward iteration
    /// as they were.
    pub proof fn lemma_absent_remove(before: Self, after: Self, k: u64)
        requires
            before.wf(),
            after.wf(),
            !before@.contains_key(k),
            after@ == before@.remove(k),
        ensures
            after.key_seq() == before.key_seq(),
            after.value_seq() == before.value_seq(),
    {
        assert(after@ =~= before@);
        before.lemma_iteration_order();
        after.lemma_iteration_order();
        assert forall|x: u64| after.key_seq().contains(x) <==> before.key_seq().contains(x) by {
            assert(after@.contains_key(x) == after.key_seq().contains(x));
            assert(before@.contains_key(x) == before.key_seq().contains(x));
        }
        lemma_sorted_unique(after.key_seq(), before.key_seq());
        assert forall|i: int| 0 <= i < after.value_seq().len() implies after.value_seq()[i] == before.value_seq()[i] by {
            assert(after@.contains_key(after.key_seq()[i]));
            assert(before@.contains_key(before.key_seq()[i]));
        }
        assert(after.value_seq() =~= before.value_seq());
    }
}

pub open spec fn strictly_increasing(s: Seq<u64>) -> bool {
    forall|a: int, b: int| 0 <= a < b < s.len() ==> s[a] < s[b]
}

/// The number of levels that a new key given `height` is placed at.
pub open spec fn clamp_height(height: usize, levels: nat) -> int {
    if height == 0 {
        1
    } else if height > levels {
        levels as int
    } else {
        height as int
    }
}

/// The position of `k` in `s`.
pub open spec fn pos_in(s: Seq<u64>, k: u64) -> int {
    choose|i: int| 0 <= i < s.len() && s[i] == k
}

/// In a strictly increasing sequence a key is found at its own position.
pub proof fn lemma_pos_in(s: Seq<u64>, i: int)
    requires
        strictly_increasing(s),
        0 <= i < s.len(),
    ensures
        pos_in(s, s[i]) == i,
{
    let j = pos_in(s, s[i]);
    if j < i {
        assert(s[j] < s[i]);
    } else if j > i {
        assert(s[i] < s[j]);
    }
}

/// The map that sends each key of `ks` to the value at the same position
/// of `vs`.
pub open spec fn seq_map<V>(ks: Seq<u64>, vs: Seq<V>) -> Map<u64, V> {
    Map::new(|k: u64| ks.contains(k), |k: u64| vs[pos_in(ks, k)])
}

/// Inserting a new key into a sorted key sequence, with its value at the
/// same position, inserts it into the map.
pub proof fn lemma_seq_map_insert<V>(ks: Seq<u64>, vs: Seq<V>, k: int, key: u64, v: V)
    requires
        ks.len() == vs.len(),
        0 <= k <= ks.len(),
        strictly_increasing(ks),
        strictly_increasing(ks.insert(k, key)),
    ensures
        seq_map(ks.insert(k, key), vs.insert(k, v)) == seq_map(ks, vs).insert(key, v),
{
    let ks2 = ks.insert(k, key);
    let vs2 = vs.insert(k, v);
    assert(ks2[k] == key);
    lemma_pos_in(ks2, k);
    assert forall|x: u64| ks2.contains(x) <==> (ks.contains(x) || x == key) by {
        if ks.contains(x) {
            let j = choose|j: int| 0 <= j < ks.len() && ks[j] == x;
            if j < k {
                assert(ks2[j] == x);
            } else {
                assert(ks2[j + 1] == x);
            }
        }
        if ks2.contains(x) && x != key {
            let j = choose|j: int| 0 <= j < ks2.len() && ks2[j] == x;
            if j < k {
                assert(ks[j] == x);
            } else {
                assert(ks[j - 1] == x);
            }
        }
    }
    assert forall|x: u64| ks.contains(x) && x != key implies vs2[pos_in(ks2, x)] == vs[pos_in(ks, x)] by {
        let j = pos_in(ks, x);
        lemma_pos_in(ks, j);
        if j < k {
            assert(ks2[j] == x);
            lemma_pos_in(ks2, j);
        } else {
            assert(ks2[j + 1] == x);
            lemma_pos_in(ks2, j + 1);
        }
    }
    assert(seq_map(ks2, vs2) =~= seq_map(ks, vs).insert(key, v));
}

/// Replacing the value at a position replaces the value of its key.
pub proof fn lemma_seq_map_update<V>(ks: Seq<u64>, vs: Seq<V>, q: int, v: V)
    requires
        ks.len() == vs.len(),
        0 <= q < ks.len(),
        strictly_increasing(ks),
    ensures
        seq_map(ks, vs.update(q, v)) == seq_map(ks, vs).insert(ks[q], v),
{
    lemma_pos_in(ks, q);
    assert forall|x: u64| ks.contains(x) && x != ks[q] implies vs.update(q, v)[pos_in(ks, x)] == vs[pos_in(ks, x)] by {
        let j = pos_in(ks, x);
    }
    assert(seq_map(ks, vs.update(q, v)) =~= seq_map(ks, vs).insert(ks[q], v));
}

/// Removing a key and its value from the sequences removes it from the map.
pub proof fn lemma_seq_map_remove<V>(ks: Seq<u64>, vs: Seq<V>, q: int)
    requires
        ks.len() == vs.len(),
        0 <= q < ks.len(),
        strictly_increasing(ks),
    ensures
        seq_map(ks.remove(q), vs.remove(q)) == seq_map(ks, vs).remove(ks[q]),
{
    let ks2 = ks.remove(q);
    let vs2 = vs.remove(q);
    assert(strictly_increasing(ks2)) by {
        assert forall|a: int, b: int| 0 <= a < b < ks2.len() implies ks2[a] < ks2[b] by {
            let a2 = if a < q { a } else { a + 1 };
            let b2 = if b < q { b } else { b + 1 };
            assert(ks[a2] < ks[b2]);
        }
    }
    lemma_remove_sorted(ks, q);
    assert forall|x: u64| ks2.contains(x) implies vs2[pos_in(ks2, x)] == vs[pos_in(ks, x)] by {
        let j = pos_in(ks2, x);
        lemma_pos_in(ks2, j);
        if j < q {
            assert(ks[j] == x);
            lemma_pos_in(ks, j);
        } else {
            assert(ks[j + 1] == x);
            lemma_pos_in(ks, j + 1);
        }
    }
    assert(seq_map(ks2, vs2) =~= seq_map(ks, vs).remove(ks[q]));
}

/// Removing position `q` of a strictly increasing sequence removes exactly
/// the key at `q`.
pub proof fn lemma_remove_sorted(ks: Seq<u64>, q: int)
    requires
        strictly_increasing(ks),
        0 <= q < ks.len(),
    ensures
        forall|x: u64| #[trigger] ks.remove(q).contains(x) <==> (ks.contains(x) && x != ks[q]),
{
    let ks2 = ks.remove(q);
    assert forall|x: u64| #[trigger] ks.remove(q).contains(x) <==> (ks.contains(x) && x != ks[q]) by {
        if ks.contains(x) && x != ks[q] {
            let j = choose|j: int| 0 <= j < ks.len() && ks[j] == x;
            if j < q {
                assert(ks2[j] == x);
            } else {
                assert(ks2[j - 1] == x);
            }
        }
        if ks2.contains(x) {
            let j = choose|j: int| 0 <= j < ks2.len() && ks2[j] == x;
            if j < q {
                assert(ks[j] == x);
                assert(ks[j] < ks[q]);
            } else {
                assert(ks[j + 1] == x);
                assert(ks[q] < ks[j + 1]);
            }
        }
    }
}

/// Two strictly increasing sequences with the same elements are equal.
pub proof fn lemma_sorted_unique(a: Seq<u64>, b: Seq<u64>)
    requires
        strictly_increasing(a),
        strictly_increasing(b),
        forall|x: u64| a.contains(x) <==> b.contains(x),
    ensures
        a == b,
    decreases a.len(),
{
    if a.len() == 0 {
        if b.len() > 0 {
            assert(b.contains(b[0]));
        }
        assert(a =~= b);
    } else {
        assert(a.contains(a[0]));
        assert(b.len() > 0);
        assert(b.contains(b[0]));
        let i = choose|i: int| 0 <= i < b.len() && b[i] == a[0];
        let j = choose|j: int| 0 <= j < a.len() && a[j] == b[0];
        if i > 0 {
            assert(b[0] < b[i]);
            if j > 0 {
                assert(a[0] < a[j]);
            }
        }
        if j > 0 {
            assert(a[0] < a[j]);
        }
        assert(a[0] == b[0]);
        let a2 = a.drop_first();
        let b2 = b.drop_first();
        assert forall|x: u64| a2.contains(x) <==> b2.contains(x) by {
            if a2.contains(x) {
                let p = choose|p: int| 0 <= p < a2.len() && a2[p] == x;
                assert(a[p + 1] == x);
                assert(a[0] < a[p + 1]);
                assert(b.contains(x));
                let q = choose|q: int| 0 <= q < b.len() && b[q] == x;
                assert(q != 0);
                assert(b2[q - 1] == x);
            }
            if b2.contains(x) {
                let p = choose|p: int| 0 <= p < b2.len() && b2[p] == x;
                assert(b[p + 1] == x);
                assert(b[0] < b[p + 1]);
                assert(a.contains(x));
                let q = choose|q: int| 0 <= q < a.len() && a[q] == x;
                assert(q != 0);
                assert(a2[q - 1] == x);
            }
        }
        lemma_sorted_unique(a2, b2);
        assert(a =~= b) by {
            assert forall|t: int| 0 <= t < a.len() implies a[t] == b[t] by {
                if t > 0 {
                    assert(a[t] == a2[t - 1]);
                    assert(b[t] == b2[t - 1]);
                }
            }
        }
    }
}

} // verus!
