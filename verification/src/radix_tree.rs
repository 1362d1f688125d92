use vstd::prelude::*;

use crate::table::FlowEntry;

verus! {

/// Bit `k` of a byte string, the most significant bit of each byte first.
pub open spec fn key_bit(bytes: Seq<u8>, k: int) -> bool {
    (bytes[k / 8] >> ((7 - k % 8) as u8)) & 1u8 == 1u8
}

/// The first `n` bits of a byte string.
pub open spec fn key_bits(bytes: Seq<u8>, n: int) -> Seq<bool> {
    Seq::new(n as nat, |k: int| key_bit(bytes, k))
}

/// Number of leading set bits of a prefix mask.
pub open spec fn lead_ones(m: u8) -> u8 {
    if m & 0x80 == 0 {
        0
    } else if m & 0x40 == 0 {
        1
    } else if m & 0x20 == 0 {
        2
    } else if m & 0x10 == 0 {
        3
    } else if m & 0x08 == 0 {
        4
    } else if m & 0x04 == 0 {
        5
    } else if m & 0x02 == 0 {
        6
    } else if m & 0x01 == 0 {
        7
    } else {
        8
    }
}

/// The path of bits under which an entry whose key is `value`, with
/// `prefix_mask` on its last byte, is filed: all bits of the bytes but the
/// last, then the bits of the last byte up to the first clear bit of the mask.
pub open spec fn prefix_path(value: Seq<u8>, prefix_mask: u8) -> Seq<bool> {
    key_bits(value, 8 * (value.len() - 1) + lead_ones(prefix_mask))
}

/// `p` is a prefix of `q`.
pub open spec fn is_prefix(p: Seq<bool>, q: Seq<bool>) -> bool {
    p.len() <= q.len() && q.take(p.len() as int) == p
}

/// What `add` leaves at path `p`, given what stood there before (`old`),
/// for an entry filed under `path`: the entry is appended at `path`, and the
/// missing nodes on the way to it are created empty.
pub open spec fn after_add(old: Option<Seq<FlowEntry>>, p: Seq<bool>, path: Seq<bool>, entry: FlowEntry) -> Option<Seq<FlowEntry>> {
    if p == path {
        Some(
            match old {
                Some(e) => e,
                None => Seq::empty(),
            }.push(entry),
        )
    } else if is_prefix(p, path) && old is None {
        Some(Seq::empty())
    } else {
        old
    }
}

/// What stands at `p` once the nodes on the way to `path` exist.
spec fn with_path(old: Option<Seq<FlowEntry>>, p: Seq<bool>, path: Seq<bool>) -> Option<Seq<FlowEntry>> {
    if is_prefix(p, path) && old is None {
        Some(Seq::empty())
    } else {
        old
    }
}

proof fn lemma_flag_bit(byte: u8, j: u8)
    by (bit_vector)
    requires
        j < 8,
    ensures
        ((byte & (1u8 << ((7 - j) as u8))) == (1u8 << ((7 - j) as u8))) == (((byte >> ((7 - j) as u8)) & 1u8) == 1u8),
{
}

proof fn lemma_lead_ones_step(m: u8, j: u8)
    by (bit_vector)
    requires
        j < 8,
        lead_ones(m) >= j,
    ensures
        ((m & (1u8 << ((7 - j) as u8))) == (1u8 << ((7 - j) as u8))) ==> lead_ones(m) >= j + 1,
        ((m & (1u8 << ((7 - j) as u8))) != (1u8 << ((7 - j) as u8))) ==> lead_ones(m) == j,
        lead_ones(m) <= 8,
{
}

proof fn lemma_prefix_take(p: Seq<bool>, path: Seq<bool>, d: int)
    requires
        0 <= d < path.len(),
    ensures
        is_prefix(p, path.take(d + 1)) == (is_prefix(p, path.take(d)) || p == path.take(d + 1)),
{
    assert(path.take(d + 1).take(d + 1) =~= path.take(d + 1));
    if p.len() <= d {
        assert(path.take(d).take(p.len() as int) =~= path.take(d + 1).take(p.len() as int));
    }
}

struct Node {
    left: Option<usize>,
    right: Option<usize>,
    entries: Vec<FlowEntry>,
}

spec fn child(n: Node, b: bool) -> Option<usize> {
    if b {
        n.right
    } else {
        n.left
    }
}

/// The node reached from the root along path `p`.
spec fn walk(nodes: Seq<Node>, p: Seq<bool>) -> Option<int>
    decreases p.len(),
{
    if p.len() == 0 {
        if nodes.len() > 0 {
            Some(0)
        } else {
            None
        }
    } else {
        match walk(nodes, p.drop_last()) {
            Some(i) => if 0 <= i < nodes.len() {
                match child(nodes[i], p.last()) {
                    Some(c) => Some(c as int),
                    None => None,
                }
            } else {
                None
            },
            None => None,
        }
    }
}

spec fn link_ok(nodes: Seq<Node>, paths: Seq<Seq<bool>>, i: int, b: bool) -> bool {
    match child(nodes[i], b) {
        Some(c) => c < nodes.len() && paths[c as int] == paths[i].push(b),
        None => true,
    }
}

spec fn parent_ok(nodes: Seq<Node>, paths: Seq<Seq<bool>>, parents: Seq<int>, c: int) -> bool {
    &&& 0 <= parents[c] < c
    &&& paths[c].len() > 0
    &&& paths[parents[c]] == paths[c].drop_last()
    &&& child(nodes[parents[c]], paths[c].last()) matches Some(x) && x as int == c
}

spec fn arena_ok(nodes: Seq<Node>, paths: Seq<Seq<bool>>, parents: Seq<int>) -> bool {
    &&& nodes.len() >= 1
    &&& paths.len() == nodes.len()
    &&& parents.len() == nodes.len()
    &&& paths[0] == Seq::<bool>::empty()
    &&& forall|i: int| 0 <= i < nodes.len() ==> #[trigger] link_ok(nodes, paths, i, false)
    &&& forall|i: int| 0 <= i < nodes.len() ==> #[trigger] link_ok(nodes, paths, i, true)
    &&& forall|c: int| 1 <= c < nodes.len() ==> #[trigger] parent_ok(nodes, paths, parents, c)
}

proof fn lemma_walk_sound(nodes: Seq<Node>, paths: Seq<Seq<bool>>, parents: Seq<int>, p: Seq<bool>)
    requires
        arena_ok(nodes, paths, parents),
    ensures
        walk(nodes, p) matches Some(i) ==> 0 <= i < nodes.len() && paths[i] == p,
    decreases p.len(),
{
    if p.len() > 0 {
        lemma_walk_sound(nodes, paths, parents, p.drop_last());
        if let Some(i) = walk(nodes, p.drop_last()) {
            assert(link_ok(nodes, paths, i, p.last()));
            assert(p.drop_last().push(p.last()) =~= p);
        }
    }
}

proof fn lemma_walk_complete(nodes: Seq<Node>, paths: Seq<Seq<bool>>, parents: Seq<int>, i: int)
    requires
        arena_ok(nodes, paths, parents),
        0 <= i < nodes.len(),
    ensures
        walk(nodes, paths[i]) == Some(i),
    decreases i,
{
    if i > 0 {
        assert(parent_ok(nodes, paths, parents, i));
        let j = parents[i];
        lemma_walk_complete(nodes, paths, parents, j);
        assert(walk(nodes, paths[i].drop_last()) == Some(j));
        assert(child(nodes[j], paths[i].last()) matches Some(x) && x as int == i);
    } else {
        assert(paths[0].len() == 0);
    }
}

/// Walking a path ends at the node whose path it is, and at no node when
/// no node has that path.
proof fn lemma_walk_iff(nodes: Seq<Node>, paths: Seq<Seq<bool>>, parents: Seq<int>, p: Seq<bool>)
    requires
        arena_ok(nodes, paths, parents),
    ensures
        walk(nodes, p) matches Some(i) ==> 0 <= i < nodes.len() && paths[i] == p,
        walk(nodes, p) is None ==> forall|k: int| 0 <= k < nodes.len() ==> paths[k] != p,
{
    lemma_walk_sound(nodes, paths, parents, p);
    if walk(nodes, p) is None {
        assert forall|k: int| 0 <= k < nodes.len() implies paths[k] != p by {
            lemma_walk_complete(nodes, paths, parents, k);
        }
    }
}

/// A trie of bit strings: each entry is filed under the path of bits of its
/// key on the tree's key index; entries that match any key value are kept
/// apart.
pub struct RadixTree {
    root: usize,
    nodes: Vec<Node>,
    any_entries: Vec<FlowEntry>,
    key_index: usize,
    paths: Ghost<Seq<Seq<bool>>>,
    parents: Ghost<Seq<int>>,
}

impl RadixTree {
    /// The nodes form a trie rooted at node 0.
    pub closed spec fn wf(&self) -> bool {
        &&& self.root == 0
        &&& arena_ok(self.nodes@, self.paths@, self.parents@)
    }

    /// The entries filed under path `p`, when a node stands at `p`.
    pub closed spec fn entries_at(&self, p: Seq<bool>) -> Option<Seq<FlowEntry>> {
        match walk(self.nodes@, p) {
            Some(i) => Some(self.nodes@[i].entries@),
            None => None,
        }
    }

    /// The entries that match any value of the key.
    pub closed spec fn any(&self) -> Seq<FlowEntry> {
        self.any_entries@
    }

    /// The index of the key the tree is built on.
    pub closed spec fn key_index(&self) -> usize {
        self.key_index
    }

    /// Search from bit `d` on, `rec` being the deepest path with entries met
    /// so far: the walk stops at the first missing child, and yields the
    /// deepest path with entries met on the way; a walk that consumes every
    /// bit yields nothing.
    pub open spec fn search_from(&self, bits: Seq<bool>, d: int, rec: Option<Seq<bool>>) -> Option<Seq<bool>>
        decreases bits.len() - d,
    {
        if d < 0 || d >= bits.len() {
            None
        } else {
            let p = bits.take(d);
            let rec2 = match self.entries_at(p) {
                Some(e) => if e.len() > 0 {
                    Some(p)
                } else {
                    rec
                },
                None => rec,
            };
            if self.entries_at(bits.take(d + 1)) is None {
                rec2
            } else {
                self.search_from(bits, d + 1, rec2)
            }
        }
    }

    /// The entries a search for the key bits `bits` returns.
    pub open spec fn search_result(&self, bits: Seq<bool>) -> Seq<FlowEntry> {
        match self.search_from(bits, 0, None) {
            Some(p) => match self.entries_at(p) {
                Some(e) => e,
                None => Seq::empty(),
            },
            None => self.any(),
        }
    }

    /// `after` is this tree once `entry` has been added (see `add`).
    pub open spec fn added(&self, after: RadixTree, entry: FlowEntry) -> bool {
        let ki = self.key_index() as int;
        &&& after.wf()
        &&& after.key_index() == self.key_index()
        &&& entry.values@[ki].value is None ==> {
            &&& after.any() == self.any().push(entry)
            &&& forall|p: Seq<bool>| #[trigger] after.entries_at(p) == self.entries_at(p)
        }
        &&& entry.values@[ki].value matches Some(v) ==> {
            &&& after.any() == self.any()
            &&& forall|p: Seq<bool>| #[trigger]
                after.entries_at(p) == after_add(
                    self.entries_at(p),
                    p,
                    prefix_path(v@, entry.values@[ki].prefix_mask),
                    entry,
                )
        }
    }

    /// An empty tree on key `key_index`: only the root, without entries.
    pub fn new(key_index: usize) -> (r: RadixTree)
        ensures
            r.wf(),
            r.key_index() == key_index,
            r.any() == Seq::<FlowEntry>::empty(),
            forall|p: Seq<bool>| #[trigger]
                r.entries_at(p) == (if p.len() == 0 {
                    Some(Seq::<FlowEntry>::empty())
                } else {
                    None::<Seq<FlowEntry>>
                }),
    {
        let mut nodes: Vec<Node> = Vec::new();
        nodes.push(Node { left: None, right: None, entries: Vec::new() });
        let r = RadixTree {
            root: 0,
            nodes,
            any_entries: Vec::new(),
            key_index,
            paths: Ghost(Seq::<Seq<bool>>::empty().push(Seq::<bool>::empty())),
            parents: Ghost(Seq::<int>::empty().push(0int)),
        };
        assert forall|p: Seq<bool>| #[trigger]
            r.entries_at(p) == (if p.len() == 0 {
                Some(Seq::<FlowEntry>::empty())
            } else {
                None::<Seq<FlowEntry>>
            }) by {
            lemma_walk_iff(r.nodes@, r.paths@, r.parents@, p);
        }
        r
    }

    /// Moves from `node` to its child for `bit`, creating an empty child when
    /// there is none.
    fn step(&mut self, node: usize, bit: bool) -> (r: usize)
        requires
            old(self).wf(),
            node < old(self).nodes@.len(),
        ensures
            final(self).wf(),
            r < final(self).nodes@.len(),
            final(self).paths@[r as int] == old(self).paths@[node as int].push(bit),
            final(self).any_entries@ == old(self).any_entries@,
            final(self).key_index == old(self).key_index,
            forall|p: Seq<bool>| #[trigger]
                final(self).entries_at(p) == (if p == old(self).paths@[node as int].push(bit)
                    && old(self).entries_at(p) is None {
                    Some(Seq::<FlowEntry>::empty())
                } else {
                    old(self).entries_at(p)
                }),
    {
        let ghost nodes0 = self.nodes@;
        let ghost paths0 = self.paths@;
        let ghost parents0 = self.parents@;
        let ghost newp = paths0[node as int].push(bit);
        let c = if bit {
            self.nodes[node].right
        } else {
            self.nodes[node].left
        };
        match c {
            Some(c) => {
                proof {
                    assert(link_ok(nodes0, paths0, node as int, bit));
                    assert forall|p: Seq<bool>| #[trigger]
                        self.entries_at(p) == (if p == newp && self.entries_at(p) is None {
                            Some(Seq::<FlowEntry>::empty())
                        } else {
                            self.entries_at(p)
                        }) by {
                        if p == newp {
                            lemma_walk_complete(nodes0, paths0, parents0, c as int);
                        }
                    }
                }
                c
            },
            None => {
                assert(child(nodes0[node as int], bit) is None);
                let idx = self.nodes.len();
                self.nodes.push(Node { left: None, right: None, entries: Vec::new() });
                if bit {
                    self.nodes[node].right = Some(idx);
                } else {
                    self.nodes[node].left = Some(idx);
                }
                self.paths = Ghost(paths0.push(newp));
                self.parents = Ghost(parents0.push(node as int));
                proof {
                    let nodes1 = self.nodes@;
                    let paths1 = self.paths@;
                    let parents1 = self.parents@;
                    assert(nodes1.len() == nodes0.len() + 1);
                    assert forall|i: int| 0 <= i < nodes1.len() implies #[trigger] link_ok(nodes1, paths1, i, false) by {
                        if i < nodes0.len() {
                            assert(link_ok(nodes0, paths0, i, false));
                        }
                    }
                    assert forall|i: int| 0 <= i < nodes1.len() implies #[trigger] link_ok(nodes1, paths1, i, true) by {
                        if i < nodes0.len() {
                            assert(link_ok(nodes0, paths0, i, true));
                        }
                    }
                    assert forall|k: int| 1 <= k < nodes1.len() implies #[trigger] parent_ok(nodes1, paths1, parents1, k) by {
                        if k < nodes0.len() {
                            assert(parent_ok(nodes0, paths0, parents0, k));
                            if parents0[k] == node as int {
                                assert(paths0[k].last() != bit);
                            }
                        } else {
                            assert(k == idx);
                            assert(paths1[k].drop_last() =~= paths0[node as int]);
                            assert(child(nodes1[node as int], bit) == Some(idx));
                        }
                    }
                    assert(arena_ok(nodes1, paths1, parents1));
                    assert forall|p: Seq<bool>| #[trigger]
                        self.entries_at(p) == (if p == newp && walk(nodes0, p) is None {
                            Some(Seq::<FlowEntry>::empty())
                        } else {
                            match walk(nodes0, p) {
                                Some(i) => Some(nodes0[i].entries@),
                                None => None,
                            }
                        }) by {
                        lemma_walk_iff(nodes1, paths1, parents1, p);
                        lemma_walk_iff(nodes0, paths0, parents0, p);
                        match walk(nodes1, p) {
                            Some(k) => {
                                if k < nodes0.len() {
                                    lemma_walk_complete(nodes0, paths0, parents0, k);
                                } else {
                                    assert(k == idx);
                                    if let Some(j) = walk(nodes0, p) {
                                        assert(1 <= j);
                                        assert(parent_ok(nodes0, paths0, parents0, j));
                                        let q = parents0[j];
                                        lemma_walk_complete(nodes0, paths0, parents0, q);
                                        lemma_walk_complete(nodes0, paths0, parents0, node as int);
                                        assert(paths0[j].drop_last() == paths0[node as int]);
                                        assert(paths0[j].last() == bit);
                                        assert(q == node);
                                        assert(false);
                                    }
                                }
                            },
                            None => {
                                assert(paths1[idx as int] == newp);
                                if let Some(j) = walk(nodes0, p) {
                                    assert(paths1[j] == p);
                                }
                            },
                        }
                    }
                }
                idx
            },
        }
    }

    /// One step of `add` along `path`: from the node at `path.take(d)` to
    /// the one at `path.take(d + 1)`.
    fn add_step(&mut self, node: usize, bit: bool, Ghost(path): Ghost<Seq<bool>>, Ghost(d): Ghost<int>, Ghost(start): Ghost<RadixTree>) -> (r: usize)
        requires
            old(self).wf(),
            node < old(self).nodes@.len(),
            0 <= d < path.len(),
            bit == path[d],
            old(self).paths@[node as int] == path.take(d),
            forall|p: Seq<bool>| #[trigger] old(self).entries_at(p) == with_path(start.entries_at(p), p, path.take(d)),
        ensures
            final(self).wf(),
            r < final(self).nodes@.len(),
            final(self).paths@[r as int] == path.take(d + 1),
            final(self).any_entries@ == old(self).any_entries@,
            final(self).key_index == old(self).key_index,
            forall|p: Seq<bool>| #[trigger] final(self).entries_at(p) == with_path(start.entries_at(p), p, path.take(d + 1)),
    {
        let ghost mid = *self;
        let r = self.step(node, bit);
        proof {
            assert(path.take(d).push(bit) =~= path.take(d + 1));
            assert forall|p: Seq<bool>| #[trigger] self.entries_at(p) == with_path(start.entries_at(p), p, path.take(d + 1)) by {
                lemma_prefix_take(p, path, d);
                assert(mid.entries_at(p) == with_path(start.entries_at(p), p, path.take(d)));
            }
        }
        r
    }

    /// Files `entry` under the path of its value on the tree's key, creating
    /// the missing nodes on the way; an entry that matches any value of the
    /// key joins the entries kept apart.
    pub fn add(&mut self, entry: FlowEntry)
        requires
            old(self).wf(),
            old(self).key_index() < entry.values@.len(),
            entry.values@[old(self).key_index() as int].value matches Some(v) ==> v@.len() >= 1,
        ensures
            final(self).wf(),
            final(self).key_index() == old(self).key_index(),
            entry.values@[old(self).key_index() as int].value is None ==> {
                &&& final(self).any() == old(self).any().push(entry)
                &&& forall|p: Seq<bool>| #[trigger] final(self).entries_at(p) == old(self).entries_at(p)
            },
            entry.values@[old(self).key_index() as int].value matches Some(v) ==> {
                &&& final(self).any() == old(self).any()
                &&& forall|p: Seq<bool>| #[trigger]
                    final(self).entries_at(p) == after_add(
                        old(self).entries_at(p),
                        p,
                        prefix_path(v@, entry.values@[old(self).key_index() as int].prefix_mask),
                        entry,
                    )
            },
    {
        let ki = self.key_index;
        let ghost start = *self;
        let node = match &entry.values[ki].value {
            None => {
                self.any_entries.push(entry);
                return ;
            },
            Some(value) => {
                let ghost path = prefix_path(value@, entry.values@[ki as int].prefix_mask);
                let mask = entry.values[ki].prefix_mask;
                let n = value.len();
                let mut node: usize = 0;
                proof {
                    assert forall|p: Seq<bool>| #[trigger] self.entries_at(p) == with_path(start.entries_at(p), p, path.take(0)) by {
                        if is_prefix(p, path.take(0)) {
                            assert(p.len() == 0);
                            lemma_walk_complete(self.nodes@, self.paths@, self.parents@, 0);
                        }
                    }
                    assert(path.take(0) =~= self.paths@[0]);
                }
                let mut i: usize = 0;
                while i < n - 1
                    invariant
                        self.wf(),
                        n == value@.len(),
                        n >= 1,
                        0 <= i <= n - 1,
                        path == prefix_path(value@, mask),
                        node < self.nodes@.len(),
                        self.paths@[node as int] == path.take(8 * i),
                        self.any_entries@ == start.any_entries@,
                        self.key_index == start.key_index,
                        forall|p: Seq<bool>| #[trigger] self.entries_at(p) == with_path(start.entries_at(p), p, path.take(8 * i)),
                    decreases n - 1 - i,
                {
                    let byte = value[i];
                    let mut j: u8 = 0;
                    while j < 8
                        invariant
                            self.wf(),
                            n == value@.len(),
                            0 <= i < n - 1,
                            j <= 8,
                            byte == value@[i as int],
                            path == prefix_path(value@, mask),
                            node < self.nodes@.len(),
                            self.paths@[node as int] == path.take(8 * i + j),
                            self.any_entries@ == start.any_entries@,
                            self.key_index == start.key_index,
                            forall|p: Seq<bool>| #[trigger] self.entries_at(p) == with_path(start.entries_at(p), p, path.take(8 * i + j)),
                        decreases 8 - j,
                    {
                        let flag: u8 = 1u8 << (7 - j);
                        let bit = (byte & flag) == flag;
                        proof {
                            lemma_flag_bit(byte, j);
                            let k = 8 * i + j;
                            assert(k / 8 == i && k % 8 == j);
                            assert(path[k] == key_bit(value@, k));
                        }
                        node = self.add_step(node, bit, Ghost(path), Ghost(8 * i + j), Ghost(start));
                        j = j + 1;
                    }
                    i = i + 1;
                }
                let byte = value[n - 1];
                let mut j: u8 = 0;
                while j < 8
                    invariant_except_break
                        lead_ones(mask) >= j,
                    invariant
                        self.wf(),
                        n == value@.len(),
                        n >= 1,
                        j <= 8,
                        byte == value@[n - 1],
                        path == prefix_path(value@, mask),
                        path.len() == 8 * (n - 1) + lead_ones(mask),
                        node < self.nodes@.len(),
                        self.paths@[node as int] == path.take(8 * (n - 1) + j),
                        self.any_entries@ == start.any_entries@,
                        self.key_index == start.key_index,
                        forall|p: Seq<bool>| #[trigger] self.entries_at(p) == with_path(start.entries_at(p), p, path.take(8 * (n - 1) + j)),
                    ensures
                        lead_ones(mask) == j,
                    decreases 8 - j,
                {
                    let flag: u8 = 1u8 << (7 - j);
                    proof {
                        lemma_lead_ones_step(mask, j);
                    }
                    if (mask & flag) != flag {
                        break;
                    }
                    let bit = (byte & flag) == flag;
                    proof {
                        lemma_flag_bit(byte, j);
                        let k = 8 * (n - 1) + j;
                        assert(k / 8 == n - 1 && k % 8 == j);
                        assert(path[k] == key_bit(value@, k));
                    }
                    node = self.add_step(node, bit, Ghost(path), Ghost(8 * (n - 1) + j), Ghost(start));
                    j = j + 1;
                }
                proof {
                    assert(path.take(path.len() as int) =~= path);
                    assert(self.paths@[node as int] == path);
                    assert(forall|p: Seq<bool>| #[trigger] self.entries_at(p) == with_path(start.entries_at(p), p, path));
                }
                node
            },
        };
        let ghost before = *self;
        let ghost path = prefix_path(entry.values@[ki as int].value.unwrap()@, entry.values@[ki as int].prefix_mask);
        assert(self.paths@[node as int] == path);
        assert(forall|p: Seq<bool>| #[trigger] before.entries_at(p) == with_path(start.entries_at(p), p, path));
        assert(node < self.nodes@.len());
        self.nodes[node].entries.push(entry);
        proof {
            assert(self.nodes@.len() == before.nodes@.len());
            assert forall|i: int| 0 <= i < self.nodes@.len() implies #[trigger] link_ok(self.nodes@, self.paths@, i, false) by {
                assert(link_ok(before.nodes@, before.paths@, i, false));
            }
            assert forall|i: int| 0 <= i < self.nodes@.len() implies #[trigger] link_ok(self.nodes@, self.paths@, i, true) by {
                assert(link_ok(before.nodes@, before.paths@, i, true));
            }
            assert forall|k: int| 1 <= k < self.nodes@.len() implies #[trigger] parent_ok(self.nodes@, self.paths@, self.parents@, k) by {
                assert(parent_ok(before.nodes@, before.paths@, before.parents@, k));
            }
            assert forall|p: Seq<bool>| #[trigger]
                self.entries_at(p) == after_add(start.entries_at(p), p, path, entry) by {
                lemma_walk_iff(self.nodes@, self.paths@, self.parents@, p);
                lemma_walk_iff(before.nodes@, before.paths@, before.parents@, p);
                assert(before.entries_at(p) == with_path(start.entries_at(p), p, path));
                match walk(self.nodes@, p) {
                    Some(k) => {
                        lemma_walk_complete(before.nodes@, before.paths@, before.parents@, k);
                        assert(walk(before.nodes@, p) == Some(k));
                        if k == node {
                            assert(p == path);
                            assert(self.nodes@[k].entries@ == before.nodes@[k].entries@.push(entry));
                        } else {
                            lemma_walk_complete(self.nodes@, self.paths@, self.parents@, node as int);
                            assert(p != path);
                            assert(self.nodes@[k].entries@ == before.nodes@[k].entries@);
                        }
                    },
                    None => {
                        if let Some(k) = walk(before.nodes@, p) {
                            lemma_walk_complete(self.nodes@, self.paths@, self.parents@, k);
                        }
                        assert(path.take(path.len() as int) =~= path);
                        assert(p != path);
                    },
                }
            }
        }
    }

    /// Whether `entry` can be added: it has a value for the tree's key, and
    /// a value given for it is not empty.
    pub fn add_fits(&self, entry: &FlowEntry) -> (r: bool)
        ensures
            r == (self.key_index() < entry.values@.len() && (entry.values@[self.key_index() as int].value matches Some(
                v,
            ) ==> v@.len() >= 1)),
    {
        if self.key_index >= entry.values.len() {
            return false;
        }
        match &entry.values[self.key_index].value {
            Some(v) => v.len() >= 1,
            None => true,
        }
    }

    /// The entries that match any value of the key.
    pub fn any_entries(&self) -> (r: &Vec<FlowEntry>)
        ensures
            r@ == self.any(),
    {
        &self.any_entries
    }

    /// Removing entries is not supported: the tree is left as it is.
    pub fn remove(&self) {
    }

    /// Longest-prefix search of the first `len` bytes of `pkt` from
    /// `offset` on (see `search_result`).
    pub fn search(&self, pkt: &[u8], offset: usize, len: usize) -> (r: &Vec<FlowEntry>)
        requires
            self.wf(),
            offset + len <= pkt@.len(),
        ensures
            r@ == self.search_result(key_bits(pkt@.subrange(offset as int, offset + len), 8 * len)),
    {
        let ghost key = pkt@.subrange(offset as int, offset + len);
        let ghost bits = key_bits(key, 8 * len);
        let pkt_len = pkt.len();
        let mut node: usize = 0;
        let mut rec: Option<usize> = None;
        let ghost mut recp: Option<Seq<bool>> = None;
        proof {
            lemma_walk_complete(self.nodes@, self.paths@, self.parents@, 0);
            assert(bits.take(0) =~= self.paths@[0]);
        }
        let mut i: usize = 0;
        while i < len
            invariant
                self.wf(),
                offset + len <= pkt@.len(),
                pkt_len == pkt@.len(),
                key == pkt@.subrange(offset as int, offset + len),
                bits == key_bits(key, 8 * len),
                0 <= i <= len,
                node < self.nodes@.len(),
                self.paths@[node as int] == bits.take(8 * i),
                rec matches Some(x) ==> x < self.nodes@.len() && recp == Some(self.paths@[x as int]),
                rec is None ==> recp is None,
                self.search_from(bits, 0, None) == self.search_from(bits, 8 * i, recp),
            decreases len - i,
        {
            let byte = pkt[offset + i];
            let mut j: u8 = 0;
            while j < 8
                invariant
                    self.wf(),
                    offset + len <= pkt@.len(),
                    key == pkt@.subrange(offset as int, offset + len),
                    bits == key_bits(key, 8 * len),
                    0 <= i < len,
                    byte == key[i as int],
                    j <= 8,
                    node < self.nodes@.len(),
                    self.paths@[node as int] == bits.take(8 * i + j),
                    rec matches Some(x) ==> x < self.nodes@.len() && recp == Some(self.paths@[x as int]),
                    rec is None ==> recp is None,
                    self.search_from(bits, 0, None) == self.search_from(bits, 8 * i + j, recp),
                decreases 8 - j,
            {
                let ghost d = 8 * i + j;
                let flag: u8 = 1u8 << (7 - j);
                let bit = (byte & flag) == flag;
                proof {
                    lemma_flag_bit(byte, j);
                    assert(d / 8 == i && d % 8 == j);
                    assert(bits[d] == bit);
                    lemma_walk_complete(self.nodes@, self.paths@, self.parents@, node as int);
                    assert(bits.take(d + 1).drop_last() =~= bits.take(d));
                    assert(self.entries_at(bits.take(d)) == Some(self.nodes@[node as int].entries@));
                }
                let ghost recp0 = recp;
                if self.nodes[node].entries.len() > 0 {
                    rec = Some(node);
                    proof {
                        recp = Some(bits.take(d));
                    }
                }
                let c = if bit {
                    self.nodes[node].right
                } else {
                    self.nodes[node].left
                };
                match c {
                    None => {
                        proof {
                            assert(walk(self.nodes@, bits.take(d + 1)) is None);
                            assert(self.search_from(bits, d, recp0) == recp);
                            if let Some(x) = rec {
                                lemma_walk_complete(self.nodes@, self.paths@, self.parents@, x as int);
                            }
                        }
                        return match rec {
                            Some(x) => &self.nodes[x].entries,
                            None => &self.any_entries,
                        };
                    },
                    Some(c) => {
                        proof {
                            assert(link_ok(self.nodes@, self.paths@, node as int, bit));
                            assert(bits.take(d).push(bit) =~= bits.take(d + 1));
                            lemma_walk_complete(self.nodes@, self.paths@, self.parents@, c as int);
                            assert(self.search_from(bits, d, recp0) == self.search_from(bits, d + 1, recp));
                        }
                        node = c;
                    },
                }
                j = j + 1;
            }
            i = i + 1;
        }
        &self.any_entries
    }
}

/// The path an entry with a value for key `ki` is filed under.
pub open spec fn entry_path(entry: FlowEntry, ki: usize) -> Seq<bool> {
    prefix_path(entry.values@[ki as int].value->0@, entry.values@[ki as int].prefix_mask)
}

/// `p` is a proper prefix of the key bits under which entries are filed.
pub open spec fn filed_prefix(t: RadixTree, bits: Seq<bool>, p: Seq<bool>) -> bool {
    &&& is_prefix(p, bits)
    &&& p.len() < bits.len()
    &&& t.entries_at(p) matches Some(e) && e.len() > 0
}

proof fn lemma_search_from_filed(t: RadixTree, bits: Seq<bool>, d: int, rec: Option<Seq<bool>>)
    requires
        rec matches Some(p) ==> filed_prefix(t, bits, p),
    ensures
        t.search_from(bits, d, rec) matches Some(p) ==> filed_prefix(t, bits, p),
    decreases bits.len() - d,
{
    if 0 <= d < bits.len() {
        let p = bits.take(d);
        assert(bits.take(p.len() as int) =~= p);
        let rec2 = match t.entries_at(p) {
            Some(e) => if e.len() > 0 {
                Some(p)
            } else {
                rec
            },
            None => rec,
        };
        if t.entries_at(bits.take(d + 1)) is Some {
            lemma_search_from_filed(t, bits, d + 1, rec2);
        }
    }
}

/// Law of a longest-prefix search: it returns the entries kept apart, or
/// the non-empty entries filed under a proper prefix of the key bits.
pub proof fn law_radix_search_result(t: RadixTree, bits: Seq<bool>)
    ensures
        t.search_result(bits) == t.any() || exists|p: Seq<bool>|
            #[trigger] filed_prefix(t, bits, p) && t.entries_at(p) == Some(t.search_result(bits)),
{
    lemma_search_from_filed(t, bits, 0, None);
    if let Some(p) = t.search_from(bits, 0, None) {
        assert(filed_prefix(t, bits, p));
    }
}

/// No prefix of `bits` longer than `path` and shorter than `bits` holds
/// entries.
pub open spec fn nothing_filed_past(t: RadixTree, bits: Seq<bool>, path: Seq<bool>) -> bool {
    forall|q: Seq<bool>|
        is_prefix(q, bits) && path.len() < q.len() < bits.len() ==> !(#[trigger] t.entries_at(q) matches Some(e) && e.len() > 0)
}

proof fn lemma_search_past_path(t: RadixTree, bits: Seq<bool>, path: Seq<bool>, d: int)
    requires
        path.len() < d < bits.len(),
        nothing_filed_past(t, bits, path),
        t.entries_at(bits) is None,
    ensures
        t.search_from(bits, d, Some(path)) == Some(path),
    decreases bits.len() - d,
{
    let p = bits.take(d);
    assert(is_prefix(p, bits)) by {
        assert(bits.take(p.len() as int) =~= p);
    }
    assert(!(t.entries_at(p) matches Some(e) && e.len() > 0));
    if t.entries_at(bits.take(d + 1)) is Some {
        if d + 1 == bits.len() {
            assert(bits.take(d + 1) =~= bits);
        } else {
            lemma_search_past_path(t, bits, path, d + 1);
        }
    }
}

proof fn lemma_search_along_path(t: RadixTree, bits: Seq<bool>, path: Seq<bool>, d: int, rec: Option<Seq<bool>>)
    requires
        0 <= d <= path.len(),
        is_prefix(path, bits),
        path.len() < bits.len(),
        forall|q: Seq<bool>| is_prefix(q, path) ==> #[trigger] t.entries_at(q) is Some,
        t.entries_at(path) matches Some(e) && e.len() > 0,
        nothing_filed_past(t, bits, path),
        t.entries_at(bits) is None,
    ensures
        t.search_from(bits, d, rec) == Some(path),
    decreases path.len() - d,
{
    let p = bits.take(d);
    assert(is_prefix(p, path)) by {
        assert(path.take(p.len() as int) =~= p);
    }
    let rec2 = match t.entries_at(p) {
        Some(e) => if e.len() > 0 {
            Some(p)
        } else {
            rec
        },
        None => rec,
    };
    if d < path.len() {
        let c = bits.take(d + 1);
        assert(is_prefix(c, path)) by {
            assert(path.take(c.len() as int) =~= c);
        }
        assert(t.entries_at(c) is Some);
        lemma_search_along_path(t, bits, path, d + 1, rec2);
    } else {
        assert(p =~= path);
        if t.entries_at(bits.take(d + 1)) is Some {
            if d + 1 == bits.len() {
                assert(bits.take(d + 1) =~= bits);
            } else {
                lemma_search_past_path(t, bits, path, d + 1);
            }
        }
    }
}

/// Law of the trie, a read after a write: once an entry with a value for
/// the key has been added, a key whose bits start with the entry's path
/// (and are longer than it) finds the entries filed under that path, the
/// added entry last, when no longer proper prefix of the key holds entries
/// and no node stands at the whole key.
pub proof fn law_radix_add_then_search(t0: RadixTree, t1: RadixTree, entry: FlowEntry, bits: Seq<bool>)
    requires
        t0.key_index() < entry.values@.len(),
        t0.added(t1, entry),
        entry.values@[t0.key_index() as int].value is Some,
        is_prefix(entry_path(entry, t0.key_index()), bits),
        entry_path(entry, t0.key_index()).len() < bits.len(),
        nothing_filed_past(t1, bits, entry_path(entry, t0.key_index())),
        t1.entries_at(bits) is None,
    ensures
        t1.entries_at(entry_path(entry, t0.key_index())) == Some(t1.search_result(bits)),
        t1.search_result(bits).last() == entry,
{
    let ki = t0.key_index() as int;
    let v = entry.values@[ki].value->0;
    let path = prefix_path(v@, entry.values@[ki].prefix_mask);
    assert forall|q: Seq<bool>| is_prefix(q, path) implies #[trigger] t1.entries_at(q) is Some by {
        assert(t1.entries_at(q) == after_add(t0.entries_at(q), q, path, entry));
    }
    assert(t1.entries_at(path) == after_add(t0.entries_at(path), path, path, entry));
    lemma_search_along_path(t1, bits, path, 0, None);
}

} // verus!
