use vstd::prelude::*;

use crate::header::{lemma_lex_order_skip, lemma_lex_order_zero, lex_order};
use crate::table::FlowEntry;

verus! {

/// A node of the tree as the contracts see it: links to its parent and
/// children (indices into the node list), its key value, the entries filed
/// under it, and the heights the balancing keeps for its two subtrees.
pub ghost struct AvlNode {
    pub parent: Option<usize>,
    pub left: Option<usize>,
    pub right: Option<usize>,
    pub entries: Seq<FlowEntry>,
    pub value: Seq<u8>,
    pub r_height: i64,
    pub l_height: i64,
}

struct Node {
    parent: Option<usize>,
    left: Option<usize>,
    right: Option<usize>,
    entries: Vec<FlowEntry>,
    value: Vec<u8>,
    r_height: i64,
    l_height: i64,
}

spec fn node_view(n: Node) -> AvlNode {
    AvlNode {
        parent: n.parent,
        left: n.left,
        right: n.right,
        entries: n.entries@,
        value: n.value@,
        r_height: n.r_height,
        l_height: n.l_height,
    }
}

// ---------------------------------------------------------------------------
// Single-field updates of the node list
// ---------------------------------------------------------------------------

pub open spec fn set_left(s: Seq<AvlNode>, i: int, x: Option<usize>) -> Seq<AvlNode> {
    s.update(i, AvlNode { left: x, ..s[i] })
}

pub open spec fn set_right(s: Seq<AvlNode>, i: int, x: Option<usize>) -> Seq<AvlNode> {
    s.update(i, AvlNode { right: x, ..s[i] })
}

pub open spec fn set_parent(s: Seq<AvlNode>, i: int, x: Option<usize>) -> Seq<AvlNode> {
    s.update(i, AvlNode { parent: x, ..s[i] })
}

pub open spec fn set_rh(s: Seq<AvlNode>, i: int, h: int) -> Seq<AvlNode> {
    s.update(i, AvlNode { r_height: h as i64, ..s[i] })
}

pub open spec fn set_lh(s: Seq<AvlNode>, i: int, h: int) -> Seq<AvlNode> {
    s.update(i, AvlNode { l_height: h as i64, ..s[i] })
}

/// Every link of the node list points into it.
pub open spec fn links_ok(s: Seq<AvlNode>) -> bool {
    forall|i: int|
        0 <= i < s.len() ==> {
            &&& (#[trigger] s[i]).parent matches Some(p) ==> p < s.len()
            &&& s[i].left matches Some(c) ==> c < s.len()
            &&& s[i].right matches Some(c) ==> c < s.len()
        }
}

proof fn lemma_heights_keep_links(s: Seq<AvlNode>, i: int, h: int)
    requires
        links_ok(s),
        0 <= i < s.len(),
    ensures
        links_ok(set_rh(s, i, h)),
        links_ok(set_lh(s, i, h)),
{
    assert forall|k: int| 0 <= k < s.len() implies {
        &&& (#[trigger] set_rh(s, i, h)[k]).parent matches Some(p) ==> p < s.len()
        &&& set_rh(s, i, h)[k].left matches Some(c) ==> c < s.len()
        &&& set_rh(s, i, h)[k].right matches Some(c) ==> c < s.len()
    } by {
        assert(s[k].parent == set_rh(s, i, h)[k].parent);
    }
    assert forall|k: int| 0 <= k < s.len() implies {
        &&& (#[trigger] set_lh(s, i, h)[k]).parent matches Some(p) ==> p < s.len()
        &&& set_lh(s, i, h)[k].left matches Some(c) ==> c < s.len()
        &&& set_lh(s, i, h)[k].right matches Some(c) ==> c < s.len()
    } by {
        assert(s[k].parent == set_lh(s, i, h)[k].parent);
    }
}

/// Order of a key against a node's value, on the key's length.
pub open spec fn key_dir(key: Seq<u8>, value: Seq<u8>) -> int {
    lex_order(key, value.take(key.len() as int))
}

// ---------------------------------------------------------------------------
// Rotations
// ---------------------------------------------------------------------------

/// Right rotation at `root`, as the balancing performs it: its left child
/// takes its place; the right subtree of that child, when there is one,
/// becomes the left subtree of `root`. `None` where it would fail (no left
/// child, or a height out of range).
pub open spec fn spec_r_rotation(s0: Seq<AvlNode>, root: int) -> Option<Seq<AvlNode>> {
    match s0[root].left {
        None => None,
        Some(nr) => {
            let nr = nr as int;
            let s1 = set_right(s0, nr, Some(root as usize));
            if s1[root].r_height + 1 > i64::MAX {
                None
            } else {
                let s4 = match s0[nr].right {
                    Some(node) => {
                        let tmp = s1[nr].r_height;
                        let s2 = set_rh(s1, nr, s1[root].r_height + 1);
                        let s3 = set_lh(s2, root, tmp as int);
                        set_left(s3, root, Some(node))
                    },
                    None => {
                        let s2 = set_rh(s1, nr, s1[root].r_height + 1);
                        set_lh(s2, root, 0)
                    },
                };
                match s4[root].parent {
                    None => {
                        let s5 = set_parent(s4, root, Some(nr as usize));
                        Some(set_parent(s5, nr, None))
                    },
                    Some(rp) => {
                        let rp = rp as int;
                        let s5 = if s4[rp].right == Some(root as usize) {
                            set_right(s4, rp, Some(nr as usize))
                        } else {
                            set_left(s4, rp, Some(nr as usize))
                        };
                        let s6 = set_parent(s5, nr, s5[root].parent);
                        Some(set_parent(s6, root, Some(nr as usize)))
                    },
                }
            }
        },
    }
}

/// Left rotation at `root`, the mirror image of `spec_r_rotation`.
pub open spec fn spec_l_rotation(s0: Seq<AvlNode>, root: int) -> Option<Seq<AvlNode>> {
    match s0[root].right {
        None => None,
        Some(nr) => {
            let nr = nr as int;
            let s1 = set_left(s0, nr, Some(root as usize));
            if s1[root].l_height + 1 > i64::MAX {
                None
            } else {
                let s4 = match s0[nr].left {
                    Some(node) => {
                        let tmp = s1[nr].l_height;
                        let s2 = set_lh(s1, nr, s1[root].l_height + 1);
                        let s3 = set_rh(s2, root, tmp as int);
                        set_right(s3, root, Some(node))
                    },
                    None => {
                        let s2 = set_lh(s1, nr, s1[root].l_height + 1);
                        set_rh(s2, root, 0)
                    },
                };
                match s4[root].parent {
                    None => {
                        let s5 = set_parent(s4, root, Some(nr as usize));
                        Some(set_parent(s5, nr, None))
                    },
                    Some(rp) => {
                        let rp = rp as int;
                        let s5 = if s4[rp].right == Some(root as usize) {
                            set_right(s4, rp, Some(nr as usize))
                        } else {
                            set_left(s4, rp, Some(nr as usize))
                        };
                        let s6 = set_parent(s5, nr, s5[root].parent);
                        Some(set_parent(s6, root, Some(nr as usize)))
                    },
                }
            }
        },
    }
}

/// The links and heights of a node.
pub open spec fn shape_of(n: AvlNode) -> (Option<usize>, Option<usize>, Option<usize>, i64, i64) {
    (n.parent, n.left, n.right, n.r_height, n.l_height)
}

/// Two node lists have the same links and heights, node by node; values
/// and entries may differ.
pub open spec fn same_shape(a: Seq<AvlNode>, b: Seq<AvlNode>) -> bool {
    &&& a.len() == b.len()
    &&& forall|i: int| 0 <= i < a.len() ==> #[trigger] shape_of(a[i]) == shape_of(b[i])
}

proof fn lemma_shape_links(a: Seq<AvlNode>, b: Seq<AvlNode>)
    requires
        same_shape(a, b),
    ensures
        links_ok(a) == links_ok(b),
{
    if links_ok(a) {
        assert forall|i: int| 0 <= i < b.len() implies {
            &&& (#[trigger] b[i]).parent matches Some(p) ==> p < b.len()
            &&& b[i].left matches Some(c) ==> c < b.len()
            &&& b[i].right matches Some(c) ==> c < b.len()
        } by {
            assert(shape_of(a[i]) == shape_of(b[i]));
            assert(a[i].parent == b[i].parent);
        }
    }
    if links_ok(b) {
        assert forall|i: int| 0 <= i < a.len() implies {
            &&& (#[trigger] a[i]).parent matches Some(p) ==> p < a.len()
            &&& a[i].left matches Some(c) ==> c < a.len()
            &&& a[i].right matches Some(c) ==> c < a.len()
        } by {
            assert(shape_of(a[i]) == shape_of(b[i]));
            assert(b[i].parent == a[i].parent);
        }
    }
}

proof fn lemma_shape_sets(a: Seq<AvlNode>, b: Seq<AvlNode>, i: int, x: Option<usize>, h: int)
    requires
        same_shape(a, b),
        0 <= i < a.len(),
    ensures
        same_shape(set_left(a, i, x), set_left(b, i, x)),
        same_shape(set_right(a, i, x), set_right(b, i, x)),
        same_shape(set_parent(a, i, x), set_parent(b, i, x)),
        same_shape(set_rh(a, i, h), set_rh(b, i, h)),
        same_shape(set_lh(a, i, h), set_lh(b, i, h)),
{
    assert(shape_of(a[i]) == shape_of(b[i]));
    assert forall|k: int| 0 <= k < a.len() implies #[trigger] shape_of(set_left(a, i, x)[k]) == shape_of(set_left(b, i, x)[k]) by {
        assert(shape_of(a[k]) == shape_of(b[k]));
    }
    assert forall|k: int| 0 <= k < a.len() implies #[trigger] shape_of(set_right(a, i, x)[k]) == shape_of(set_right(b, i, x)[k]) by {
        assert(shape_of(a[k]) == shape_of(b[k]));
    }
    assert forall|k: int| 0 <= k < a.len() implies #[trigger] shape_of(set_parent(a, i, x)[k]) == shape_of(set_parent(b, i, x)[k]) by {
        assert(shape_of(a[k]) == shape_of(b[k]));
    }
    assert forall|k: int| 0 <= k < a.len() implies #[trigger] shape_of(set_rh(a, i, h)[k]) == shape_of(set_rh(b, i, h)[k]) by {
        assert(shape_of(a[k]) == shape_of(b[k]));
    }
    assert forall|k: int| 0 <= k < a.len() implies #[trigger] shape_of(set_lh(a, i, h)[k]) == shape_of(set_lh(b, i, h)[k]) by {
        assert(shape_of(a[k]) == shape_of(b[k]));
    }
}

proof fn lemma_shape_r_rotation(a: Seq<AvlNode>, b: Seq<AvlNode>, root: int)
    requires
        same_shape(a, b),
        links_ok(a),
        0 <= root < a.len(),
    ensures
        (spec_r_rotation(a, root) is Some) == (spec_r_rotation(b, root) is Some),
        spec_r_rotation(a, root) is Some ==> same_shape(
            spec_r_rotation(a, root).unwrap(),
            spec_r_rotation(b, root).unwrap(),
        ),
{
    assert(shape_of(a[root]) == shape_of(b[root]));
    if let Some(nr) = a[root].left {
        let nr = nr as int;
        assert(shape_of(a[nr]) == shape_of(b[nr]));
        let a1 = set_right(a, nr, Some(root as usize));
        let b1 = set_right(b, nr, Some(root as usize));
        lemma_shape_sets(a, b, nr, Some(root as usize), 0);
        assert(shape_of(a1[root]) == shape_of(b1[root]));
        assert(shape_of(a1[nr]) == shape_of(b1[nr]));
        if a1[root].r_height + 1 <= i64::MAX {
            let h = a1[root].r_height + 1;
            let a2 = set_rh(a1, nr, h);
            let b2 = set_rh(b1, nr, h);
            lemma_shape_sets(a1, b1, nr, None, h);
            let (a4, b4) = match a[nr].right {
                Some(node) => {
                    let tmp = a1[nr].r_height;
                    let a3 = set_lh(a2, root, tmp as int);
                    let b3 = set_lh(b2, root, tmp as int);
                    lemma_shape_sets(a2, b2, root, None, tmp as int);
                    lemma_shape_sets(a3, b3, root, Some(node), 0);
                    (set_left(a3, root, Some(node)), set_left(b3, root, Some(node)))
                },
                None => {
                    lemma_shape_sets(a2, b2, root, None, 0);
                    (set_lh(a2, root, 0), set_lh(b2, root, 0))
                },
            };
            assert(same_shape(a4, b4));
            assert(shape_of(a4[root]) == shape_of(b4[root]));
            assert(a4[root].parent == a[root].parent);
            match a4[root].parent {
                None => {
                    let a5 = set_parent(a4, root, Some(nr as usize));
                    let b5 = set_parent(b4, root, Some(nr as usize));
                    lemma_shape_sets(a4, b4, root, Some(nr as usize), 0);
                    lemma_shape_sets(a5, b5, nr, None, 0);
                },
                Some(rp) => {
                    let rp = rp as int;
                    assert(shape_of(a4[rp]) == shape_of(b4[rp]));
                    lemma_shape_sets(a4, b4, rp, Some(nr as usize), 0);
                    let a5 = if a4[rp].right == Some(root as usize) {
                        set_right(a4, rp, Some(nr as usize))
                    } else {
                        set_left(a4, rp, Some(nr as usize))
                    };
                    let b5 = if b4[rp].right == Some(root as usize) {
                        set_right(b4, rp, Some(nr as usize))
                    } else {
                        set_left(b4, rp, Some(nr as usize))
                    };
                    assert(same_shape(a5, b5));
                    assert(shape_of(a5[root]) == shape_of(b5[root]));
                    lemma_shape_sets(a5, b5, nr, a5[root].parent, 0);
                    let a6 = set_parent(a5, nr, a5[root].parent);
                    let b6 = set_parent(b5, nr, b5[root].parent);
                    lemma_shape_sets(a6, b6, root, Some(nr as usize), 0);
                },
            }
        }
    }
}

proof fn lemma_shape_l_rotation(a: Seq<AvlNode>, b: Seq<AvlNode>, root: int)
    requires
        same_shape(a, b),
        links_ok(a),
        0 <= root < a.len(),
    ensures
        (spec_l_rotation(a, root) is Some) == (spec_l_rotation(b, root) is Some),
        spec_l_rotation(a, root) is Some ==> same_shape(
            spec_l_rotation(a, root).unwrap(),
            spec_l_rotation(b, root).unwrap(),
        ),
{
    assert(shape_of(a[root]) == shape_of(b[root]));
    if let Some(nr) = a[root].right {
        let nr = nr as int;
        assert(shape_of(a[nr]) == shape_of(b[nr]));
        let a1 = set_left(a, nr, Some(root as usize));
        let b1 = set_left(b, nr, Some(root as usize));
        lemma_shape_sets(a, b, nr, Some(root as usize), 0);
        assert(shape_of(a1[root]) == shape_of(b1[root]));
        assert(shape_of(a1[nr]) == shape_of(b1[nr]));
        if a1[root].l_height + 1 <= i64::MAX {
            let h = a1[root].l_height + 1;
            let a2 = set_lh(a1, nr, h);
            let b2 = set_lh(b1, nr, h);
            lemma_shape_sets(a1, b1, nr, None, h);
            let (a4, b4) = match a[nr].left {
                Some(node) => {
                    let tmp = a1[nr].l_height;
                    let a3 = set_rh(a2, root, tmp as int);
                    let b3 = set_rh(b2, root, tmp as int);
                    lemma_shape_sets(a2, b2, root, None, tmp as int);
                    lemma_shape_sets(a3, b3, root, Some(node), 0);
                    (set_right(a3, root, Some(node)), set_right(b3, root, Some(node)))
                },
                None => {
                    lemma_shape_sets(a2, b2, root, None, 0);
                    (set_rh(a2, root, 0), set_rh(b2, root, 0))
                },
            };
            assert(same_shape(a4, b4));
            assert(shape_of(a4[root]) == shape_of(b4[root]));
            assert(a4[root].parent == a[root].parent);
            match a4[root].parent {
                None => {
                    let a5 = set_parent(a4, root, Some(nr as usize));
                    let b5 = set_parent(b4, root, Some(nr as usize));
                    lemma_shape_sets(a4, b4, root, Some(nr as usize), 0);
                    lemma_shape_sets(a5, b5, nr, None, 0);
                },
                Some(rp) => {
                    let rp = rp as int;
                    assert(shape_of(a4[rp]) == shape_of(b4[rp]));
                    lemma_shape_sets(a4, b4, rp, Some(nr as usize), 0);
                    let a5 = if a4[rp].right == Some(root as usize) {
                        set_right(a4, rp, Some(nr as usize))
                    } else {
                        set_left(a4, rp, Some(nr as usize))
                    };
                    let b5 = if b4[rp].right == Some(root as usize) {
                        set_right(b4, rp, Some(nr as usize))
                    } else {
                        set_left(b4, rp, Some(nr as usize))
                    };
                    assert(same_shape(a5, b5));
                    assert(shape_of(a5[root]) == shape_of(b5[root]));
                    lemma_shape_sets(a5, b5, nr, a5[root].parent, 0);
                    let a6 = set_parent(a5, nr, a5[root].parent);
                    let b6 = set_parent(b5, nr, b5[root].parent);
                    lemma_shape_sets(a6, b6, root, Some(nr as usize), 0);
                },
            }
        }
    }
}

/// Height of the subtree at a node, from the heights it keeps.
pub open spec fn node_height(n: AvlNode) -> int {
    if n.l_height > n.r_height {
        n.l_height + 1
    } else {
        n.r_height + 1
    }
}

/// The climb from `parent` to the root after an insertion: each step hands
/// the child's height to its parent and rotates where the heights differ by
/// two or more; it ends at a node without parent, which becomes the root.
/// `None` when it fails or does not end within `fuel` steps.
pub open spec fn spec_climb(s: Seq<AvlNode>, parent: int, fuel: nat) -> Option<(Seq<AvlNode>, int)>
    decreases fuel,
{
    if fuel == 0 || !(0 <= parent < s.len()) || !links_ok(s) {
        None
    } else {
        match s[parent].parent {
            None => Some((s, parent)),
            Some(p) => {
                let p = p as int;
                let child = parent;
                let ch = node_height(s[child]);
                if ch > i64::MAX {
                    None
                } else {
                    let s1 = if s[p].right == Some(child as usize) {
                        set_rh(s, p, ch)
                    } else {
                        set_lh(s, p, ch)
                    };
                    let diff = s1[p].l_height - s1[p].r_height;
                    if diff < i64::MIN || diff > i64::MAX {
                        None
                    } else if diff >= 2 {
                        match s1[p].left {
                            None => None,
                            Some(np) => match spec_r_rotation(s1, p) {
                                Some(s2) => spec_climb(s2, np as int, (fuel - 1) as nat),
                                None => None,
                            },
                        }
                    } else if diff <= -2 {
                        match s1[p].right {
                            None => None,
                            Some(np) => match spec_l_rotation(s1, p) {
                                Some(s2) => spec_climb(s2, np as int, (fuel - 1) as nat),
                                None => None,
                            },
                        }
                    } else {
                        spec_climb(s1, p, (fuel - 1) as nat)
                    }
                }
            },
        }
    }
}

proof fn lemma_shape_climb(a: Seq<AvlNode>, b: Seq<AvlNode>, parent: int, fuel: nat)
    requires
        same_shape(a, b),
    ensures
        (spec_climb(a, parent, fuel) is Some) == (spec_climb(b, parent, fuel) is Some),
    decreases fuel,
{
    lemma_shape_links(a, b);
    if fuel > 0 && 0 <= parent < a.len() && links_ok(a) {
        assert(shape_of(a[parent]) == shape_of(b[parent]));
        if let Some(p) = a[parent].parent {
            let p = p as int;
            let child = parent;
            assert(shape_of(a[p]) == shape_of(b[p]));
            assert(node_height(a[child]) == node_height(b[child]));
            let ch = node_height(a[child]);
            if ch <= i64::MAX {
                lemma_shape_sets(a, b, p, None, ch);
                let a1 = if a[p].right == Some(child as usize) {
                    set_rh(a, p, ch)
                } else {
                    set_lh(a, p, ch)
                };
                let b1 = if b[p].right == Some(child as usize) {
                    set_rh(b, p, ch)
                } else {
                    set_lh(b, p, ch)
                };
                assert(same_shape(a1, b1));
                assert(shape_of(a1[p]) == shape_of(b1[p]));
                lemma_heights_keep_links(a, p, ch);
                let diff = a1[p].l_height - a1[p].r_height;
                if i64::MIN <= diff <= i64::MAX {
                    if diff >= 2 {
                        if let Some(np) = a1[p].left {
                            lemma_shape_r_rotation(a1, b1, p);
                            if let Some(a2) = spec_r_rotation(a1, p) {
                                lemma_shape_climb(a2, spec_r_rotation(b1, p).unwrap(), np as int, (fuel - 1) as nat);
                            }
                        }
                    } else if diff <= -2 {
                        if let Some(np) = a1[p].right {
                            lemma_shape_l_rotation(a1, b1, p);
                            if let Some(a2) = spec_l_rotation(a1, p) {
                                lemma_shape_climb(a2, spec_l_rotation(b1, p).unwrap(), np as int, (fuel - 1) as nat);
                            }
                        }
                    } else {
                        lemma_shape_climb(a1, b1, p, (fuel - 1) as nat);
                    }
                }
            }
        }
    }
}

/// The balancing after `start` was attached as a new child: its parent's
/// height on that side grows by one, then the climb runs from the parent.
pub open spec fn spec_rotation(s: Seq<AvlNode>, start: int, fuel: nat) -> Option<(Seq<AvlNode>, int)> {
    match s[start].parent {
        None => None,
        Some(p) => {
            let p = p as int;
            if !(0 <= p < s.len()) {
                None
            } else if s[p].right == Some(start as usize) {
                if s[p].r_height + 1 > i64::MAX {
                    None
                } else {
                    spec_climb(set_rh(s, p, s[p].r_height + 1), p, fuel)
                }
            } else {
                if s[p].l_height + 1 > i64::MAX {
                    None
                } else {
                    spec_climb(set_lh(s, p, s[p].l_height + 1), p, fuel)
                }
            }
        },
    }
}

proof fn lemma_shape_rotation(a: Seq<AvlNode>, b: Seq<AvlNode>, start: int, fuel: nat)
    requires
        same_shape(a, b),
        0 <= start < a.len(),
    ensures
        (spec_rotation(a, start, fuel) is Some) == (spec_rotation(b, start, fuel) is Some),
{
    assert(shape_of(a[start]) == shape_of(b[start]));
    if let Some(p) = a[start].parent {
        let p = p as int;
        if 0 <= p < a.len() {
            assert(shape_of(a[p]) == shape_of(b[p]));
            lemma_shape_sets(a, b, p, None, a[p].r_height + 1);
            lemma_shape_sets(a, b, p, None, a[p].l_height + 1);
            lemma_shape_climb(set_rh(a, p, a[p].r_height + 1), set_rh(b, p, b[p].r_height + 1), p, fuel);
            lemma_shape_climb(set_lh(a, p, a[p].l_height + 1), set_lh(b, p, b[p].l_height + 1), p, fuel);
        }
    }
}

/// Descent from `cur` for the key `key`: the node whose value equals the
/// key (`0`), or the node under which the key would be attached, on its
/// right (`1`) or its left (`-1`). `None` when it does not end within `fuel`
/// steps or meets a node whose value is shorter than the key.
pub open spec fn spec_descend(s: Seq<AvlNode>, key: Seq<u8>, cur: int, fuel: nat) -> Option<(int, int)>
    decreases fuel,
{
    if fuel == 0 || !(0 <= cur < s.len()) || s[cur].value.len() < key.len() {
        None
    } else {
        let d = key_dir(key, s[cur].value);
        if d == 0 {
            Some((cur, 0))
        } else {
            let c = if d > 0 {
                s[cur].right
            } else {
                s[cur].left
            };
            match c {
                None => Some((cur, d)),
                Some(c) => spec_descend(s, key, c as int, (fuel - 1) as nat),
            }
        }
    }
}


/// The node a new key gets: a leaf under `parent` holding just `entry`.
pub open spec fn fresh_node(parent: Option<usize>, value: Seq<u8>, entry: FlowEntry) -> AvlNode {
    AvlNode {
        parent,
        left: None,
        right: None,
        entries: seq![entry],
        value,
        r_height: 0,
        l_height: 0,
    }
}

/// The tree (root, nodes, entries kept apart) after adding `entry` whose
/// key is at `key_index`; `None` when the insertion would fail or not end
/// within `fuel` steps of descent and of balancing.
pub open spec fn spec_add(
    root: Option<usize>,
    s: Seq<AvlNode>,
    any: Seq<FlowEntry>,
    key_index: int,
    entry: FlowEntry,
    fuel: nat,
) -> Option<(Option<usize>, Seq<AvlNode>, Seq<FlowEntry>)> {
    match entry.values@[key_index].value {
        None => Some((root, s, any.push(entry))),
        Some(v) => match root {
            None => Some((Some(s.len() as usize), s.push(fresh_node(None, v@, entry)), any)),
            Some(r) => match spec_descend(s, v@, r as int, fuel) {
                None => None,
                Some((cur, d)) => if d == 0 {
                    Some((root, s.update(cur, AvlNode { entries: s[cur].entries.push(entry), ..s[cur] }), any))
                } else {
                    let k = s.len() as int;
                    let s1 = s.push(fresh_node(Some(cur as usize), v@, entry));
                    let s2 = if d > 0 {
                        set_right(s1, cur, Some(k as usize))
                    } else {
                        set_left(s1, cur, Some(k as usize))
                    };
                    match spec_rotation(s2, k, fuel) {
                        None => None,
                        Some((s3, nr)) => Some((Some(nr as usize), s3, any)),
                    }
                },
            },
        },
    }
}

/// Order of the `len` bytes of `pkt` from `offset` on against the start of
/// `value`.
fn key_order(pkt: &[u8], offset: usize, len: usize, value: &Vec<u8>) -> (r: i8)
    requires
        offset + len <= pkt@.len(),
        len <= value@.len(),
    ensures
        r == key_dir(pkt@.subrange(offset as int, offset + len), value@),
{
    let ghost a = pkt@.subrange(offset as int, offset + len);
    let ghost b = value@.take(len as int);
    let pkt_len = pkt.len();
    let mut i: usize = 0;
    while i < len
        invariant
            offset + len <= pkt@.len(),
            pkt_len == pkt@.len(),
            len <= value@.len(),
            a == pkt@.subrange(offset as int, offset + len),
            b == value@.take(len as int),
            0 <= i <= len,
            forall|k: int| 0 <= k < i ==> a[k] == b[k],
        decreases len - i,
    {
        let x = pkt[offset + i];
        let y = value[i];
        if x != y {
            proof {
                lemma_lex_order_skip(a, b, i as int);
                assert(a.skip(i as int)[0] == x);
                assert(b.skip(i as int)[0] == y);
            }
            return if x > y {
                1
            } else {
                -1
            };
        }
        i = i + 1;
    }
    proof {
        lemma_lex_order_skip(a, b, len as int);
        assert(a.skip(len as int).len() == 0);
    }
    0
}

fn copy_bytes(v: &Vec<u8>) -> (r: Vec<u8>)
    ensures
        r@ == v@,
{
    let mut r: Vec<u8> = Vec::new();
    let mut i: usize = 0;
    while i < v.len()
        invariant
            0 <= i <= v@.len(),
            r@ == v@.take(i as int),
        decreases v@.len() - i,
    {
        r.push(v[i]);
        i = i + 1;
        assert(r@ =~= v@.take(i as int));
    }
    assert(r@ =~= v@);
    r
}

/// A binary search tree over byte keys, balanced by the height bookkeeping
/// of `spec_rotation`; entries that match any value of the key are kept
/// apart.
pub struct AvlTree {
    root: Option<usize>,
    nodes: Vec<Node>,
    any_entries: Vec<FlowEntry>,
    key_index: usize,
}

impl AvlTree {
    /// The nodes, as the contracts see them.
    pub closed spec fn vnodes(&self) -> Seq<AvlNode> {
        Seq::new(self.nodes@.len(), |i: int| node_view(self.nodes@[i]))
    }

    /// The root node, when there is one.
    pub closed spec fn root(&self) -> Option<usize> {
        self.root
    }

    /// The entries that match any value of the key.
    pub closed spec fn any(&self) -> Seq<FlowEntry> {
        self.any_entries@
    }

    /// The index of the key the tree is built on.
    pub closed spec fn key_index(&self) -> usize {
        self.key_index
    }

    /// Links stay inside the node list.
    pub open spec fn wf(&self) -> bool {
        &&& links_ok(self.vnodes())
        &&& self.root() matches Some(r) ==> r < self.vnodes().len()
    }

    /// A search for `key` ends: the tree has a root and the descent ends.
    pub open spec fn search_defined(&self, key: Seq<u8>) -> bool {
        &&& self.root() is Some
        &&& exists|f: nat| #[trigger] spec_descend(self.vnodes(), key, self.root().unwrap() as int, f) is Some
    }

    /// The entries a search for `key` returns: those of the node whose value
    /// equals the key, or the entries kept apart when the descent falls off
    /// the tree.
    pub open spec fn search_result(&self, key: Seq<u8>) -> Seq<FlowEntry> {
        let f = choose|f: nat| #[trigger] spec_descend(self.vnodes(), key, self.root().unwrap() as int, f) is Some;
        match spec_descend(self.vnodes(), key, self.root().unwrap() as int, f) {
            Some((k, d)) => if d == 0 {
                self.vnodes()[k].entries
            } else {
                self.any()
            },
            None => self.any(),
        }
    }

    /// An insertion of `entry` ends without failing.
    pub open spec fn add_defined(&self, entry: FlowEntry) -> bool {
        exists|f: nat| #[trigger] spec_add(self.root(), self.vnodes(), self.any(), self.key_index() as int, entry, f) is Some
    }

    /// The tree after adding `entry` (see `spec_add`).
    pub open spec fn add_result(&self, entry: FlowEntry) -> (Option<usize>, Seq<AvlNode>, Seq<FlowEntry>) {
        let f = choose|f: nat| #[trigger] spec_add(self.root(), self.vnodes(), self.any(), self.key_index() as int, entry, f) is Some;
        spec_add(self.root(), self.vnodes(), self.any(), self.key_index() as int, entry, f).unwrap()
    }

    /// An empty tree on key `key_index`.
    pub fn new(key_index: usize) -> (r: AvlTree)
        ensures
            r.wf(),
            r.root() is None,
            r.vnodes() == Seq::<AvlNode>::empty(),
            r.any() == Seq::<FlowEntry>::empty(),
            r.key_index() == key_index,
    {
        let r = AvlTree { root: None, nodes: Vec::new(), any_entries: Vec::new(), key_index };
        assert(r.vnodes() =~= Seq::<AvlNode>::empty());
        r
    }

    /// The entries kept apart.
    pub fn any_entries(&self) -> (r: &Vec<FlowEntry>)
        ensures
            r@ == self.any(),
    {
        &self.any_entries
    }

    /// The heights (right, left) kept at the root.
    pub fn root_heights(&self) -> (r: Option<(i64, i64)>)
        requires
            self.wf(),
        ensures
            r == (match self.root() {
                Some(k) => Some((self.vnodes()[k as int].r_height, self.vnodes()[k as int].l_height)),
                None => None,
            }),
    {
        match self.root {
            Some(k) => Some((self.nodes[k].r_height, self.nodes[k].l_height)),
            None => None,
        }
    }

    fn set_left_at(&mut self, i: usize, x: Option<usize>)
        requires
            i < old(self).nodes@.len(),
        ensures
            final(self).vnodes() == set_left(old(self).vnodes(), i as int, x),
            final(self).root == old(self).root,
            final(self).any_entries@ == old(self).any_entries@,
            final(self).key_index == old(self).key_index,
            final(self).nodes@.len() == old(self).nodes@.len(),
    {
        self.nodes[i].left = x;
        assert(self.vnodes() =~= set_left(old(self).vnodes(), i as int, x));
    }

    fn set_right_at(&mut self, i: usize, x: Option<usize>)
        requires
            i < old(self).nodes@.len(),
        ensures
            final(self).vnodes() == set_right(old(self).vnodes(), i as int, x),
            final(self).root == old(self).root,
            final(self).any_entries@ == old(self).any_entries@,
            final(self).key_index == old(self).key_index,
            final(self).nodes@.len() == old(self).nodes@.len(),
    {
        self.nodes[i].right = x;
        assert(self.vnodes() =~= set_right(old(self).vnodes(), i as int, x));
    }

    fn set_parent_at(&mut self, i: usize, x: Option<usize>)
        requires
            i < old(self).nodes@.len(),
        ensures
            final(self).vnodes() == set_parent(old(self).vnodes(), i as int, x),
            final(self).root == old(self).root,
            final(self).any_entries@ == old(self).any_entries@,
            final(self).key_index == old(self).key_index,
            final(self).nodes@.len() == old(self).nodes@.len(),
    {
        self.nodes[i].parent = x;
        assert(self.vnodes() =~= set_parent(old(self).vnodes(), i as int, x));
    }

    fn set_rh_at(&mut self, i: usize, h: i64)
        requires
            i < old(self).nodes@.len(),
        ensures
            final(self).vnodes() == set_rh(old(self).vnodes(), i as int, h as int),
            final(self).root == old(self).root,
            final(self).any_entries@ == old(self).any_entries@,
            final(self).key_index == old(self).key_index,
            final(self).nodes@.len() == old(self).nodes@.len(),
    {
        self.nodes[i].r_height = h;
        assert(self.vnodes() =~= set_rh(old(self).vnodes(), i as int, h as int));
    }

    fn set_lh_at(&mut self, i: usize, h: i64)
        requires
            i < old(self).nodes@.len(),
        ensures
            final(self).vnodes() == set_lh(old(self).vnodes(), i as int, h as int),
            final(self).root == old(self).root,
            final(self).any_entries@ == old(self).any_entries@,
            final(self).key_index == old(self).key_index,
            final(self).nodes@.len() == old(self).nodes@.len(),
    {
        self.nodes[i].l_height = h;
        assert(self.vnodes() =~= set_lh(old(self).vnodes(), i as int, h as int));
    }

    fn r_rotation(&mut self, root: usize)
        requires
            links_ok(old(self).vnodes()),
            root < old(self).nodes@.len(),
            spec_r_rotation(old(self).vnodes(), root as int) is Some,
        ensures
            final(self).vnodes() == spec_r_rotation(old(self).vnodes(), root as int).unwrap(),
            final(self).root == old(self).root,
            final(self).any_entries@ == old(self).any_entries@,
            final(self).key_index == old(self).key_index,
    {
        let ghost s0 = self.vnodes();
        assert(s0[root as int] == node_view(self.nodes@[root as int]));
        let nr = self.nodes[root].left.unwrap();
        assert(s0[nr as int] == node_view(self.nodes@[nr as int]));
        let nr_right = self.nodes[nr].right;
        self.set_right_at(nr, Some(root));
        match nr_right {
            Some(node) => {
                let tmp = self.nodes[nr].r_height;
                let h = self.nodes[root].r_height + 1;
                self.set_rh_at(nr, h);
                self.set_lh_at(root, tmp);
                self.set_left_at(root, Some(node));
            },
            None => {
                let h = self.nodes[root].r_height + 1;
                self.set_rh_at(nr, h);
                self.set_lh_at(root, 0);
            },
        }
        match self.nodes[root].parent {
            None => {
                self.set_parent_at(root, Some(nr));
                self.set_parent_at(nr, None);
            },
            Some(rp) => {
                let is_right = match self.nodes[rp].right {
                    Some(x) => x == root,
                    None => false,
                };
                if is_right {
                    self.set_right_at(rp, Some(nr));
                } else {
                    self.set_left_at(rp, Some(nr));
                }
                let pp = self.nodes[root].parent;
                self.set_parent_at(nr, pp);
                self.set_parent_at(root, Some(nr));
            },
        }
    }

    fn l_rotation(&mut self, root: usize)
        requires
            links_ok(old(self).vnodes()),
            root < old(self).nodes@.len(),
            spec_l_rotation(old(self).vnodes(), root as int) is Some,
        ensures
            final(self).vnodes() == spec_l_rotation(old(self).vnodes(), root as int).unwrap(),
            final(self).root == old(self).root,
            final(self).any_entries@ == old(self).any_entries@,
            final(self).key_index == old(self).key_index,
    {
        let ghost s0 = self.vnodes();
        assert(s0[root as int] == node_view(self.nodes@[root as int]));
        let nr = self.nodes[root].right.unwrap();
        assert(s0[nr as int] == node_view(self.nodes@[nr as int]));
        let nr_left = self.nodes[nr].left;
        self.set_left_at(nr, Some(root));
        match nr_left {
            Some(node) => {
                let tmp = self.nodes[nr].l_height;
                let h = self.nodes[root].l_height + 1;
                self.set_lh_at(nr, h);
                self.set_rh_at(root, tmp);
                self.set_right_at(root, Some(node));
            },
            None => {
                let h = self.nodes[root].l_height + 1;
                self.set_lh_at(nr, h);
                self.set_rh_at(root, 0);
            },
        }
        match self.nodes[root].parent {
            None => {
                self.set_parent_at(root, Some(nr));
                self.set_parent_at(nr, None);
            },
            Some(rp) => {
                let is_right = match self.nodes[rp].right {
                    Some(x) => x == root,
                    None => false,
                };
                if is_right {
                    self.set_right_at(rp, Some(nr));
                } else {
                    self.set_left_at(rp, Some(nr));
                }
                let pp = self.nodes[root].parent;
                self.set_parent_at(nr, pp);
                self.set_parent_at(root, Some(nr));
            },
        }
    }

    fn rotation(&mut self, start: usize, Ghost(fuel): Ghost<nat>)
        requires
            old(self).wf(),
            start < old(self).nodes@.len(),
            spec_rotation(old(self).vnodes(), start as int, fuel) is Some,
        ensures
            final(self).vnodes() == spec_rotation(old(self).vnodes(), start as int, fuel).unwrap().0,
            final(self).root == Some(spec_rotation(old(self).vnodes(), start as int, fuel).unwrap().1 as usize),
            final(self).wf(),
            final(self).any_entries@ == old(self).any_entries@,
            final(self).key_index == old(self).key_index,
    {
        let ghost s0 = self.vnodes();
        let ghost target = spec_rotation(s0, start as int, fuel).unwrap();
        assert(s0[start as int] == node_view(self.nodes@[start as int]));
        let p = self.nodes[start].parent.unwrap();
        assert(s0[p as int] == node_view(self.nodes@[p as int]));
        let is_right = match self.nodes[p].right {
            Some(x) => x == start,
            None => false,
        };
        if is_right {
            let h = self.nodes[p].r_height + 1;
            self.set_rh_at(p, h);
        } else {
            let h = self.nodes[p].l_height + 1;
            self.set_lh_at(p, h);
        }
        let mut parent = p;
        let ghost mut f = fuel;
        loop
            invariant
                spec_climb(self.vnodes(), parent as int, f) == Some(target),
                target == spec_rotation(old(self).vnodes(), start as int, fuel).unwrap(),
                self.any_entries@ == old(self).any_entries@,
                self.key_index == old(self).key_index,
            decreases f,
        {
            let ghost s = self.vnodes();
            assert(links_ok(s) && parent < s.len());
            assert(s[parent as int] == node_view(self.nodes@[parent as int]));
            match self.nodes[parent].parent {
                None => {
                    self.root = Some(parent);
                    assert(self.vnodes() =~= s);
                    return ;
                },
                Some(pp) => {
                    let child = parent;
                    let l = self.nodes[child].l_height;
                    let r = self.nodes[child].r_height;
                    let ch = if l > r {
                        l + 1
                    } else {
                        r + 1
                    };
                    parent = pp;
                    assert(s[pp as int] == node_view(self.nodes@[pp as int]));
                    let is_right = match self.nodes[parent].right {
                        Some(x) => x == child,
                        None => false,
                    };
                    if is_right {
                        self.set_rh_at(parent, ch);
                    } else {
                        self.set_lh_at(parent, ch);
                    }
                    let ghost s1 = self.vnodes();
                    proof {
                        lemma_heights_keep_links(s, parent as int, ch as int);
                    }
                    assert(s1[parent as int] == node_view(self.nodes@[parent as int]));
                    let diff = self.nodes[parent].l_height - self.nodes[parent].r_height;
                    if diff >= 2 {
                        let np = self.nodes[parent].left.unwrap();
                        self.r_rotation(parent);
                        parent = np;
                    } else if diff <= -2 {
                        let np = self.nodes[parent].right.unwrap();
                        self.l_rotation(parent);
                        parent = np;
                    }
                    proof {
                        f = (f - 1) as nat;
                    }
                },
            }
        }
    }

    /// The descent of `spec_descend` for the `len` bytes of `pkt` from
    /// `offset` on.
    fn descend(&self, pkt: &[u8], offset: usize, len: usize, root: usize, Ghost(fuel): Ghost<nat>) -> (r: (usize, i8))
        requires
            self.wf(),
            offset + len <= pkt@.len(),
            spec_descend(self.vnodes(), pkt@.subrange(offset as int, offset + len), root as int, fuel) is Some,
        ensures
            spec_descend(self.vnodes(), pkt@.subrange(offset as int, offset + len), root as int, fuel) == Some((r.0 as int, r.1 as int)),
            r.0 < self.vnodes().len(),
    {
        let ghost key = pkt@.subrange(offset as int, offset + len);
        let ghost s0 = self.vnodes();
        let mut node = root;
        let ghost mut f = fuel;
        loop
            invariant
                self.wf(),
                s0 == self.vnodes(),
                offset + len <= pkt@.len(),
                key == pkt@.subrange(offset as int, offset + len),
                spec_descend(s0, key, root as int, fuel) is Some,
                spec_descend(s0, key, node as int, f) == spec_descend(s0, key, root as int, fuel),
            decreases f,
        {
            assert(s0[node as int] == node_view(self.nodes@[node as int]));
            let d = key_order(pkt, offset, len, &self.nodes[node].value);
            if d == 0 {
                return (node, 0);
            }
            let c = if d > 0 {
                self.nodes[node].right
            } else {
                self.nodes[node].left
            };
            match c {
                None => {
                    return (node, d);
                },
                Some(c) => {
                    node = c;
                    proof {
                        f = (f - 1) as nat;
                    }
                },
            }
        }
    }

    /// Files `entry` under its value on the tree's key: in the node with an
    /// equal value, or in a new leaf attached where the descent falls off
    /// the tree, after which the balancing runs; an entry that matches any
    /// value of the key joins the entries kept apart.
    pub fn add(&mut self, entry: FlowEntry)
        requires
            old(self).wf(),
            old(self).key_index() < entry.values@.len(),
            old(self).add_defined(entry),
        ensures
            final(self).wf(),
            final(self).key_index() == old(self).key_index(),
            (final(self).root(), final(self).vnodes(), final(self).any()) == old(self).add_result(entry),
    {
        let ghost fuel = choose|f: nat| #[trigger] spec_add(self.root(), self.vnodes(), self.any(), self.key_index() as int, entry, f) is Some;
        let ki = self.key_index;
        let value = match &entry.values[ki].value {
            Some(v) => copy_bytes(v),
            None => {
                self.any_entries.push(entry);
                return ;
            },
        };
        let ghost key = value@;
        let ghost s0 = self.vnodes();
        match self.root {
            None => {
                let idx = self.nodes.len();
                let mut es: Vec<FlowEntry> = Vec::new();
                es.push(entry);
                self.nodes.push(
                    Node { parent: None, left: None, right: None, entries: es, value, r_height: 0, l_height: 0 },
                );
                self.root = Some(idx);
                proof {
                    assert(es@ =~= seq![entry]);
                    assert(self.vnodes() =~= s0.push(fresh_node(None, key, entry)));
                }
            },
            Some(r) => {
                let n = value.len();
                let vs = value.as_slice();
                assert(vs@.subrange(0, n as int) =~= key);
                let (cur, d) = self.descend(vs, 0, n, r, Ghost(fuel));
                assert(s0[cur as int] == node_view(self.nodes@[cur as int]));
                if d == 0 {
                    self.nodes[cur].entries.push(entry);
                    proof {
                        assert(self.vnodes() =~= s0.update(cur as int, AvlNode { entries: s0[cur as int].entries.push(entry), ..s0[cur as int] }));
                        assert forall|k: int| 0 <= k < self.vnodes().len() implies {
                            &&& (#[trigger] self.vnodes()[k]).parent matches Some(p) ==> p < self.vnodes().len()
                            &&& self.vnodes()[k].left matches Some(c) ==> c < self.vnodes().len()
                            &&& self.vnodes()[k].right matches Some(c) ==> c < self.vnodes().len()
                        } by {
                            assert(s0[k].parent == self.vnodes()[k].parent);
                        }
                    }
                    return ;
                }
                let k = self.nodes.len();
                let mut es: Vec<FlowEntry> = Vec::new();
                es.push(entry);
                self.nodes.push(
                    Node { parent: Some(cur), left: None, right: None, entries: es, value, r_height: 0, l_height: 0 },
                );
                proof {
                    assert(es@ =~= seq![entry]);
                    assert(self.vnodes() =~= s0.push(fresh_node(Some(cur), key, entry)));
                }
                if d > 0 {
                    self.set_right_at(cur, Some(k));
                } else {
                    self.set_left_at(cur, Some(k));
                }
                proof {
                    let s2 = self.vnodes();
                    assert forall|j: int| 0 <= j < s2.len() implies {
                        &&& (#[trigger] s2[j]).parent matches Some(p) ==> p < s2.len()
                        &&& s2[j].left matches Some(c) ==> c < s2.len()
                        &&& s2[j].right matches Some(c) ==> c < s2.len()
                    } by {
                        if j < s0.len() {
                            assert(s0[j].parent == s2[j].parent);
                        }
                    }
                }
                self.rotation(k, Ghost(fuel));
            },
        }
    }

    /// The descent of `spec_descend` from `root` for the `len` bytes of
    /// `pkt` from `offset` on, within `bound` steps; `None` when it does not
    /// end within them.
    fn descend_bounded(&self, pkt: &[u8], offset: usize, len: usize, root: usize, bound: usize) -> (r: Option<(usize, i8)>)
        requires
            self.wf(),
            offset + len <= pkt@.len(),
            root < self.vnodes().len(),
        ensures
            match r {
                Some((c, d)) => spec_descend(self.vnodes(), pkt@.subrange(offset as int, offset + len), root as int, bound as nat)
                    == Some((c as int, d as int)) && c < self.vnodes().len(),
                None => spec_descend(self.vnodes(), pkt@.subrange(offset as int, offset + len), root as int, bound as nat) is None,
            },
    {
        let ghost key = pkt@.subrange(offset as int, offset + len);
        let ghost s0 = self.vnodes();
        let mut node = root;
        let mut g: usize = bound;
        loop
            invariant
                self.wf(),
                s0 == self.vnodes(),
                offset + len <= pkt@.len(),
                key == pkt@.subrange(offset as int, offset + len),
                node < s0.len(),
                spec_descend(s0, key, node as int, g as nat) == spec_descend(s0, key, root as int, bound as nat),
            decreases g,
        {
            if g == 0 {
                return None;
            }
            assert(s0[node as int] == node_view(self.nodes@[node as int]));
            if self.nodes[node].value.len() < len {
                return None;
            }
            let d = key_order(pkt, offset, len, &self.nodes[node].value);
            if d == 0 {
                return Some((node, 0));
            }
            let c = if d > 0 {
                self.nodes[node].right
            } else {
                self.nodes[node].left
            };
            match c {
                None => {
                    return Some((node, d));
                },
                Some(c) => {
                    node = c;
                    g = g - 1;
                },
            }
        }
    }

    /// Whether a search for the `len` bytes of `pkt` from `offset` on ends
    /// within as many steps as the tree has nodes; when it does, the search
    /// is defined (see `search_defined`).
    pub fn search_fits(&self, pkt: &[u8], offset: usize, len: usize) -> (r: bool)
        requires
            self.wf(),
            offset + len <= pkt@.len(),
        ensures
            r == (self.root() is Some && spec_descend(
                self.vnodes(),
                pkt@.subrange(offset as int, offset + len),
                self.root().unwrap() as int,
                self.vnodes().len(),
            ) is Some),
            r ==> self.search_defined(pkt@.subrange(offset as int, offset + len)),
    {
        let root = match self.root {
            Some(r) => r,
            None => return false,
        };
        let found = self.descend_bounded(pkt, offset, len, root, self.nodes.len());
        found.is_some()
    }

    /// Whether every link points into the node list (`links_ok`).
    fn links_fit(&self) -> (r: bool)
        ensures
            r == links_ok(self.vnodes()),
    {
        let ghost s = self.vnodes();
        let n = self.nodes.len();
        let mut i: usize = 0;
        while i < n
            invariant
                n == s.len(),
                s == self.vnodes(),
                i <= n,
                forall|k: int|
                    0 <= k < i ==> {
                        &&& (#[trigger] s[k]).parent matches Some(p) ==> p < s.len()
                        &&& s[k].left matches Some(c) ==> c < s.len()
                        &&& s[k].right matches Some(c) ==> c < s.len()
                    },
            decreases n - i,
        {
            assert(s[i as int] == node_view(self.nodes@[i as int]));
            let ok_p = match self.nodes[i].parent {
                Some(p) => p < n,
                None => true,
            };
            let ok_l = match self.nodes[i].left {
                Some(c) => c < n,
                None => true,
            };
            let ok_r = match self.nodes[i].right {
                Some(c) => c < n,
                None => true,
            };
            if !(ok_p && ok_l && ok_r) {
                return false;
            }
            i = i + 1;
        }
        true
    }

    /// Runs the climb of `spec_climb` from `parent` with `fuel` steps on
    /// this tree; whether it ends without failing.
    fn climb_fits(&mut self, parent: usize, fuel: usize) -> (r: bool)
        ensures
            r == (spec_climb(old(self).vnodes(), parent as int, fuel as nat) is Some),
    {
        let ghost target = spec_climb(self.vnodes(), parent as int, fuel as nat) is Some;
        let mut p = parent;
        let mut f: usize = fuel;
        loop
            invariant
                (spec_climb(self.vnodes(), p as int, f as nat) is Some) == target,
                target == (spec_climb(old(self).vnodes(), parent as int, fuel as nat) is Some),
            decreases f,
        {
            if f == 0 {
                return false;
            }
            if p >= self.nodes.len() {
                return false;
            }
            if !self.links_fit() {
                return false;
            }
            let ghost s = self.vnodes();
            assert(s[p as int] == node_view(self.nodes@[p as int]));
            match self.nodes[p].parent {
                None => {
                    return true;
                },
                Some(pp) => {
                    let child = p;
                    let l = self.nodes[child].l_height;
                    let r = self.nodes[child].r_height;
                    let big = if l > r {
                        l
                    } else {
                        r
                    };
                    if big == i64::MAX {
                        return false;
                    }
                    let ch = big + 1;
                    assert(ch == node_height(s[child as int]));
                    assert(s[pp as int] == node_view(self.nodes@[pp as int]));
                    let is_right = match self.nodes[pp].right {
                        Some(x) => x == child,
                        None => false,
                    };
                    if is_right {
                        self.set_rh_at(pp, ch);
                    } else {
                        self.set_lh_at(pp, ch);
                    }
                    let ghost s1 = self.vnodes();
                    proof {
                        lemma_heights_keep_links(s, pp as int, ch as int);
                    }
                    assert(s1[pp as int] == node_view(self.nodes@[pp as int]));
                    let lh = self.nodes[pp].l_height;
                    let rh = self.nodes[pp].r_height;
                    if (lh >= 0 && rh < 0 && lh - i64::MAX > rh) || (lh < 0 && rh > 0 && lh < i64::MIN + rh) {
                        return false;
                    }
                    let diff = lh - rh;
                    if diff >= 2 {
                        match self.nodes[pp].left {
                            None => {
                                return false;
                            },
                            Some(np) => {
                                if rh == i64::MAX {
                                    return false;
                                }
                                self.r_rotation(pp);
                                p = np;
                            },
                        }
                    } else if diff <= -2 {
                        match self.nodes[pp].right {
                            None => {
                                return false;
                            },
                            Some(np) => {
                                if lh == i64::MAX {
                                    return false;
                                }
                                self.l_rotation(pp);
                                p = np;
                            },
                        }
                    } else {
                        p = pp;
                    }
                    f = f - 1;
                },
            }
        }
    }

    /// A tree with the links and heights of this one, and no values or
    /// entries.
    fn shape_copy(&self) -> (r: AvlTree)
        ensures
            same_shape(r.vnodes(), self.vnodes()),
            r.root == self.root,
    {
        let ghost s = self.vnodes();
        let mut nodes: Vec<Node> = Vec::new();
        let mut i: usize = 0;
        while i < self.nodes.len()
            invariant
                s == self.vnodes(),
                i <= s.len(),
                nodes@.len() == i,
                forall|k: int| 0 <= k < i ==> #[trigger] shape_of(node_view(nodes@[k])) == shape_of(s[k]),
            decreases s.len() - i,
        {
            assert(s[i as int] == node_view(self.nodes@[i as int]));
            let n = &self.nodes[i];
            nodes.push(
                Node {
                    parent: n.parent,
                    left: n.left,
                    right: n.right,
                    entries: Vec::new(),
                    value: Vec::new(),
                    r_height: n.r_height,
                    l_height: n.l_height,
                },
            );
            i = i + 1;
        }
        let r = AvlTree { root: self.root, nodes, any_entries: Vec::new(), key_index: self.key_index };
        assert forall|k: int| 0 <= k < s.len() implies #[trigger] shape_of(r.vnodes()[k]) == shape_of(s[k]) by {
            assert(r.vnodes()[k] == node_view(nodes@[k]));
        }
        r
    }

    /// Runs the balancing of `spec_rotation` after `start` was attached,
    /// with `fuel` steps, on this tree; whether it ends without failing.
    fn rotation_fits(&mut self, start: usize, fuel: usize) -> (r: bool)
        requires
            start < old(self).vnodes().len(),
        ensures
            r == (spec_rotation(old(self).vnodes(), start as int, fuel as nat) is Some),
    {
        let ghost s = self.vnodes();
        assert(s[start as int] == node_view(self.nodes@[start as int]));
        let p = match self.nodes[start].parent {
            Some(p) => p,
            None => return false,
        };
        if p >= self.nodes.len() {
            return false;
        }
        assert(s[p as int] == node_view(self.nodes@[p as int]));
        let is_right = match self.nodes[p].right {
            Some(x) => x == start,
            None => false,
        };
        if is_right {
            let h = self.nodes[p].r_height;
            if h == i64::MAX {
                return false;
            }
            self.set_rh_at(p, h + 1);
        } else {
            let h = self.nodes[p].l_height;
            if h == i64::MAX {
                return false;
            }
            self.set_lh_at(p, h + 1);
        }
        self.climb_fits(p, fuel)
    }

    /// A shape copy of this tree with a leaf attached under `cur`, on its
    /// right or its left.
    fn scratch_with_leaf(&self, cur: usize, right: bool, Ghost(leaf): Ghost<AvlNode>) -> (r: AvlTree)
        requires
            cur < self.vnodes().len(),
            leaf.parent == Some(cur),
            leaf.left is None,
            leaf.right is None,
            leaf.r_height == 0,
            leaf.l_height == 0,
        ensures
            same_shape(
                r.vnodes(),
                if right {
                    set_right(self.vnodes().push(leaf), cur as int, Some(self.vnodes().len() as usize))
                } else {
                    set_left(self.vnodes().push(leaf), cur as int, Some(self.vnodes().len() as usize))
                },
            ),
    {
        let ghost s = self.vnodes();
        let ghost s1 = s.push(leaf);
        let mut scratch = self.shape_copy();
        let ghost c0 = scratch.vnodes();
        let k = scratch.nodes.len();
        let node = Node { parent: Some(cur), left: None, right: None, entries: Vec::new(), value: Vec::new(), r_height: 0, l_height: 0 };
        scratch.nodes.push(node);
        let ghost c1 = scratch.vnodes();
        assert(c1 =~= c0.push(node_view(node)));
        assert(same_shape(c1, s1)) by {
            assert forall|j: int| 0 <= j < s1.len() implies #[trigger] shape_of(c1[j]) == shape_of(s1[j]) by {
                if j < s.len() {
                    assert(shape_of(c0[j]) == shape_of(s[j]));
                }
            }
        }
        if right {
            scratch.set_right_at(cur, Some(k));
        } else {
            scratch.set_left_at(cur, Some(k));
        }
        proof {
            lemma_shape_sets(c1, s1, cur as int, Some(k), 0);
        }
        scratch
    }

    /// Whether `entry` has a value for the tree's key and adding it ends
    /// within as many steps of descent and of balancing as the tree has
    /// nodes; when it does, the insertion is defined (see `add_defined`).
    /// The balancing is tried on a copy of the links and heights.
    pub fn add_fits(&self, entry: &FlowEntry) -> (r: bool)
        requires
            self.wf(),
        ensures
            r == (self.key_index() < entry.values@.len() && spec_add(
                self.root(),
                self.vnodes(),
                self.any(),
                self.key_index() as int,
                *entry,
                self.vnodes().len(),
            ) is Some),
            r ==> self.key_index() < entry.values@.len() && self.add_defined(*entry),
    {
        let ghost s = self.vnodes();
        let ghost fuel = s.len();
        let ki = self.key_index;
        if ki >= entry.values.len() {
            return false;
        }
        let v = match &entry.values[ki].value {
            Some(v) => v,
            None => return true,
        };
        let root = match self.root {
            Some(r) => r,
            None => return true,
        };
        let n = v.len();
        assert(v@.subrange(0, n as int) =~= v@);
        let (cur, d) = match self.descend_bounded(v.as_slice(), 0, n, root, self.nodes.len()) {
            Some(found) => found,
            None => return false,
        };
        if d == 0 {
            return true;
        }
        let k = self.nodes.len();
        let ghost s2 = {
            let s1 = s.push(fresh_node(Some(cur), v@, *entry));
            if d > 0 {
                set_right(s1, cur as int, Some(k))
            } else {
                set_left(s1, cur as int, Some(k))
            }
        };
        let mut scratch = self.scratch_with_leaf(cur, d > 0, Ghost(fresh_node(Some(cur), v@, *entry)));
        let ghost c2 = scratch.vnodes();
        let ok = scratch.rotation_fits(k, self.nodes.len());
        proof {
            lemma_shape_rotation(c2, s2, k as int, fuel);
        }
        ok
    }

    /// Search for the `len` bytes of `pkt` from `offset` on (see
    /// `search_result`).
    pub fn search(&self, pkt: &[u8], offset: usize, len: usize) -> (r: &Vec<FlowEntry>)
        requires
            self.wf(),
            offset + len <= pkt@.len(),
            self.search_defined(pkt@.subrange(offset as int, offset + len)),
        ensures
            r@ == self.search_result(pkt@.subrange(offset as int, offset + len)),
    {
        let ghost key = pkt@.subrange(offset as int, offset + len);
        let root = self.root.unwrap();
        let ghost fuel = choose|f: nat| #[trigger] spec_descend(self.vnodes(), key, root as int, f) is Some;
        let (node, d) = self.descend(pkt, offset, len, root, Ghost(fuel));
        if d == 0 {
            assert(self.vnodes()[node as int] == node_view(self.nodes@[node as int]));
            &self.nodes[node].entries
        } else {
            &self.any_entries
        }
    }
}

proof fn lemma_descend_in_range(s: Seq<AvlNode>, key: Seq<u8>, cur: int, fuel: nat)
    ensures
        spec_descend(s, key, cur, fuel) matches Some((k, d)) ==> 0 <= k < s.len(),
    decreases fuel,
{
    if fuel > 0 && 0 <= cur < s.len() && s[cur].value.len() >= key.len() {
        let d = key_dir(key, s[cur].value);
        let c = if d > 0 {
            s[cur].right
        } else {
            s[cur].left
        };
        if let Some(c) = c {
            lemma_descend_in_range(s, key, c as int, (fuel - 1) as nat);
        }
    }
}

/// Whether an insertion ends within `f` steps depends on the entry only
/// through its value for the tree's key.
pub proof fn lemma_add_same_key(t: AvlTree, e1: FlowEntry, e2: FlowEntry, f: nat)
    requires
        t.key_index() < e1.values@.len(),
        t.key_index() < e2.values@.len(),
        (e1.values@[t.key_index() as int].value is Some) == (e2.values@[t.key_index() as int].value is Some),
        e1.values@[t.key_index() as int].value is Some ==> e1.values@[t.key_index() as int].value->0@
            == e2.values@[t.key_index() as int].value->0@,
    ensures
        (spec_add(t.root(), t.vnodes(), t.any(), t.key_index() as int, e1, f) is Some) == (spec_add(
            t.root(),
            t.vnodes(),
            t.any(),
            t.key_index() as int,
            e2,
            f,
        ) is Some),
{
    let ki = t.key_index() as int;
    let s = t.vnodes();
    if let Some(v) = e1.values@[ki].value {
        if let Some(r) = t.root() {
            lemma_descend_in_range(s, v@, r as int, f);
            if let Some((cur, d)) = spec_descend(s, v@, r as int, f) {
                if d != 0 {
                    let k = s.len() as int;
                    let a1 = s.push(fresh_node(Some(cur as usize), v@, e1));
                    let b1 = s.push(fresh_node(Some(cur as usize), v@, e2));
                    assert(same_shape(a1, b1)) by {
                        assert forall|j: int| 0 <= j < a1.len() implies #[trigger] shape_of(a1[j]) == shape_of(b1[j]) by {}
                    }
                    lemma_shape_sets(a1, b1, cur, Some(k as usize), 0);
                    let a2 = if d > 0 {
                        set_right(a1, cur, Some(k as usize))
                    } else {
                        set_left(a1, cur, Some(k as usize))
                    };
                    let b2 = if d > 0 {
                        set_right(b1, cur, Some(k as usize))
                    } else {
                        set_left(b1, cur, Some(k as usize))
                    };
                    lemma_shape_rotation(a2, b2, k, f);
                }
            }
        }
    }
}

/// Whether an insertion ends depends on the entry only through its value
/// for the tree's key.
pub proof fn lemma_add_defined_by_key(t: AvlTree, e1: FlowEntry, e2: FlowEntry)
    requires
        t.key_index() < e1.values@.len(),
        t.key_index() < e2.values@.len(),
        (e1.values@[t.key_index() as int].value is Some) == (e2.values@[t.key_index() as int].value is Some),
        e1.values@[t.key_index() as int].value is Some ==> e1.values@[t.key_index() as int].value->0@
            == e2.values@[t.key_index() as int].value->0@,
    ensures
        t.add_defined(e1) == t.add_defined(e2),
{
    if t.add_defined(e1) {
        let f = choose|f: nat| #[trigger] spec_add(t.root(), t.vnodes(), t.any(), t.key_index() as int, e1, f) is Some;
        lemma_add_same_key(t, e1, e2, f);
    }
    if t.add_defined(e2) {
        let f = choose|f: nat| #[trigger] spec_add(t.root(), t.vnodes(), t.any(), t.key_index() as int, e2, f) is Some;
        lemma_add_same_key(t, e1, e2, f);
    }
}

/// Two node lists hold the same values and entries, node by node; only links
/// and heights may differ.
pub open spec fn same_contents(a: Seq<AvlNode>, b: Seq<AvlNode>) -> bool {
    &&& a.len() == b.len()
    &&& forall|i: int| 0 <= i < a.len() ==> (#[trigger] a[i]).value == b[i].value && a[i].entries == b[i].entries
}

proof fn lemma_r_rotation_contents(s0: Seq<AvlNode>, root: int)
    requires
        links_ok(s0),
        0 <= root < s0.len(),
    ensures
        spec_r_rotation(s0, root) matches Some(s) ==> same_contents(s0, s),
{
    if let Some(nr) = s0[root].left {
        let nr = nr as int;
        assert(nr < s0.len());
        let s1 = set_right(s0, nr, Some(root as usize));
        if s1[root].r_height + 1 <= i64::MAX {
            let s4 = match s0[nr].right {
                Some(node) => {
                    let tmp = s1[nr].r_height;
                    let s2 = set_rh(s1, nr, s1[root].r_height + 1);
                    let s3 = set_lh(s2, root, tmp as int);
                    set_left(s3, root, Some(node))
                },
                None => {
                    let s2 = set_rh(s1, nr, s1[root].r_height + 1);
                    set_lh(s2, root, 0)
                },
            };
            assert(same_contents(s0, s4));
            assert(s4[root].parent == s0[root].parent);
            match s4[root].parent {
                None => {
                    let s5 = set_parent(s4, root, Some(nr as usize));
                    assert(same_contents(s0, set_parent(s5, nr, None)));
                },
                Some(rp) => {
                    let rp = rp as int;
                    assert(rp < s0.len());
                    let s5 = if s4[rp].right == Some(root as usize) {
                        set_right(s4, rp, Some(nr as usize))
                    } else {
                        set_left(s4, rp, Some(nr as usize))
                    };
                    assert(same_contents(s0, s5));
                    let s6 = set_parent(s5, nr, s5[root].parent);
                    assert(same_contents(s0, set_parent(s6, root, Some(nr as usize))));
                },
            }
        }
    }
}

proof fn lemma_l_rotation_contents(s0: Seq<AvlNode>, root: int)
    requires
        links_ok(s0),
        0 <= root < s0.len(),
    ensures
        spec_l_rotation(s0, root) matches Some(s) ==> same_contents(s0, s),
{
    if let Some(nr) = s0[root].right {
        let nr = nr as int;
        assert(nr < s0.len());
        let s1 = set_left(s0, nr, Some(root as usize));
        if s1[root].l_height + 1 <= i64::MAX {
            let s4 = match s0[nr].left {
                Some(node) => {
                    let tmp = s1[nr].l_height;
                    let s2 = set_lh(s1, nr, s1[root].l_height + 1);
                    let s3 = set_rh(s2, root, tmp as int);
                    set_right(s3, root, Some(node))
                },
                None => {
                    let s2 = set_lh(s1, nr, s1[root].l_height + 1);
                    set_rh(s2, root, 0)
                },
            };
            assert(same_contents(s0, s4));
            assert(s4[root].parent == s0[root].parent);
            match s4[root].parent {
                None => {
                    let s5 = set_parent(s4, root, Some(nr as usize));
                    assert(same_contents(s0, set_parent(s5, nr, None)));
                },
                Some(rp) => {
                    let rp = rp as int;
                    assert(rp < s0.len());
                    let s5 = if s4[rp].right == Some(root as usize) {
                        set_right(s4, rp, Some(nr as usize))
                    } else {
                        set_left(s4, rp, Some(nr as usize))
                    };
                    assert(same_contents(s0, s5));
                    let s6 = set_parent(s5, nr, s5[root].parent);
                    assert(same_contents(s0, set_parent(s6, root, Some(nr as usize))));
                },
            }
        }
    }
}

proof fn lemma_climb_contents(s: Seq<AvlNode>, parent: int, fuel: nat)
    ensures
        spec_climb(s, parent, fuel) matches Some((s2, r)) ==> same_contents(s, s2),
    decreases fuel,
{
    if fuel > 0 && 0 <= parent < s.len() && links_ok(s) {
        if let Some(p) = s[parent].parent {
            let p = p as int;
            let child = parent;
            let ch = node_height(s[child]);
            if ch <= i64::MAX {
                let s1 = if s[p].right == Some(child as usize) {
                    set_rh(s, p, ch)
                } else {
                    set_lh(s, p, ch)
                };
                lemma_heights_keep_links(s, p, ch);
                assert(same_contents(s, s1));
                let diff = s1[p].l_height - s1[p].r_height;
                if i64::MIN <= diff <= i64::MAX {
                    if diff >= 2 {
                        if let Some(np) = s1[p].left {
                            lemma_r_rotation_contents(s1, p);
                            if let Some(s2) = spec_r_rotation(s1, p) {
                                lemma_climb_contents(s2, np as int, (fuel - 1) as nat);
                            }
                        }
                    } else if diff <= -2 {
                        if let Some(np) = s1[p].right {
                            lemma_l_rotation_contents(s1, p);
                            if let Some(s2) = spec_l_rotation(s1, p) {
                                lemma_climb_contents(s2, np as int, (fuel - 1) as nat);
                            }
                        }
                    } else {
                        lemma_climb_contents(s1, p, (fuel - 1) as nat);
                    }
                }
            }
        }
    }
}

proof fn lemma_rotation_contents(s: Seq<AvlNode>, start: int, fuel: nat)
    requires
        0 <= start < s.len(),
    ensures
        spec_rotation(s, start, fuel) matches Some((s2, r)) ==> same_contents(s, s2),
{
    if let Some(p) = s[start].parent {
        let p = p as int;
        if 0 <= p < s.len() {
            if s[p].right == Some(start as usize) {
                if s[p].r_height + 1 <= i64::MAX {
                    let s1 = set_rh(s, p, s[p].r_height + 1);
                    assert(same_contents(s, s1));
                    lemma_climb_contents(s1, p, fuel);
                }
            } else {
                if s[p].l_height + 1 <= i64::MAX {
                    let s1 = set_lh(s, p, s[p].l_height + 1);
                    assert(same_contents(s, s1));
                    lemma_climb_contents(s1, p, fuel);
                }
            }
        }
    }
}

proof fn lemma_descend_found(s: Seq<AvlNode>, key: Seq<u8>, cur: int, fuel: nat)
    ensures
        spec_descend(s, key, cur, fuel) matches Some((k, d)) ==> {
            &&& 0 <= k < s.len()
            &&& s[k].value.len() >= key.len()
            &&& (d == 0 ==> s[k].value.take(key.len() as int) == key)
        },
    decreases fuel,
{
    if fuel > 0 && 0 <= cur < s.len() && s[cur].value.len() >= key.len() {
        let d = key_dir(key, s[cur].value);
        lemma_lex_order_zero(key, s[cur].value.take(key.len() as int));
        if d != 0 {
            let c = if d > 0 {
                s[cur].right
            } else {
                s[cur].left
            };
            if let Some(c) = c {
                lemma_descend_found(s, key, c as int, (fuel - 1) as nat);
            }
        }
    }
}

/// Law of a search of the tree: it returns the entries kept apart, or the
/// entries of a node whose value starts with the key.
pub proof fn law_avl_search_result(t: AvlTree, key: Seq<u8>)
    requires
        t.search_defined(key),
    ensures
        t.search_result(key) == t.any() || exists|k: int|
            0 <= k < t.vnodes().len() && t.vnodes()[k].value.take(key.len() as int) == key && t.search_result(key)
                == #[trigger] t.vnodes()[k].entries,
{
    let f = choose|f: nat| #[trigger] spec_descend(t.vnodes(), key, t.root().unwrap() as int, f) is Some;
    lemma_descend_found(t.vnodes(), key, t.root().unwrap() as int, f);
}

/// Law of an insertion into the tree: no entry filed before moves or is
/// lost. An entry without a value for the key joins the entries kept apart;
/// one with a value is appended to the node whose value starts with it, or
/// is the only entry of a new node holding its value. The balancing only
/// relinks nodes.
pub proof fn law_avl_add_keeps_entries(t: AvlTree, entry: FlowEntry)
    requires
        t.wf(),
        t.key_index() < entry.values@.len(),
        t.add_defined(entry),
    ensures
        ({
            let (root2, s2, any2) = t.add_result(entry);
            let s = t.vnodes();
            match entry.values@[t.key_index() as int].value {
                None => s2 == s && any2 == t.any().push(entry) && root2 == t.root(),
                Some(v) => {
                    &&& any2 == t.any()
                    &&& {
                        ||| {
                            &&& s2.len() == s.len()
                            &&& exists|k: int|
                                0 <= k < s.len() && s[k].value.take(v@.len() as int) == v@ && #[trigger] s2[k].entries
                                    == s[k].entries.push(entry) && s2[k].value == s[k].value && forall|j: int|
                                    0 <= j < s.len() && j != k ==> s2[j].value == s[j].value && s2[j].entries
                                        == s[j].entries
                        }
                        ||| {
                            &&& s2.len() == s.len() + 1
                            &&& s2[s.len() as int].value == v@
                            &&& s2[s.len() as int].entries == seq![entry]
                            &&& forall|j: int| 0 <= j < s.len() ==> #[trigger] s2[j].value == s[j].value && s2[j].entries == s[j].entries
                        }
                    }
                },
            }
        }),
{
    let f = choose|f: nat| #[trigger] spec_add(t.root(), t.vnodes(), t.any(), t.key_index() as int, entry, f) is Some;
    let s = t.vnodes();
    let ki = t.key_index() as int;
    if let Some(v) = entry.values@[ki].value {
        if let Some(r) = t.root() {
            lemma_descend_found(s, v@, r as int, f);
            let (cur, d) = spec_descend(s, v@, r as int, f).unwrap();
            if d == 0 {
                let s2 = s.update(cur, AvlNode { entries: s[cur].entries.push(entry), ..s[cur] });
                assert(s2[cur].entries == s[cur].entries.push(entry));
            } else {
                let k = s.len() as int;
                let s1 = s.push(fresh_node(Some(cur as usize), v@, entry));
                let sx = if d > 0 {
                    set_right(s1, cur, Some(k as usize))
                } else {
                    set_left(s1, cur, Some(k as usize))
                };
                lemma_rotation_contents(sx, k, f);
                let (s3, nr) = spec_rotation(sx, k, f).unwrap();
                assert forall|j: int| 0 <= j < s.len() implies #[trigger] s3[j].value == s[j].value && s3[j].entries
                    == s[j].entries by {
                    assert(sx[j].value == s3[j].value);
                }
                assert(sx[k].value == s3[k].value);
            }
        }
    }
}

proof fn lemma_descend_fuel(s: Seq<AvlNode>, key: Seq<u8>, cur: int, f1: nat, f2: nat)
    requires
        spec_descend(s, key, cur, f1) is Some,
        spec_descend(s, key, cur, f2) is Some,
    ensures
        spec_descend(s, key, cur, f1) == spec_descend(s, key, cur, f2),
    decreases f1,
{
    if 0 <= cur < s.len() && s[cur].value.len() >= key.len() && key_dir(key, s[cur].value) != 0 {
        let d = key_dir(key, s[cur].value);
        let c = if d > 0 {
            s[cur].right
        } else {
            s[cur].left
        };
        if let Some(c) = c {
            lemma_descend_fuel(s, key, c as int, (f1 - 1) as nat, (f2 - 1) as nat);
        }
    }
}

proof fn lemma_descend_ignores_entries(s: Seq<AvlNode>, s2: Seq<AvlNode>, key: Seq<u8>, cur: int, f: nat)
    requires
        s2.len() == s.len(),
        forall|i: int|
            0 <= i < s.len() ==> (#[trigger] s2[i]).value == s[i].value && s2[i].left == s[i].left && s2[i].right
                == s[i].right,
    ensures
        spec_descend(s2, key, cur, f) == spec_descend(s, key, cur, f),
    decreases f,
{
    if f > 0 && 0 <= cur < s.len() {
        assert(s2[cur].value == s[cur].value);
        let d = key_dir(key, s[cur].value);
        let c = if d > 0 {
            s[cur].right
        } else {
            s[cur].left
        };
        if let Some(c) = c {
            lemma_descend_ignores_entries(s, s2, key, c as int, (f - 1) as nat);
        }
    }
}

/// Law of the tree, a read after a write, for a key it already holds:
/// adding an entry under such a key changes no link, and a search for the
/// key returns what it returned before, followed by the new entry. (For a
/// key the tree does not hold yet, the balancing may relink nodes so that a
/// later search misses keys added before.)
pub proof fn law_avl_add_existing_key_then_search(t: AvlTree, t2: AvlTree, entry: FlowEntry)
    requires
        t.wf(),
        t.key_index() < entry.values@.len(),
        entry.values@[t.key_index() as int].value is Some,
        t.add_defined(entry),
        t.search_defined(entry.values@[t.key_index() as int].value->0@),
        t.search_result(entry.values@[t.key_index() as int].value->0@) != t.any(),
        (t2.root(), t2.vnodes(), t2.any()) == t.add_result(entry),
    ensures
        t2.search_defined(entry.values@[t.key_index() as int].value->0@),
        t2.search_result(entry.values@[t.key_index() as int].value->0@) == t.search_result(
            entry.values@[t.key_index() as int].value->0@,
        ).push(entry),
{
    let ki = t.key_index() as int;
    let key = entry.values@[ki].value->0@;
    let s = t.vnodes();
    let r = t.root().unwrap() as int;
    let fa = choose|f: nat| #[trigger] spec_add(t.root(), t.vnodes(), t.any(), t.key_index() as int, entry, f) is Some;
    let fs = choose|f: nat| #[trigger] spec_descend(s, key, r, f) is Some;
    lemma_descend_found(s, key, r, fs);
    let (k, d) = spec_descend(s, key, r, fs).unwrap();
    if d != 0 {
        assert(t.search_result(key) == t.any());
    }
    assert(d == 0);
    lemma_descend_fuel(s, key, r, fa, fs);
    let s2 = s.update(k, AvlNode { entries: s[k].entries.push(entry), ..s[k] });
    assert(t2.vnodes() == s2);
    lemma_descend_ignores_entries(s, s2, key, r, fs);
    assert(spec_descend(t2.vnodes(), key, t2.root().unwrap() as int, fs) is Some);
    let f2 = choose|f: nat| #[trigger] spec_descend(t2.vnodes(), key, t2.root().unwrap() as int, f) is Some;
    lemma_descend_fuel(s2, key, r, f2, fs);
}

} // verus!
