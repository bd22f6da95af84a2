use vstd::prelude::*;
use crate::idtree::{NodeId, Node, nid, pos_in, node_ok, anc_at, ancestor_of, in_subtree, all_ok, without};

verus! {

use crate::tree_lemmas::{lemma_no_self_parent, lemma_group_of_child, lemma_subtree_step, lemma_remove_no_dup};

/// The links after `id` is taken out of its parent and sibling group.
pub(crate) open spec fn detach_links<T>(m: Map<usize, Node<T>>, id: NodeId) -> Map<usize, Node<T>> {
    let n = m[id.index];
    let q = n.parent;
    let prev = n.previous_sibling;
    let next = n.next_sibling;
    Map::new(
        |i: usize| m.contains_key(i),
        |i: usize|
            {
                let o = m[i];
                if i == id.index {
                    Node {
                        parent: None,
                        previous_sibling: None,
                        next_sibling: None,
                        first_child: o.first_child,
                        last_child: o.last_child,
                        id: o.id,
                        data: o.data,
                    }
                } else {
                    Node {
                        parent: o.parent,
                        previous_sibling: if next == Some(nid(i)) {
                            prev
                        } else {
                            o.previous_sibling
                        },
                        next_sibling: if prev == Some(nid(i)) {
                            next
                        } else {
                            o.next_sibling
                        },
                        first_child: if q == Some(nid(i)) && prev is None {
                            next
                        } else {
                            o.first_child
                        },
                        last_child: if q == Some(nid(i)) && next is None {
                            prev
                        } else {
                            o.last_child
                        },
                        id: o.id,
                        data: o.data,
                    }
                }
            },
    )
}

pub(crate) open spec fn detach_groups(g: Map<usize, Seq<NodeId>>, id: NodeId) -> Map<usize, Seq<NodeId>> {
    let s = g[id.index];
    let rest = s.remove(pos_in(s, id));
    Map::new(
        |i: usize| g.contains_key(i),
        |i: usize|
            if i == id.index {
                seq![id]
            } else if s.contains(nid(i)) {
                rest
            } else {
                g[i]
            },
    )
}

pub(crate) open spec fn detach_depth<T>(m: Map<usize, Node<T>>, d: Map<usize, nat>, id: NodeId) -> Map<usize, nat> {
    Map::new(
        |i: usize| d.contains_key(i),
        |i: usize|
            if in_subtree(m, d, id, nid(i)) {
                (d[i] - d[id.index]) as nat
            } else {
                d[i]
            },
    )
}

#[verifier::rlimit(100)]
pub(crate) proof fn lemma_detach_self<T>(
    m: Map<usize, Node<T>>,
    g: Map<usize, Seq<NodeId>>,
    d: Map<usize, nat>,
    cap: nat,
    bound: usize,
    id: NodeId,
    i: usize,
)
    requires
        all_ok(m, g, d, cap, bound),
        g.dom() == m.dom(),
        d.dom() == m.dom(),
        m.contains_key(id.index),
        m.contains_key(i),
        i == id.index,
    ensures
        node_ok(detach_links(m, id), detach_groups(g, id), detach_depth(m, d, id), cap, bound, i),
{
    let m2 = detach_links(m, id);
    let g2 = detach_groups(g, id);
    let d2 = detach_depth(m, d, id);
    let n = m[id.index];
    let q = n.parent;
    let prev = n.previous_sibling;
    let next = n.next_sibling;
    let s = g[id.index];
    let k = pos_in(s, id);
    let rest = s.remove(k);
    assert(node_ok(m, g, d, cap, bound, id.index));
    assert(nid(id.index) == id);
    assert(s.contains(id));
    assert(0 <= k < s.len() && s[k] == id);
    lemma_remove_no_dup(s, k);
    lemma_no_self_parent(m, g, d, cap, bound, id.index);
    assert(prev == (if k > 0 { Some(s[k - 1]) } else { None }));
    assert(next == (if k + 1 < s.len() { Some(s[k + 1]) } else { None }));
    assert(in_subtree(m, d, id, id)) by {
        assert(anc_at(m, id, 0) == id);
    }
    let o = m[i];
    let gi = g[i];
    assert(node_ok(m, g, d, cap, bound, i));
    assert(m2[i].data == o.data && m2[i].id == o.id);

        assert(g2[i] == seq![id]);
        assert(d2[i] == 0);
        assert(seq![id][0] == id);
        match o.first_child {
            Some(f) => {
                lemma_no_self_parent(m, g, d, cap, bound, f.index);
                assert(m2[f.index].parent == m[f.index].parent);
            },
            None => {},
        }
        match o.last_child {
            Some(l) => {
                assert(m2[l.index].parent == m[l.index].parent);
            },
            None => {},
        }
        assert(node_ok(m2, g2, d2, cap, bound, i));
}

#[verifier::rlimit(100)]
pub(crate) proof fn lemma_detach_sibling_links<T>(
    m: Map<usize, Node<T>>,
    g: Map<usize, Seq<NodeId>>,
    d: Map<usize, nat>,
    cap: nat,
    bound: usize,
    id: NodeId,
    i: usize,
)
    requires
        all_ok(m, g, d, cap, bound),
        g.dom() == m.dom(),
        d.dom() == m.dom(),
        m.contains_key(id.index),
        m.contains_key(i),
        i != id.index,
        g[id.index].contains(nid(i)),
    ensures
        ({
            let m2 = detach_links(m, id);
            let rest = g[id.index].remove(pos_in(g[id.index], id));
            forall|j: int|
                0 <= j < rest.len() && #[trigger] rest[j] == nid(i) ==> m2[i].previous_sibling == (if j
                    > 0 {
                    Some(rest[j - 1])
                } else {
                    None
                }) && m2[i].next_sibling == (if j + 1 < rest.len() {
                    Some(rest[j + 1])
                } else {
                    None
                })
        }),
{
    let m2 = detach_links(m, id);
    let g2 = detach_groups(g, id);
    let d2 = detach_depth(m, d, id);
    let n = m[id.index];
    let q = n.parent;
    let prev = n.previous_sibling;
    let next = n.next_sibling;
    let s = g[id.index];
    let k = pos_in(s, id);
    let rest = s.remove(k);
    assert(node_ok(m, g, d, cap, bound, id.index));
    assert(nid(id.index) == id);
    assert(s.contains(id));
    assert(0 <= k < s.len() && s[k] == id);
    lemma_remove_no_dup(s, k);
    lemma_no_self_parent(m, g, d, cap, bound, id.index);
    assert(prev == (if k > 0 { Some(s[k - 1]) } else { None }));
    assert(next == (if k + 1 < s.len() { Some(s[k + 1]) } else { None }));
    assert(in_subtree(m, d, id, id)) by {
        assert(anc_at(m, id, 0) == id);
    }
    let o = m[i];
    let gi = g[i];
    assert(node_ok(m, g, d, cap, bound, i));
    assert(m2[i].data == o.data && m2[i].id == o.id);

        // A sibling of the detached node.
        let ji = choose|j: int| 0 <= j < s.len() && s[j] == nid(i);
        assert(s[ji] == nid(i));
        assert(g[s[ji].index] == s);
        assert(gi == s);
        assert(o.parent == q);
        assert(ji != k);
        assert(g2[i] == rest);
        assert(rest.contains(nid(i)));
        assert forall|j: int| 0 <= j < rest.len() && #[trigger] rest[j] == nid(i) implies m2[i].previous_sibling
            == (if j > 0 { Some(rest[j - 1]) } else { None }) && m2[i].next_sibling == (if j + 1
            < rest.len() { Some(rest[j + 1]) } else { None }) by {
            let j2 = if j < k { j } else { j + 1 };
            assert(rest[j] == s[j2]);
            assert(s[j2] == nid(i));
            assert(j2 == ji) by {
                assert(s.no_duplicates());
            }
            if j2 < k {
                assert(next != Some(nid(i))) by {
                    if k + 1 < s.len() {
                        assert(s[k + 1] != s[j2]);
                    }
                }
                if j2 + 1 == k {
                    assert(prev == Some(nid(i)));
                } else {
                    assert(prev != Some(nid(i))) by {
                        if k > 0 {
                            assert(s[k - 1] != s[j2]);
                        }
                    }
                    assert(rest[j + 1] == s[j2 + 1]);
                }
                if j > 0 {
                    assert(rest[j - 1] == s[j2 - 1]);
                }
            } else {
                assert(prev != Some(nid(i))) by {
                    if k > 0 {
                        assert(s[k - 1] != s[j2]);
                    }
                }
                if j2 == k + 1 {
                    assert(next == Some(nid(i)));
                    if k > 0 {
                        assert(rest[j - 1] == s[k - 1]);
                    }
                } else {
                    assert(next != Some(nid(i))) by {
                        if k + 1 < s.len() {
                            assert(s[k + 1] != s[j2]);
                        }
                    }
                    assert(rest[j - 1] == s[j2 - 1]);
                }
                if j + 1 < rest.len() {
                    assert(rest[j + 1] == s[j2 + 1]);
                }
            }
        }
}

#[verifier::rlimit(100)]
pub(crate) proof fn lemma_detach_sibling_members<T>(
    m: Map<usize, Node<T>>,
    g: Map<usize, Seq<NodeId>>,
    d: Map<usize, nat>,
    cap: nat,
    bound: usize,
    id: NodeId,
    i: usize,
)
    requires
        all_ok(m, g, d, cap, bound),
        g.dom() == m.dom(),
        d.dom() == m.dom(),
        m.contains_key(id.index),
        m.contains_key(i),
        i != id.index,
        g[id.index].contains(nid(i)),
    ensures
        ({
            let m2 = detach_links(m, id);
            let g2 = detach_groups(g, id);
            let rest = g[id.index].remove(pos_in(g[id.index], id));
            &&& g2[i] == rest
            &&& rest.no_duplicates()
            &&& rest.contains(nid(i))
            &&& forall|j: int|
                #![trigger rest[j]]
                0 <= j < rest.len() ==> m2.contains_key(rest[j].index) && g2[rest[j].index] == rest
                    && m2[rest[j].index].parent == m2[i].parent
        }),
{
    let m2 = detach_links(m, id);
    let g2 = detach_groups(g, id);
    let d2 = detach_depth(m, d, id);
    let n = m[id.index];
    let q = n.parent;
    let prev = n.previous_sibling;
    let next = n.next_sibling;
    let s = g[id.index];
    let k = pos_in(s, id);
    let rest = s.remove(k);
    assert(node_ok(m, g, d, cap, bound, id.index));
    assert(nid(id.index) == id);
    assert(s.contains(id));
    assert(0 <= k < s.len() && s[k] == id);
    lemma_remove_no_dup(s, k);
    lemma_no_self_parent(m, g, d, cap, bound, id.index);
    assert(prev == (if k > 0 { Some(s[k - 1]) } else { None }));
    assert(next == (if k + 1 < s.len() { Some(s[k + 1]) } else { None }));
    let o = m[i];
    let gi = g[i];
    assert(node_ok(m, g, d, cap, bound, i));
    let ji = choose|j: int| 0 <= j < s.len() && s[j] == nid(i);
    assert(s[ji] == nid(i));
    assert(g[s[ji].index] == s);
    assert(gi == s);
    assert(o.parent == q);
    assert(ji != k);
    assert(g2[i] == rest);
    assert(rest.contains(nid(i)));
    assert(in_subtree(m, d, id, id)) by {
        assert(anc_at(m, id, 0) == id);
    }
    assert(!in_subtree(m, d, id, nid(i))) by {
        match q {
            Some(p) => {
                assert(d[i] == d[p.index] + 1);
                assert(d[id.index] == d[p.index] + 1);
            },
            None => {},
        }
        assert(anc_at(m, nid(i), 0) == nid(i));
    }
    assert forall|j: int| 0 <= j < rest.len() implies #[trigger] m2.contains_key(rest[j].index)
        && g2[rest[j].index] == rest && m2[rest[j].index].parent == m2[i].parent by {
        let j2 = if j < k { j } else { j + 1 };
        assert(rest[j] == s[j2]);
        assert(s[j2] != id);
        assert(s.contains(s[j2]));
        assert(nid(s[j2].index) == s[j2]);
    }
}

#[verifier::rlimit(100)]
pub(crate) proof fn lemma_detach_sibling_parent<T>(
    m: Map<usize, Node<T>>,
    g: Map<usize, Seq<NodeId>>,
    d: Map<usize, nat>,
    cap: nat,
    bound: usize,
    id: NodeId,
    i: usize,
)
    requires
        all_ok(m, g, d, cap, bound),
        g.dom() == m.dom(),
        d.dom() == m.dom(),
        m.contains_key(id.index),
        m.contains_key(i),
        i != id.index,
        g[id.index].contains(nid(i)),
    ensures
        ({
            let m2 = detach_links(m, id);
            let d2 = detach_depth(m, d, id);
            let rest = g[id.index].remove(pos_in(g[id.index], id));
            match m2[i].parent {
                Some(p) => m2.contains_key(p.index) && m2[p.index].first_child == Some(rest[0])
                    && m2[p.index].last_child == Some(rest.last()) && d2[i] == d2[p.index] + 1,
                None => d2[i] == 0,
            }
        }),
{
    let m2 = detach_links(m, id);
    let g2 = detach_groups(g, id);
    let d2 = detach_depth(m, d, id);
    let n = m[id.index];
    let q = n.parent;
    let prev = n.previous_sibling;
    let next = n.next_sibling;
    let s = g[id.index];
    let k = pos_in(s, id);
    let rest = s.remove(k);
    assert(node_ok(m, g, d, cap, bound, id.index));
    assert(nid(id.index) == id);
    assert(s.contains(id));
    assert(0 <= k < s.len() && s[k] == id);
    lemma_remove_no_dup(s, k);
    lemma_no_self_parent(m, g, d, cap, bound, id.index);
    assert(prev == (if k > 0 { Some(s[k - 1]) } else { None }));
    assert(next == (if k + 1 < s.len() { Some(s[k + 1]) } else { None }));
    let o = m[i];
    let gi = g[i];
    assert(node_ok(m, g, d, cap, bound, i));
    let ji = choose|j: int| 0 <= j < s.len() && s[j] == nid(i);
    assert(s[ji] == nid(i));
    assert(g[s[ji].index] == s);
    assert(gi == s);
    assert(o.parent == q);
    assert(ji != k);
    assert(g2[i] == rest);
    assert(rest.contains(nid(i)));
    assert(in_subtree(m, d, id, id)) by {
        assert(anc_at(m, id, 0) == id);
    }
    assert(!in_subtree(m, d, id, nid(i))) by {
        match q {
            Some(p) => {
                assert(d[i] == d[p.index] + 1);
                assert(d[id.index] == d[p.index] + 1);
            },
            None => {},
        }
        assert(anc_at(m, nid(i), 0) == nid(i));
    }
    match q {
        Some(p) => {
            assert(p.index != id.index);
            assert(nid(i) != p) by {
                lemma_no_self_parent(m, g, d, cap, bound, i);
            }
            assert(!s.contains(p)) by {
                if s.contains(p) {
                    let jp = choose|j: int| 0 <= j < s.len() && s[j] == p;
                    assert(m[s[jp].index].parent == q);
                    assert(nid(p.index) == p);
                    lemma_no_self_parent(m, g, d, cap, bound, p.index);
                }
            }
            assert(m.contains_key(p.index));
            assert(!in_subtree(m, d, id, p));
            assert(m2[p.index].first_child == Some(rest[0])) by {
                if k == 0 {
                    assert(rest[0] == s[1]);
                } else {
                    assert(rest[0] == s[0]);
                }
            }
            assert(m2[p.index].last_child == Some(rest.last())) by {
                if k + 1 == s.len() {
                    assert(rest.last() == s[k - 1]);
                } else {
                    assert(rest.last() == s.last());
                }
            }
        },
        None => {},
    }
}

#[verifier::rlimit(100)]
pub(crate) proof fn lemma_detach_sibling<T>(
    m: Map<usize, Node<T>>,
    g: Map<usize, Seq<NodeId>>,
    d: Map<usize, nat>,
    cap: nat,
    bound: usize,
    id: NodeId,
    i: usize,
)
    requires
        all_ok(m, g, d, cap, bound),
        g.dom() == m.dom(),
        d.dom() == m.dom(),
        m.contains_key(id.index),
        m.contains_key(i),
        i != id.index,
        g[id.index].contains(nid(i)),
    ensures
        node_ok(detach_links(m, id), detach_groups(g, id), detach_depth(m, d, id), cap, bound, i),
{
    let m2 = detach_links(m, id);
    let g2 = detach_groups(g, id);
    let d2 = detach_depth(m, d, id);
    let n = m[id.index];
    let q = n.parent;
    let prev = n.previous_sibling;
    let next = n.next_sibling;
    let s = g[id.index];
    let k = pos_in(s, id);
    let rest = s.remove(k);
    assert(node_ok(m, g, d, cap, bound, id.index));
    assert(nid(id.index) == id);
    assert(s.contains(id));
    assert(0 <= k < s.len() && s[k] == id);
    lemma_remove_no_dup(s, k);
    lemma_no_self_parent(m, g, d, cap, bound, id.index);
    assert(prev == (if k > 0 { Some(s[k - 1]) } else { None }));
    assert(next == (if k + 1 < s.len() { Some(s[k + 1]) } else { None }));
    let o = m[i];
    let gi = g[i];
    assert(node_ok(m, g, d, cap, bound, i));
    let ji = choose|j: int| 0 <= j < s.len() && s[j] == nid(i);
    assert(s[ji] == nid(i));
    assert(g[s[ji].index] == s);
    assert(gi == s);
    assert(o.parent == q);
    assert(ji != k);
    assert(g2[i] == rest);
    assert(rest.contains(nid(i)));
    assert(in_subtree(m, d, id, id)) by {
        assert(anc_at(m, id, 0) == id);
    }
    assert(!in_subtree(m, d, id, nid(i))) by {
        match q {
            Some(p) => {
                assert(d[i] == d[p.index] + 1);
                assert(d[id.index] == d[p.index] + 1);
            },
            None => {},
        }
        assert(anc_at(m, nid(i), 0) == nid(i));
    }
    lemma_detach_sibling_members(m, g, d, cap, bound, id, i);
    lemma_detach_sibling_links(m, g, d, cap, bound, id, i);
    lemma_detach_sibling_parent(m, g, d, cap, bound, id, i);
    assert(q != Some(nid(i))) by {
        lemma_no_self_parent(m, g, d, cap, bound, i);
    }
    match o.first_child {
        Some(f) => {
            assert(f != id);
            assert(m2[f.index].parent == m[f.index].parent);
        },
        None => {},
    }
    match o.last_child {
        Some(l) => {
            assert(l != id);
            assert(m2[l.index].parent == m[l.index].parent);
        },
        None => {},
    }
}

#[verifier::rlimit(100)]
pub(crate) proof fn lemma_detach_parent<T>(
    m: Map<usize, Node<T>>,
    g: Map<usize, Seq<NodeId>>,
    d: Map<usize, nat>,
    cap: nat,
    bound: usize,
    id: NodeId,
    i: usize,
)
    requires
        all_ok(m, g, d, cap, bound),
        g.dom() == m.dom(),
        d.dom() == m.dom(),
        m.contains_key(id.index),
        m.contains_key(i),
        i != id.index,
        !g[id.index].contains(nid(i)),
        m[id.index].parent == Some(nid(i)),
    ensures
        node_ok(detach_links(m, id), detach_groups(g, id), detach_depth(m, d, id), cap, bound, i),
{
    let m2 = detach_links(m, id);
    let g2 = detach_groups(g, id);
    let d2 = detach_depth(m, d, id);
    let n = m[id.index];
    let q = n.parent;
    let prev = n.previous_sibling;
    let next = n.next_sibling;
    let s = g[id.index];
    let k = pos_in(s, id);
    let rest = s.remove(k);
    assert(node_ok(m, g, d, cap, bound, id.index));
    assert(nid(id.index) == id);
    assert(s.contains(id));
    assert(0 <= k < s.len() && s[k] == id);
    lemma_remove_no_dup(s, k);
    lemma_no_self_parent(m, g, d, cap, bound, id.index);
    assert(prev == (if k > 0 { Some(s[k - 1]) } else { None }));
    assert(next == (if k + 1 < s.len() { Some(s[k + 1]) } else { None }));
    assert(in_subtree(m, d, id, id)) by {
        assert(anc_at(m, id, 0) == id);
    }
    let o = m[i];
    let gi = g[i];
    assert(node_ok(m, g, d, cap, bound, i));
    assert(m2[i].data == o.data && m2[i].id == o.id);

        // The parent of the detached node.
        assert(g2[i] == gi);
        assert(!in_subtree(m, d, id, nid(i))) by {
            assert(d[id.index] == d[i] + 1);
        }
        assert forall|j: int| 0 <= j < gi.len() implies #[trigger] m2.contains_key(gi[j].index)
            && g2[gi[j].index] == gi && m2[gi[j].index].parent == m2[i].parent by {
            let x = gi[j];
            assert(g[x.index] == gi);
            assert(nid(x.index) == x);
            if s.contains(x) {
                let jx = choose|jj: int| 0 <= jj < s.len() && s[jj] == x;
                assert(m[s[jx].index].parent == q);
                assert(m[x.index].parent == o.parent);
                lemma_no_self_parent(m, g, d, cap, bound, i);
            }
            assert(x != id) by {
                lemma_no_self_parent(m, g, d, cap, bound, i);
            }
        }
        assert(next != Some(nid(i)) && prev != Some(nid(i))) by {
            if next == Some(nid(i)) {
                assert(s.contains(s[k + 1]));
            }
            if prev == Some(nid(i)) {
                assert(s.contains(s[k - 1]));
            }
        }
        match o.parent {
            Some(r) => {
                assert(r != nid(i)) by {
                    lemma_no_self_parent(m, g, d, cap, bound, i);
                }
                assert(r != id) by {
                    lemma_no_self_parent(m, g, d, cap, bound, id.index);
                    assert(d[i] == d[r.index] + 1);
                }
                assert(q != Some(r));
                assert(!in_subtree(m, d, id, r)) by {
                    assert(d[i] == d[r.index] + 1);
                }
            },
            None => {},
        }
        match m2[i].first_child {
            Some(f) => {
                if k == 0 {
                    assert(f == s[1]);
                    assert(s.contains(s[1]));
                } else {
                    assert(f == s[0]);
                    assert(s.contains(s[0]));
                }
                assert(m[f.index].parent == q);
            },
            None => {
                assert(k == 0 && s.len() == 1);
            },
        }
        match m2[i].last_child {
            Some(l) => {
                if k + 1 == s.len() {
                    assert(l == s[k - 1]);
                    assert(s.contains(s[k - 1]));
                } else {
                    assert(l == s.last());
                    assert(s.contains(s.last()));
                }
                assert(m[l.index].parent == q);
            },
            None => {
                assert(k + 1 == s.len() && k == 0);
            },
        }
        assert(node_ok(m2, g2, d2, cap, bound, i));
}

#[verifier::rlimit(100)]
pub(crate) proof fn lemma_detach_other<T>(
    m: Map<usize, Node<T>>,
    g: Map<usize, Seq<NodeId>>,
    d: Map<usize, nat>,
    cap: nat,
    bound: usize,
    id: NodeId,
    i: usize,
)
    requires
        all_ok(m, g, d, cap, bound),
        g.dom() == m.dom(),
        d.dom() == m.dom(),
        m.contains_key(id.index),
        m.contains_key(i),
        i != id.index,
        !g[id.index].contains(nid(i)),
        m[id.index].parent != Some(nid(i)),
    ensures
        node_ok(detach_links(m, id), detach_groups(g, id), detach_depth(m, d, id), cap, bound, i),
{
    let m2 = detach_links(m, id);
    let g2 = detach_groups(g, id);
    let d2 = detach_depth(m, d, id);
    let n = m[id.index];
    let q = n.parent;
    let prev = n.previous_sibling;
    let next = n.next_sibling;
    let s = g[id.index];
    let k = pos_in(s, id);
    let rest = s.remove(k);
    assert(node_ok(m, g, d, cap, bound, id.index));
    assert(nid(id.index) == id);
    assert(s.contains(id));
    assert(0 <= k < s.len() && s[k] == id);
    lemma_remove_no_dup(s, k);
    lemma_no_self_parent(m, g, d, cap, bound, id.index);
    assert(prev == (if k > 0 { Some(s[k - 1]) } else { None }));
    assert(next == (if k + 1 < s.len() { Some(s[k + 1]) } else { None }));
    assert(in_subtree(m, d, id, id)) by {
        assert(anc_at(m, id, 0) == id);
    }
    let o = m[i];
    let gi = g[i];
    assert(node_ok(m, g, d, cap, bound, i));
    assert(m2[i].data == o.data && m2[i].id == o.id);

        // Any other node keeps its links and group.
        assert(g2[i] == gi);
        assert(next != Some(nid(i)) && prev != Some(nid(i))) by {
            if next == Some(nid(i)) {
                assert(s.contains(s[k + 1]));
            }
            if prev == Some(nid(i)) {
                assert(s.contains(s[k - 1]));
            }
        }
        assert forall|j: int| 0 <= j < gi.len() implies #[trigger] m2.contains_key(gi[j].index)
            && g2[gi[j].index] == gi && m2[gi[j].index].parent == m2[i].parent by {
            let x = gi[j];
            assert(g[x.index] == gi);
            assert(nid(x.index) == x);
            if s.contains(x) {
                let jx = choose|jj: int| 0 <= jj < s.len() && s[jj] == x;
                assert(g[s[jx].index] == s);
                assert(gi.contains(nid(i)));
                let ji = choose|jj: int| 0 <= jj < gi.len() && gi[jj] == nid(i);
                assert(g[gi[ji].index] == gi);
            }
            assert(x != id);
        }
        match o.parent {
            Some(r) => {
                lemma_subtree_step(m, g, d, cap, bound, id, i);
                assert(q != Some(r)) by {
                    if q == Some(r) {
                        lemma_group_of_child(m, g, d, cap, bound, i, id.index);
                        assert(g[id.index].contains(nid(i)));
                    }
                }
                assert(m2[r.index].first_child == m[r.index].first_child);
                assert(m2[r.index].last_child == m[r.index].last_child);
                if r == id {
                    assert(in_subtree(m, d, id, nid(i)));
                } else {
                    assert(in_subtree(m, d, id, nid(i)) == in_subtree(m, d, id, r));
                }
            },
            None => {
                assert(!in_subtree(m, d, id, nid(i))) by {
                    assert(anc_at(m, nid(i), 0) == nid(i));
                }
            },
        }
        match o.first_child {
            Some(f) => {
                assert(f != id);
                assert(m2[f.index].parent == m[f.index].parent);
            },
            None => {},
        }
        match o.last_child {
            Some(l) => {
                assert(l != id);
                assert(m2[l.index].parent == m[l.index].parent);
            },
            None => {},
        }
        assert(node_ok(m2, g2, d2, cap, bound, i));
}

pub(crate) proof fn lemma_detach_node<T>(
    m: Map<usize, Node<T>>,
    g: Map<usize, Seq<NodeId>>,
    d: Map<usize, nat>,
    cap: nat,
    bound: usize,
    id: NodeId,
    i: usize,
)
    requires
        all_ok(m, g, d, cap, bound),
        g.dom() == m.dom(),
        d.dom() == m.dom(),
        m.contains_key(id.index),
        m.contains_key(i),
        
    ensures
        node_ok(detach_links(m, id), detach_groups(g, id), detach_depth(m, d, id), cap, bound, i),
{
    if i == id.index {
        lemma_detach_self(m, g, d, cap, bound, id, i);
    } else if g[id.index].contains(nid(i)) {
        lemma_detach_sibling(m, g, d, cap, bound, id, i);
    } else if m[id.index].parent == Some(nid(i)) {
        lemma_detach_parent(m, g, d, cap, bound, id, i);
    } else {
        lemma_detach_other(m, g, d, cap, bound, id, i);
    }
}

/// After a detach, walking up from any node meets only nodes that the same
/// walk met before it.
pub(crate) proof fn lemma_anc_detach<T>(
    m: Map<usize, Node<T>>,
    g: Map<usize, Seq<NodeId>>,
    d: Map<usize, nat>,
    cap: nat,
    bound: usize,
    id: NodeId,
    x: NodeId,
    k: nat,
)
    requires
        all_ok(m, g, d, cap, bound),
        m.contains_key(x.index),
    ensures
        exists|j: nat| anc_at(m, x, j) == anc_at(detach_links(m, id), x, k),
    decreases k,
{
    let m2 = detach_links(m, id);
    if k == 0 {
        assert(anc_at(m, x, 0) == anc_at(m2, x, 0));
    } else if x.index == id.index {
        assert(anc_at(m2, x, k) == x);
        assert(anc_at(m, x, 0) == x);
    } else {
        assert(node_ok(m, g, d, cap, bound, x.index));
        match m[x.index].parent {
            Some(p) => {
                lemma_anc_detach(m, g, d, cap, bound, id, p, (k - 1) as nat);
                let j = choose|j: nat| anc_at(m, p, j) == anc_at(m2, p, (k - 1) as nat);
                assert(anc_at(m, x, j + 1) == anc_at(m, p, j));
            },
            None => {
                assert(anc_at(m, x, 0) == x);
            },
        }
    }
}

/// How the groups and children read after a detach.
pub(crate) proof fn lemma_detach_views<T>(
    m: Map<usize, Node<T>>,
    g: Map<usize, Seq<NodeId>>,
    d: Map<usize, nat>,
    cap: nat,
    bound: usize,
    id: NodeId,
    x: usize,
)
    requires
        all_ok(m, g, d, cap, bound),
        g.dom() == m.dom(),
        d.dom() == m.dom(),
        m.contains_key(id.index),
        m.contains_key(x),
    ensures
        ({
            let m2 = detach_links(m, id);
            let g2 = detach_groups(g, id);
            let ch = match m[x].first_child {
                Some(f) => g[f.index],
                None => Seq::<NodeId>::empty(),
            };
            let ch2 = match m2[x].first_child {
                Some(f) => g2[f.index],
                None => Seq::<NodeId>::empty(),
            };
            ch2 == if m[id.index].parent == Some(nid(x)) {
                without(ch, id)
            } else {
                ch
            }
        }),
{
    let m2 = detach_links(m, id);
    let g2 = detach_groups(g, id);
    let n = m[id.index];
    let q = n.parent;
    let s = g[id.index];
    let k = pos_in(s, id);
    let rest = s.remove(k);
    assert(node_ok(m, g, d, cap, bound, id.index));
    assert(nid(id.index) == id);
    assert(s.contains(id));
    lemma_remove_no_dup(s, k);
    assert(node_ok(m, g, d, cap, bound, x));
    lemma_no_self_parent(m, g, d, cap, bound, id.index);
    if q == Some(nid(x)) {
        assert(m[x].first_child == Some(s[0]));
        assert(s.contains(s[0]));
        assert(g[s[0].index] == s);
        match m2[x].first_child {
            Some(f) => {
                if k == 0 {
                    assert(f == s[1]);
                    assert(rest[0] == s[1]);
                } else {
                    assert(f == s[0]);
                    assert(rest[0] == s[0]);
                }
                assert(rest.contains(rest[0]));
                assert(s.contains(f));
                assert(f != id);
                assert(nid(f.index) == f);
            },
            None => {
                assert(k == 0 && s.len() == 1);
                assert(rest =~= Seq::<NodeId>::empty());
            },
        }
    } else {
        assert(m2[x].first_child == m[x].first_child);
        match m[x].first_child {
            Some(f) => {
                assert(node_ok(m, g, d, cap, bound, f.index));
                assert(f != id);
                assert(nid(f.index) == f);
                if s.contains(f) {
                    let jf = choose|j: int| 0 <= j < s.len() && s[j] == f;
                    assert(m[s[jf].index].parent == q);
                }
            },
            None => {},
        }
    }
}

} // verus!
