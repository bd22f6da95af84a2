use vstd::prelude::*;
use crate::idtree::{kids, NodeId, Node, nid, pos_in, node_ok, anc_at, ancestor_of, in_subtree, all_ok, without};

verus! {

use crate::tree_lemmas::{lemma_no_self_parent, lemma_group_of_child, lemma_subtree_step, lemma_remove_no_dup};

pub(crate) open spec fn link_prev(grp: Seq<NodeId>, t: int) -> Option<NodeId> {
    if t > 0 {
        Some(grp[t - 1])
    } else {
        None
    }
}

pub(crate) open spec fn link_next(grp: Seq<NodeId>, t: int) -> Option<NodeId> {
    if t < grp.len() {
        Some(grp[t])
    } else {
        None
    }
}

/// The links after the lone root `n` is put at position `t` of the group
/// `grp`, under the parent `par`.
pub(crate) open spec fn link_links<T>(m: Map<usize, Node<T>>, n: NodeId, par: Option<NodeId>, grp: Seq<NodeId>, t: int) -> Map<
    usize,
    Node<T>,
> {
    let prev = link_prev(grp, t);
    let next = link_next(grp, t);
    Map::new(
        |i: usize| m.contains_key(i),
        |i: usize|
            {
                let o = m[i];
                if i == n.index {
                    Node {
                        parent: par,
                        previous_sibling: prev,
                        next_sibling: next,
                        first_child: o.first_child,
                        last_child: o.last_child,
                        id: o.id,
                        data: o.data,
                    }
                } else {
                    Node {
                        parent: o.parent,
                        previous_sibling: if next == Some(nid(i)) {
                            Some(n)
                        } else {
                            o.previous_sibling
                        },
                        next_sibling: if prev == Some(nid(i)) {
                            Some(n)
                        } else {
                            o.next_sibling
                        },
                        first_child: if par == Some(nid(i)) && prev is None {
                            Some(n)
                        } else {
                            o.first_child
                        },
                        last_child: if par == Some(nid(i)) && next is None {
                            Some(n)
                        } else {
                            o.last_child
                        },
                        id: o.id,
                        data: o.data,
                    }
                }
            },
    )
}

pub(crate) open spec fn link_groups(g: Map<usize, Seq<NodeId>>, n: NodeId, grp: Seq<NodeId>, t: int) -> Map<
    usize,
    Seq<NodeId>,
> {
    Map::new(
        |i: usize| g.contains_key(i),
        |i: usize|
            if i == n.index || grp.contains(nid(i)) {
                grp.insert(t, n)
            } else {
                g[i]
            },
    )
}

pub(crate) open spec fn link_base<T>(d: Map<usize, nat>, par: Option<NodeId>) -> nat {
    match par {
        Some(p) => d[p.index] + 1,
        None => 0,
    }
}

pub(crate) open spec fn link_depth<T>(m: Map<usize, Node<T>>, d: Map<usize, nat>, n: NodeId, par: Option<NodeId>) -> Map<
    usize,
    nat,
> {
    Map::new(
        |i: usize| d.contains_key(i),
        |i: usize|
            if in_subtree(m, d, n, nid(i)) {
                d[i] + link_base::<T>(d, par)
            } else {
                d[i]
            },
    )
}

/// What linking `n` at position `t` of `grp` under `par` needs.
pub(crate) open spec fn link_ready<T>(
    m: Map<usize, Node<T>>,
    g: Map<usize, Seq<NodeId>>,
    d: Map<usize, nat>,
    cap: nat,
    bound: usize,
    n: NodeId,
    par: Option<NodeId>,
    grp: Seq<NodeId>,
    t: int,
) -> bool {
    &&& all_ok(m, g, d, cap, bound)
    &&& g.dom() == m.dom()
    &&& d.dom() == m.dom()
    &&& m.contains_key(n.index)
    &&& m[n.index].parent is None
    &&& g[n.index] == seq![n]
    &&& 0 <= t <= grp.len()
    &&& !grp.contains(n)
    &&& grp.len() > 0 ==> m.contains_key(grp[0].index) && g[grp[0].index] == grp && m[grp[0].index].parent == par
    &&& grp.len() == 0 ==> par is Some && m[par->0.index].first_child is None
    &&& par matches Some(p) ==> m.contains_key(p.index) && !in_subtree(m, d, n, p)
}

pub(crate) proof fn lemma_insert_no_dup(s: Seq<NodeId>, t: int, x: NodeId)
    requires
        s.no_duplicates(),
        0 <= t <= s.len(),
        !s.contains(x),
    ensures
        s.insert(t, x).no_duplicates(),
        forall|y: NodeId| s.insert(t, x).contains(y) <==> (s.contains(y) || y == x),
{
    let r = s.insert(t, x);
    assert forall|i: int, j: int| 0 <= i < r.len() && 0 <= j < r.len() && i != j implies r[i] != r[j] by {
        if i != t && j != t {
            let i2 = if i < t { i } else { i - 1 };
            let j2 = if j < t { j } else { j - 1 };
            assert(r[i] == s[i2]);
            assert(r[j] == s[j2]);
        } else if i == t {
            let j2 = if j < t { j } else { j - 1 };
            assert(r[j] == s[j2]);
            assert(s.contains(s[j2]));
        } else {
            let i2 = if i < t { i } else { i - 1 };
            assert(r[i] == s[i2]);
            assert(s.contains(s[i2]));
        }
    }
    assert forall|y: NodeId| r.contains(y) <==> (s.contains(y) || y == x) by {
        if r.contains(y) {
            let i = choose|i: int| 0 <= i < r.len() && r[i] == y;
            if i < t {
                assert(s[i] == y);
            } else if i > t {
                assert(s[i - 1] == y);
            }
        }
        if s.contains(y) {
            let i = choose|i: int| 0 <= i < s.len() && s[i] == y;
            if i < t {
                assert(r[i] == y);
            } else {
                assert(r[i + 1] == y);
            }
        }
        if y == x {
            assert(r[t] == x);
        }
    }
}

/// Facts shared by the cases of a link.
pub(crate) proof fn lemma_link_basics<T>(
    m: Map<usize, Node<T>>,
    g: Map<usize, Seq<NodeId>>,
    d: Map<usize, nat>,
    cap: nat,
    bound: usize,
    n: NodeId,
    par: Option<NodeId>,
    grp: Seq<NodeId>,
    t: int,
)
    requires
        link_ready(m, g, d, cap, bound, n, par, grp, t),
    ensures
        grp.no_duplicates(),
        grp.insert(t, n).no_duplicates(),
        forall|y: NodeId| #[trigger] grp.insert(t, n).contains(y) <==> (grp.contains(y) || y == n),
        forall|j: int|
            #![trigger grp[j]]
            0 <= j < grp.len() ==> m.contains_key(grp[j].index) && g[grp[j].index] == grp && m[grp[j].index].parent
                == par && grp[j] != n && nid(grp[j].index) == grp[j] && !in_subtree(m, d, n, grp[j]),
        d[n.index] == 0,
        in_subtree(m, d, n, n),
        par matches Some(p) ==> p != n && !grp.contains(p) && m[p.index].parent != Some(p) && (grp.len() > 0
            ==> m[p.index].first_child == Some(grp[0]) && m[p.index].last_child == Some(grp.last())),
        forall|x: usize|
            #![trigger g[x]]
            m.contains_key(x) && g[x].contains(n) ==> x == n.index,
{
    assert(node_ok(m, g, d, cap, bound, n.index));
    assert(nid(n.index) == n);
    assert(anc_at(m, n, 0) == n);
    if grp.len() > 0 {
        assert(node_ok(m, g, d, cap, bound, grp[0].index));
    }
    lemma_insert_no_dup(grp, t, n);
    assert forall|j: int| 0 <= j < grp.len() implies m.contains_key(#[trigger] grp[j].index) && g[grp[j].index]
        == grp && m[grp[j].index].parent == par && grp[j] != n && nid(grp[j].index) == grp[j] && !in_subtree(
        m,
        d,
        n,
        grp[j],
    ) by {
        assert(node_ok(m, g, d, cap, bound, grp[0].index));
        assert(grp.contains(grp[j]));
        let x = grp[j].index;
        assert(node_ok(m, g, d, cap, bound, x));
        match par {
            Some(p) => {
                lemma_subtree_step(m, g, d, cap, bound, n, x);
            },
            None => {
                assert(anc_at(m, nid(x), 0) == nid(x));
            },
        }
    }
    match par {
        Some(p) => {
            assert(p != n);
            if grp.contains(p) {
                let j = choose|j: int| 0 <= j < grp.len() && grp[j] == p;
                assert(m[grp[j].index].parent == par);
            }
            lemma_no_self_parent(m, g, d, cap, bound, p.index);
            if grp.len() > 0 {
                assert(node_ok(m, g, d, cap, bound, grp[0].index));
            }
        },
        None => {},
    }
    assert forall|x: usize| #![trigger g[x]] m.contains_key(x) && g[x].contains(n) implies x == n.index by {
        assert(node_ok(m, g, d, cap, bound, x));
        let j = choose|j: int| 0 <= j < g[x].len() && g[x][j] == n;
        assert(g[g[x][j].index] == g[x]);
        assert(g[x] == seq![n]);
        assert(g[x].contains(nid(x)));
        let jx = choose|jj: int| 0 <= jj < g[x].len() && g[x][jj] == nid(x);
    }
}

#[verifier::rlimit(100)]
pub(crate) proof fn lemma_link_self<T>(
    m: Map<usize, Node<T>>,
    g: Map<usize, Seq<NodeId>>,
    d: Map<usize, nat>,
    cap: nat,
    bound: usize,
    n: NodeId,
    par: Option<NodeId>,
    grp: Seq<NodeId>,
    t: int,
    i: usize,
)
    requires
        link_ready(m, g, d, cap, bound, n, par, grp, t),
        m.contains_key(i),
        i == n.index,
    ensures
        node_ok(link_links(m, n, par, grp, t), link_groups(g, n, grp, t), link_depth(m, d, n, par), cap + cap + 1, bound, i),
{
    let m2 = link_links(m, n, par, grp, t);
    let g2 = link_groups(g, n, grp, t);
    let d2 = link_depth(m, d, n, par);
    let big = grp.insert(t, n);
    let prev = link_prev(grp, t);
    let next = link_next(grp, t);
    assert(node_ok(m, g, d, cap, bound, n.index));
    assert(nid(n.index) == n);
    assert(node_ok(m, g, d, cap, bound, i));
    lemma_link_basics(m, g, d, cap, bound, n, par, grp, t);
    if let Some(p) = par {
        assert(node_ok(m, g, d, cap, bound, p.index));
    }
    let o = m[i];
    assert(g2[i] == big);
    assert(big[t] == n);
    assert(big.contains(n));
    assert forall|j: int| 0 <= j < big.len() implies #[trigger] m2.contains_key(big[j].index) && g2[big[j].index]
        == big && m2[big[j].index].parent == m2[i].parent by {
        if j < t {
            assert(big[j] == grp[j]);
        } else if j > t {
            assert(big[j] == grp[j - 1]);
        }
    }
    assert forall|j: int| 0 <= j < big.len() && #[trigger] big[j] == nid(i) implies m2[i].previous_sibling == (if j
        > 0 {
        Some(big[j - 1])
    } else {
        None
    }) && m2[i].next_sibling == (if j + 1 < big.len() {
        Some(big[j + 1])
    } else {
        None
    }) by {
        assert(j == t) by {
            assert(big[t] == n);
        }
        if t > 0 {
            assert(big[t - 1] == grp[t - 1]);
        }
        if t < grp.len() {
            assert(big[t + 1] == grp[t]);
        }
    }
    match par {
        Some(p) => {
            assert(!in_subtree(m, d, n, p));
            assert(m2[p.index].first_child == Some(big[0])) by {
                if t > 0 {
                    assert(big[0] == grp[0]);
                }
            }
            assert(m2[p.index].last_child == Some(big.last())) by {
                if t < grp.len() {
                    assert(big.last() == grp.last());
                }
            }
        },
        None => {},
    }
    match o.first_child {
        Some(f) => {
            assert(node_ok(m, g, d, cap, bound, f.index));
            assert(f != n);
            assert(m2[f.index].parent == m[f.index].parent);
        },
        None => {},
    }
    match o.last_child {
        Some(l) => {
            assert(l != n);
            assert(m2[l.index].parent == m[l.index].parent);
        },
        None => {},
    }
}

#[verifier::rlimit(100)]
pub(crate) proof fn lemma_link_member_links<T>(
    m: Map<usize, Node<T>>,
    g: Map<usize, Seq<NodeId>>,
    d: Map<usize, nat>,
    cap: nat,
    bound: usize,
    n: NodeId,
    par: Option<NodeId>,
    grp: Seq<NodeId>,
    t: int,
    i: usize,
)
    requires
        link_ready(m, g, d, cap, bound, n, par, grp, t),
        m.contains_key(i),
        grp.contains(nid(i)),
    ensures
        ({
            let m2 = link_links(m, n, par, grp, t);
            let big = grp.insert(t, n);
            forall|j: int|
                0 <= j < big.len() && #[trigger] big[j] == nid(i) ==> m2[i].previous_sibling == (if j
                    > 0 {
                    Some(big[j - 1])
                } else {
                    None
                }) && m2[i].next_sibling == (if j + 1 < big.len() {
                    Some(big[j + 1])
                } else {
                    None
                })
        }),
{
    let m2 = link_links(m, n, par, grp, t);
    let g2 = link_groups(g, n, grp, t);
    let d2 = link_depth(m, d, n, par);
    let big = grp.insert(t, n);
    let prev = link_prev(grp, t);
    let next = link_next(grp, t);
    assert(node_ok(m, g, d, cap, bound, n.index));
    assert(nid(n.index) == n);
    assert(node_ok(m, g, d, cap, bound, i));
    lemma_link_basics(m, g, d, cap, bound, n, par, grp, t);
    if let Some(p) = par {
        assert(node_ok(m, g, d, cap, bound, p.index));
    }
    let o = m[i];
    let ji = choose|j: int| 0 <= j < grp.len() && grp[j] == nid(i);
    assert(grp[ji] == nid(i));
    assert(g[i] == grp);
    assert forall|j: int| 0 <= j < big.len() && #[trigger] big[j] == nid(i) implies m2[i].previous_sibling == (if j
        > 0 {
        Some(big[j - 1])
    } else {
        None
    }) && m2[i].next_sibling == (if j + 1 < big.len() {
        Some(big[j + 1])
    } else {
        None
    }) by {
        assert(j != t);
        let j2 = if j < t { j } else { j - 1 };
        assert(big[j] == grp[j2]);
        assert(j2 == ji);
        assert(grp[ji] == nid(i));
        assert(i != n.index);
        if j2 < t {
            assert(next != Some(nid(i))) by {
                if t < grp.len() {
                    assert(grp[t] != grp[j2]);
                }
            }
            if j > 0 {
                assert(big[j - 1] == grp[j2 - 1]);
            }
            if j2 + 1 == t {
                assert(prev == Some(nid(i)));
                assert(big[j + 1] == n);
            } else {
                assert(prev != Some(nid(i))) by {
                    if t > 0 {
                        assert(grp[t - 1] != grp[j2]);
                    }
                }
                assert(big[j + 1] == grp[j2 + 1]);
            }
        } else {
            assert(prev != Some(nid(i))) by {
                if t > 0 {
                    assert(grp[t - 1] != grp[j2]);
                }
            }
            if j2 == t {
                assert(next == Some(nid(i)));
                assert(big[j - 1] == n);
            } else {
                assert(next != Some(nid(i))) by {
                    if t < grp.len() {
                        assert(grp[t] != grp[j2]);
                    }
                }
                assert(big[j - 1] == grp[j2 - 1]);
            }
            if j + 1 < big.len() {
                assert(big[j + 1] == grp[j2 + 1]);
            }
        }
    }
}

#[verifier::rlimit(100)]
pub(crate) proof fn lemma_link_member<T>(
    m: Map<usize, Node<T>>,
    g: Map<usize, Seq<NodeId>>,
    d: Map<usize, nat>,
    cap: nat,
    bound: usize,
    n: NodeId,
    par: Option<NodeId>,
    grp: Seq<NodeId>,
    t: int,
    i: usize,
)
    requires
        link_ready(m, g, d, cap, bound, n, par, grp, t),
        m.contains_key(i),
        grp.contains(nid(i)),
    ensures
        node_ok(link_links(m, n, par, grp, t), link_groups(g, n, grp, t), link_depth(m, d, n, par), cap + cap + 1, bound, i),
{
    let m2 = link_links(m, n, par, grp, t);
    let g2 = link_groups(g, n, grp, t);
    let d2 = link_depth(m, d, n, par);
    let big = grp.insert(t, n);
    let prev = link_prev(grp, t);
    let next = link_next(grp, t);
    assert(node_ok(m, g, d, cap, bound, n.index));
    assert(nid(n.index) == n);
    assert(node_ok(m, g, d, cap, bound, i));
    lemma_link_basics(m, g, d, cap, bound, n, par, grp, t);
    if let Some(p) = par {
        assert(node_ok(m, g, d, cap, bound, p.index));
    }
    let o = m[i];
    let ji = choose|j: int| 0 <= j < grp.len() && grp[j] == nid(i);
    assert(grp[ji] == nid(i));
    assert(g[i] == grp);
    assert(g2[i] == big);
    assert(i != n.index);
    assert(big.contains(nid(i)));
    assert(!in_subtree(m, d, n, nid(i)));
    assert forall|j: int| 0 <= j < big.len() implies #[trigger] m2.contains_key(big[j].index) && g2[big[j].index]
        == big && m2[big[j].index].parent == m2[i].parent by {
        if j < t {
            assert(big[j] == grp[j]);
        } else if j > t {
            assert(big[j] == grp[j - 1]);
        }
    }
    lemma_link_member_links(m, g, d, cap, bound, n, par, grp, t, i);
    match par {
        Some(p) => {
            assert(!in_subtree(m, d, n, p));
            assert(m2[p.index].first_child == Some(big[0])) by {
                if t > 0 {
                    assert(big[0] == grp[0]);
                }
            }
            assert(m2[p.index].last_child == Some(big.last())) by {
                if t < grp.len() {
                    assert(big.last() == grp.last());
                }
            }
            assert(p.index != i);
        },
        None => {},
    }
    match o.first_child {
        Some(f) => {
            assert(node_ok(m, g, d, cap, bound, f.index));
            assert(f != n);
            assert(m2[f.index].parent == m[f.index].parent);
        },
        None => {},
    }
    match o.last_child {
        Some(l) => {
            assert(node_ok(m, g, d, cap, bound, l.index));
            assert(l != n);
            assert(m2[l.index].parent == m[l.index].parent);
        },
        None => {},
    }
}

#[verifier::rlimit(100)]
pub(crate) proof fn lemma_link_parent_members<T>(
    m: Map<usize, Node<T>>,
    g: Map<usize, Seq<NodeId>>,
    d: Map<usize, nat>,
    cap: nat,
    bound: usize,
    n: NodeId,
    par: Option<NodeId>,
    grp: Seq<NodeId>,
    t: int,
    i: usize,
)
    requires
        link_ready(m, g, d, cap, bound, n, par, grp, t),
        m.contains_key(i),
        par == Some(nid(i)),
    ensures
        ({
            let m2 = link_links(m, n, par, grp, t);
            let g2 = link_groups(g, n, grp, t);
            let gi = g[i];
            &&& g2[i] == gi
            &&& forall|j: int|
                #![trigger gi[j]]
                0 <= j < gi.len() ==> m2.contains_key(gi[j].index) && g2[gi[j].index] == gi
                    && m2[gi[j].index].parent == m2[i].parent
        }),
{
    let m2 = link_links(m, n, par, grp, t);
    let g2 = link_groups(g, n, grp, t);
    let d2 = link_depth(m, d, n, par);
    let big = grp.insert(t, n);
    let prev = link_prev(grp, t);
    let next = link_next(grp, t);
    assert(node_ok(m, g, d, cap, bound, n.index));
    assert(nid(n.index) == n);
    assert(node_ok(m, g, d, cap, bound, i));
    lemma_link_basics(m, g, d, cap, bound, n, par, grp, t);
    if let Some(p) = par {
        assert(node_ok(m, g, d, cap, bound, p.index));
    }
    let o = m[i];
    let gi = g[i];
    assert(i != n.index);
    assert(!grp.contains(nid(i)));
    assert(g2[i] == gi);
    assert(!in_subtree(m, d, n, nid(i)));
    assert forall|j: int| 0 <= j < gi.len() implies #[trigger] m2.contains_key(gi[j].index) && g2[gi[j].index]
        == gi && m2[gi[j].index].parent == m2[i].parent by {
        let x = gi[j];
        assert(g[x.index] == gi);
        assert(nid(x.index) == x);
        assert(x != n) by {
            if x == n {
                assert(gi.contains(n));
            }
        }
        if grp.contains(x) {
            let jx = choose|jj: int| 0 <= jj < grp.len() && grp[jj] == x;
            assert(m[grp[jx].index].parent == par);
        }
    }
}

#[verifier::rlimit(100)]
pub(crate) proof fn lemma_link_parent<T>(
    m: Map<usize, Node<T>>,
    g: Map<usize, Seq<NodeId>>,
    d: Map<usize, nat>,
    cap: nat,
    bound: usize,
    n: NodeId,
    par: Option<NodeId>,
    grp: Seq<NodeId>,
    t: int,
    i: usize,
)
    requires
        link_ready(m, g, d, cap, bound, n, par, grp, t),
        m.contains_key(i),
        par == Some(nid(i)),
    ensures
        node_ok(link_links(m, n, par, grp, t), link_groups(g, n, grp, t), link_depth(m, d, n, par), cap + cap + 1, bound, i),
{
    let m2 = link_links(m, n, par, grp, t);
    let g2 = link_groups(g, n, grp, t);
    let d2 = link_depth(m, d, n, par);
    let big = grp.insert(t, n);
    let prev = link_prev(grp, t);
    let next = link_next(grp, t);
    assert(node_ok(m, g, d, cap, bound, n.index));
    assert(nid(n.index) == n);
    assert(node_ok(m, g, d, cap, bound, i));
    lemma_link_basics(m, g, d, cap, bound, n, par, grp, t);
    if let Some(p) = par {
        assert(node_ok(m, g, d, cap, bound, p.index));
    }
    let o = m[i];
    let gi = g[i];
    assert(i != n.index);
    assert(!grp.contains(nid(i)));
    assert(g2[i] == gi);
    assert(!in_subtree(m, d, n, nid(i)));
    lemma_link_parent_members(m, g, d, cap, bound, n, par, grp, t, i);
    assert(next != Some(nid(i)) && prev != Some(nid(i))) by {
        if t < grp.len() {
            assert(grp.contains(grp[t]));
        }
        if t > 0 {
            assert(grp.contains(grp[t - 1]));
        }
    }
    match o.parent {
        Some(r) => {
            assert(r != nid(i));
            assert(par != Some(r));
            lemma_subtree_step(m, g, d, cap, bound, n, i);
            assert(!in_subtree(m, d, n, r));
        },
        None => {},
    }
    match m2[i].first_child {
        Some(f) => {
            if t == 0 {
                assert(f == n);
            } else {
                assert(f == grp[0]);
            }
        },
        None => {},
    }
    match m2[i].last_child {
        Some(l) => {
            if t == grp.len() {
                assert(l == n);
            } else {
                assert(l == grp.last());
                assert(grp[grp.len() - 1] == grp.last());
            }
        },
        None => {},
    }
}

#[verifier::rlimit(100)]
pub(crate) proof fn lemma_link_other_members<T>(
    m: Map<usize, Node<T>>,
    g: Map<usize, Seq<NodeId>>,
    d: Map<usize, nat>,
    cap: nat,
    bound: usize,
    n: NodeId,
    par: Option<NodeId>,
    grp: Seq<NodeId>,
    t: int,
    i: usize,
)
    requires
        link_ready(m, g, d, cap, bound, n, par, grp, t),
        m.contains_key(i),
        i != n.index,
        !grp.contains(nid(i)),
        par != Some(nid(i)),
    ensures
        ({
            let m2 = link_links(m, n, par, grp, t);
            let g2 = link_groups(g, n, grp, t);
            let gi = g[i];
            &&& g2[i] == gi
            &&& forall|j: int|
                #![trigger gi[j]]
                0 <= j < gi.len() ==> m2.contains_key(gi[j].index) && g2[gi[j].index] == gi
                    && m2[gi[j].index].parent == m2[i].parent
        }),
{
    let m2 = link_links(m, n, par, grp, t);
    let g2 = link_groups(g, n, grp, t);
    let d2 = link_depth(m, d, n, par);
    let big = grp.insert(t, n);
    let prev = link_prev(grp, t);
    let next = link_next(grp, t);
    assert(node_ok(m, g, d, cap, bound, n.index));
    assert(nid(n.index) == n);
    assert(node_ok(m, g, d, cap, bound, i));
    lemma_link_basics(m, g, d, cap, bound, n, par, grp, t);
    if let Some(p) = par {
        assert(node_ok(m, g, d, cap, bound, p.index));
    }
    let o = m[i];
    let gi = g[i];
    assert(g2[i] == gi);
    assert(next != Some(nid(i)) && prev != Some(nid(i))) by {
        if t < grp.len() {
            assert(grp.contains(grp[t]));
        }
        if t > 0 {
            assert(grp.contains(grp[t - 1]));
        }
    }
    assert forall|j: int| 0 <= j < gi.len() implies #[trigger] m2.contains_key(gi[j].index) && g2[gi[j].index]
        == gi && m2[gi[j].index].parent == m2[i].parent by {
        let x = gi[j];
        assert(g[x.index] == gi);
        assert(nid(x.index) == x);
        assert(x != n) by {
            if x == n {
                assert(gi.contains(n));
            }
        }
        if grp.contains(x) {
            let jx = choose|jj: int| 0 <= jj < grp.len() && grp[jj] == x;
            assert(g[grp[jx].index] == grp);
            assert(gi.contains(nid(i)));
            let ji = choose|jj: int| 0 <= jj < gi.len() && gi[jj] == nid(i);
            assert(g[gi[ji].index] == gi);
        }
    }
}

#[verifier::rlimit(100)]
pub(crate) proof fn lemma_link_other<T>(
    m: Map<usize, Node<T>>,
    g: Map<usize, Seq<NodeId>>,
    d: Map<usize, nat>,
    cap: nat,
    bound: usize,
    n: NodeId,
    par: Option<NodeId>,
    grp: Seq<NodeId>,
    t: int,
    i: usize,
)
    requires
        link_ready(m, g, d, cap, bound, n, par, grp, t),
        m.contains_key(i),
        i != n.index,
        !grp.contains(nid(i)),
        par != Some(nid(i)),
    ensures
        node_ok(link_links(m, n, par, grp, t), link_groups(g, n, grp, t), link_depth(m, d, n, par), cap + cap + 1, bound, i),
{
    let m2 = link_links(m, n, par, grp, t);
    let g2 = link_groups(g, n, grp, t);
    let d2 = link_depth(m, d, n, par);
    let big = grp.insert(t, n);
    let prev = link_prev(grp, t);
    let next = link_next(grp, t);
    assert(node_ok(m, g, d, cap, bound, n.index));
    assert(nid(n.index) == n);
    assert(node_ok(m, g, d, cap, bound, i));
    lemma_link_basics(m, g, d, cap, bound, n, par, grp, t);
    if let Some(p) = par {
        assert(node_ok(m, g, d, cap, bound, p.index));
    }
    let o = m[i];
    let gi = g[i];
    assert(g2[i] == gi);
    assert(next != Some(nid(i)) && prev != Some(nid(i))) by {
        if t < grp.len() {
            assert(grp.contains(grp[t]));
        }
        if t > 0 {
            assert(grp.contains(grp[t - 1]));
        }
    }
    lemma_link_other_members(m, g, d, cap, bound, n, par, grp, t, i);
    match o.parent {
        Some(r) => {
            lemma_subtree_step(m, g, d, cap, bound, n, i);
            assert(par != Some(r)) by {
                if par == Some(r) {
                    if grp.len() > 0 {
                        lemma_group_of_child(m, g, d, cap, bound, i, grp[0].index);
                        assert(nid(grp[0].index) == grp[0]);
                        assert(g[grp[0].index].contains(nid(i)));
                    }
                }
            }
            if r == n {
                assert(in_subtree(m, d, n, nid(i)));
            } else {
                assert(in_subtree(m, d, n, nid(i)) == in_subtree(m, d, n, r));
            }
        },
        None => {
            assert(!in_subtree(m, d, n, nid(i))) by {
                assert(anc_at(m, nid(i), 0) == nid(i));
            }
        },
    }
    match o.first_child {
        Some(f) => {
            assert(f != n);
            assert(m2[f.index].parent == m[f.index].parent);
        },
        None => {},
    }
    match o.last_child {
        Some(l) => {
            assert(l != n);
            assert(m2[l.index].parent == m[l.index].parent);
        },
        None => {},
    }
}

pub(crate) proof fn lemma_link_node<T>(
    m: Map<usize, Node<T>>,
    g: Map<usize, Seq<NodeId>>,
    d: Map<usize, nat>,
    cap: nat,
    bound: usize,
    n: NodeId,
    par: Option<NodeId>,
    grp: Seq<NodeId>,
    t: int,
    i: usize,
)
    requires
        link_ready(m, g, d, cap, bound, n, par, grp, t),
        m.contains_key(i),
    ensures
        node_ok(link_links(m, n, par, grp, t), link_groups(g, n, grp, t), link_depth(m, d, n, par), cap + cap + 1, bound, i),
{
    if i == n.index {
        lemma_link_self(m, g, d, cap, bound, n, par, grp, t, i);
    } else if grp.contains(nid(i)) {
        lemma_link_member(m, g, d, cap, bound, n, par, grp, t, i);
    } else if par == Some(nid(i)) {
        lemma_link_parent(m, g, d, cap, bound, n, par, grp, t, i);
    } else {
        lemma_link_other(m, g, d, cap, bound, n, par, grp, t, i);
    }
}

/// How the children of each node read after a link.
pub(crate) proof fn lemma_link_children<T>(
    m: Map<usize, Node<T>>,
    g: Map<usize, Seq<NodeId>>,
    d: Map<usize, nat>,
    cap: nat,
    bound: usize,
    n: NodeId,
    par: Option<NodeId>,
    grp: Seq<NodeId>,
    t: int,
    y: usize,
)
    requires
        link_ready(m, g, d, cap, bound, n, par, grp, t),
        m.contains_key(y),
    ensures
        kids(link_links(m, n, par, grp, t), link_groups(g, n, grp, t), y) == if par == Some(nid(y)) {
            grp.insert(t, n)
        } else {
            kids(m, g, y)
        },
{
    let m2 = link_links(m, n, par, grp, t);
    let g2 = link_groups(g, n, grp, t);
    lemma_link_basics(m, g, d, cap, bound, n, par, grp, t);
    assert(node_ok(m, g, d, cap, bound, y));
    assert(node_ok(m, g, d, cap, bound, n.index));
    if par == Some(nid(y)) {
        if t == 0 {
            assert(m2[y].first_child == Some(n));
        } else {
            assert(grp.contains(grp[0]));
            assert(m2[y].first_child == Some(grp[0]));
        }
    } else {
        match m[y].first_child {
            Some(f) => {
                assert(node_ok(m, g, d, cap, bound, f.index));
                assert(f != n);
                if grp.contains(f) {
                    let j = choose|j: int| 0 <= j < grp.len() && grp[j] == f;
                    assert(m[grp[j].index].parent == par);
                }
                assert(nid(f.index) == f);
            },
            None => {},
        }
    }
}

} // verus!
