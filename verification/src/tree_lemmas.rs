use vstd::prelude::*;
use crate::idtree::{NodeId, Node, nid, pos_in, node_ok, anc_at, ancestor_of, in_subtree, all_ok, without};

verus! {

pub(crate) proof fn lemma_no_self_parent<T>(
    m: Map<usize, Node<T>>,
    g: Map<usize, Seq<NodeId>>,
    d: Map<usize, nat>,
    cap: nat,
    bound: usize,
    i: usize,
)
    requires
        all_ok(m, g, d, cap, bound),
        m.contains_key(i),
    ensures
        m[i].parent != Some(nid(i)),
        m[i].first_child != Some(nid(i)),
        m[i].last_child != Some(nid(i)),
        m[i].parent matches Some(p) ==> m.contains_key(p.index) && d[i] == d[p.index] + 1,
{
    assert(node_ok(m, g, d, cap, bound, i));
}

/// Members of a sibling group share the group, and a child's group is the
/// children list of its parent.
pub(crate) proof fn lemma_group_of_child<T>(
    m: Map<usize, Node<T>>,
    g: Map<usize, Seq<NodeId>>,
    d: Map<usize, nat>,
    cap: nat,
    bound: usize,
    x: usize,
    y: usize,
)
    requires
        all_ok(m, g, d, cap, bound),
        m.contains_key(x),
        m.contains_key(y),
        m[x].parent is Some,
        m[x].parent == m[y].parent,
    ensures
        g[x] == g[y],
        g[x].contains(nid(y)),
{
    assert(node_ok(m, g, d, cap, bound, x));
    assert(node_ok(m, g, d, cap, bound, y));
    let p = m[x].parent->0;
    let f = g[x][0];
    assert(m[p.index].first_child == Some(g[x][0]));
    assert(m[p.index].first_child == Some(g[y][0]));
    assert(g[f.index] == g[x]);
    assert(g[y].contains(nid(y)));
    let j = choose|j: int| 0 <= j < g[y].len() && g[y][j] == nid(y);
    assert(g[g[y][0].index] == g[y]);
}

/// Following parent links one step from a child.
pub(crate) proof fn lemma_subtree_step<T>(
    m: Map<usize, Node<T>>,
    g: Map<usize, Seq<NodeId>>,
    d: Map<usize, nat>,
    cap: nat,
    bound: usize,
    a: NodeId,
    x: usize,
)
    requires
        all_ok(m, g, d, cap, bound),
        m.contains_key(x),
        m[x].parent is Some,
    ensures
        in_subtree(m, d, a, m[x].parent->0) ==> in_subtree(m, d, a, nid(x)),
        nid(x) != a && in_subtree(m, d, a, nid(x)) ==> in_subtree(m, d, a, m[x].parent->0),
{
    assert(node_ok(m, g, d, cap, bound, x));
    let p = m[x].parent->0;
    if in_subtree(m, d, a, p) {
        let k = (d[p.index] - d[a.index]) as nat;
        assert(anc_at(m, nid(x), k + 1) == anc_at(m, p, k));
        assert((d[x] - d[a.index]) as nat == k + 1);
    }
    if nid(x) != a && in_subtree(m, d, a, nid(x)) {
        let k = (d[x] - d[a.index]) as nat;
        if k == 0 {
            assert(anc_at(m, nid(x), 0) == nid(x));
        } else {
            assert(anc_at(m, nid(x), k) == anc_at(m, p, (k - 1) as nat));
        }
    }
}

/// Removing one element keeps a sequence free of duplicates.
pub(crate) proof fn lemma_remove_no_dup(s: Seq<NodeId>, k: int)
    requires
        s.no_duplicates(),
        0 <= k < s.len(),
    ensures
        s.remove(k).no_duplicates(),
        forall|x: NodeId| s.remove(k).contains(x) <==> (s.contains(x) && x != s[k]),
{
    let r = s.remove(k);
    assert forall|i: int, j: int| 0 <= i < r.len() && 0 <= j < r.len() && i != j implies r[i] != r[j] by {
        let i2 = if i < k { i } else { i + 1 };
        let j2 = if j < k { j } else { j + 1 };
        assert(r[i] == s[i2]);
        assert(r[j] == s[j2]);
    }
    assert forall|x: NodeId| r.contains(x) <==> (s.contains(x) && x != s[k]) by {
        if r.contains(x) {
            let i = choose|i: int| 0 <= i < r.len() && r[i] == x;
            let i2 = if i < k { i } else { i + 1 };
            assert(s[i2] == x);
        }
        if s.contains(x) && x != s[k] {
            let i = choose|i: int| 0 <= i < s.len() && s[i] == x;
            if i < k {
                assert(r[i] == x);
            } else {
                assert(r[i - 1] == x);
            }
        }
    }
}

/// Walking up depends only on the parent links.
pub(crate) proof fn lemma_anc_same_links<T>(m: Map<usize, Node<T>>, m2: Map<usize, Node<T>>, x: NodeId)
    requires
        forall|i: usize| #[trigger] m2[i].parent == m[i].parent,
    ensures
        forall|k: nat| #[trigger] anc_at(m2, x, k) == anc_at(m, x, k),
{
    assert forall|k: nat| #[trigger] anc_at(m2, x, k) == anc_at(m, x, k) by {
        lemma_anc_same_links_k(m, m2, x, k);
    }
}

proof fn lemma_anc_same_links_k<T>(m: Map<usize, Node<T>>, m2: Map<usize, Node<T>>, x: NodeId, k: nat)
    requires
        forall|i: usize| #[trigger] m2[i].parent == m[i].parent,
    ensures
        anc_at(m2, x, k) == anc_at(m, x, k),
    decreases k,
{
    if k > 0 {
        assert(m2[x.index].parent == m[x.index].parent);
        match m[x.index].parent {
            Some(p) => lemma_anc_same_links_k(m, m2, p, (k - 1) as nat),
            None => {},
        }
    }
}

/// Moving the split point of a sequence by one element.
pub(crate) proof fn lemma_split_at(c: Seq<NodeId>, i: int)
    requires
        0 <= i < c.len(),
    ensures
        forall|x: NodeId|
            #[trigger] c.subrange(0, i + 1).contains(x) <==> (c.subrange(0, i).contains(x) || x == c[i]),
        forall|x: NodeId|
            #[trigger] c.subrange(i, c.len() as int).contains(x) <==> (c.subrange(i + 1, c.len() as int).contains(x)
                || x == c[i]),
{
    let a = c.subrange(0, i + 1);
    let b = c.subrange(0, i);
    let e = c.subrange(i, c.len() as int);
    let f = c.subrange(i + 1, c.len() as int);
    assert forall|x: NodeId| #[trigger] a.contains(x) <==> (b.contains(x) || x == c[i]) by {
        if a.contains(x) {
            let j = choose|j: int| 0 <= j < a.len() && a[j] == x;
            if j < i {
                assert(b[j] == x);
            }
        }
        if b.contains(x) {
            let j = choose|j: int| 0 <= j < b.len() && b[j] == x;
            assert(a[j] == x);
        }
        if x == c[i] {
            assert(a[i] == x);
        }
    }
    assert forall|x: NodeId| #[trigger] e.contains(x) <==> (f.contains(x) || x == c[i]) by {
        if e.contains(x) {
            let j = choose|j: int| 0 <= j < e.len() && e[j] == x;
            if j > 0 {
                assert(f[j - 1] == x);
            }
        }
        if f.contains(x) {
            let j = choose|j: int| 0 <= j < f.len() && f[j] == x;
            assert(e[j + 1] == x);
        }
        if x == c[i] {
            assert(e[0] == x);
        }
    }
}

/// What a children list spliced with a reversed prefix of another holds.
pub(crate) proof fn lemma_merged_contains(sib: Seq<NodeId>, c: Seq<NodeId>, k: int, i: int)
    requires
        0 <= k < sib.len(),
        0 <= i <= c.len(),
    ensures
        forall|x: NodeId|
            #[trigger] (sib.subrange(0, k + 1) + c.subrange(0, i).reverse() + sib.subrange(k + 1, sib.len() as int)).contains(x)
                <==> (sib.contains(x) || c.subrange(0, i).contains(x)),
{
    let a = sib.subrange(0, k + 1);
    let r = c.subrange(0, i).reverse();
    let b = sib.subrange(k + 1, sib.len() as int);
    let mm = a + r + b;
    assert forall|x: NodeId| #[trigger] mm.contains(x) <==> (sib.contains(x) || c.subrange(0, i).contains(x)) by {
        if mm.contains(x) {
            let j = choose|j: int| 0 <= j < mm.len() && mm[j] == x;
            if j < a.len() {
                assert(sib[j] == x);
            } else if j < a.len() + r.len() {
                let jj = j - a.len();
                assert(r[jj] == x);
                assert(c.subrange(0, i)[i - 1 - jj] == x);
            } else {
                let jj = j - a.len() - r.len();
                assert(sib[k + 1 + jj] == x);
            }
        }
        if sib.contains(x) {
            let j = choose|j: int| 0 <= j < sib.len() && sib[j] == x;
            if j <= k {
                assert(mm[j] == x);
            } else {
                assert(mm[a.len() + r.len() + (j - k - 1)] == x);
            }
        }
        if c.subrange(0, i).contains(x) {
            let j = choose|j: int| 0 <= j < i && c.subrange(0, i)[j] == x;
            assert(r[i - 1 - j] == x);
            assert(mm[a.len() + (i - 1 - j)] == x);
        }
    }
}

} // verus!
