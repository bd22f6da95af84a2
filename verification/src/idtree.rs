use vstd::prelude::*;
use crate::dense_vec::DenseVec;
use crate::tree_lemmas::{lemma_merged_contains, lemma_split_at, lemma_anc_same_links, lemma_no_self_parent, lemma_group_of_child, lemma_subtree_step, lemma_remove_no_dup};
use crate::tree_detach::{detach_links, detach_groups, detach_depth, lemma_detach_self, lemma_detach_sibling_links, lemma_detach_sibling_members, lemma_detach_sibling_parent, lemma_detach_sibling, lemma_detach_parent, lemma_detach_other, lemma_detach_node, lemma_anc_detach, lemma_detach_views};
use crate::tree_link::{lemma_link_children, link_prev, link_next, link_links, link_groups, link_base, link_depth, link_ready, lemma_insert_no_dup, lemma_link_basics, lemma_link_self, lemma_link_member_links, lemma_link_member, lemma_link_parent_members, lemma_link_parent, lemma_link_other_members, lemma_link_other, lemma_link_node};

verus! {

/// A node identifier within a particular `Arena`.
#[derive(PartialEq, Eq, Copy, Clone, Debug, Structural)]
pub struct NodeId {
    pub(crate) index: usize,
}

pub(crate) open spec fn nid(i: usize) -> NodeId {
    NodeId { index: i }
}

impl NodeId {
    pub closed spec fn spec_index(self) -> usize {
        self.index
    }

    /// The identifier of the node with index `i`.
    pub closed spec fn from_index(i: usize) -> NodeId {
        NodeId { index: i }
    }

    pub proof fn lemma_from_index(i: usize)
        ensures
            NodeId::from_index(i).spec_index() == i,
            forall|x: NodeId| #[trigger] NodeId::from_index(x.spec_index()) == x,
    {
    }

}

/// A node of the arena: its links to the rest of the hierarchy and its data.
pub struct Node<T> {
    pub(crate) parent: Option<NodeId>,
    pub(crate) previous_sibling: Option<NodeId>,
    pub(crate) next_sibling: Option<NodeId>,
    pub(crate) first_child: Option<NodeId>,
    pub(crate) last_child: Option<NodeId>,
    pub(crate) id: NodeId,
    pub data: T,
}

impl<T> Node<T> {
    pub closed spec fn spec_parent(&self) -> Option<NodeId> {
        self.parent
    }

    pub closed spec fn spec_previous_sibling(&self) -> Option<NodeId> {
        self.previous_sibling
    }

    pub closed spec fn spec_next_sibling(&self) -> Option<NodeId> {
        self.next_sibling
    }

    pub closed spec fn spec_first_child(&self) -> Option<NodeId> {
        self.first_child
    }

    pub closed spec fn spec_last_child(&self) -> Option<NodeId> {
        self.last_child
    }

    pub closed spec fn spec_id(&self) -> NodeId {
        self.id
    }

    pub fn id(&self) -> (r: NodeId)
        ensures
            r == self.spec_id(),
    {
        self.id
    }

    /// The parent node, unless this node is a root.
    pub fn parent(&self) -> (r: Option<NodeId>)
        ensures
            r == self.spec_parent(),
    {
        self.parent
    }

    /// The first child of this node, unless it has none.
    pub fn first_child(&self) -> (r: Option<NodeId>)
        ensures
            r == self.spec_first_child(),
    {
        self.first_child
    }

    /// The last child of this node, unless it has none.
    pub fn last_child(&self) -> (r: Option<NodeId>)
        ensures
            r == self.spec_last_child(),
    {
        self.last_child
    }

    /// The sibling before this node, unless it comes first.
    pub fn previous_sibling(&self) -> (r: Option<NodeId>)
        ensures
            r == self.spec_previous_sibling(),
    {
        self.previous_sibling
    }

    /// The sibling after this node, unless it comes last.
    pub fn next_sibling(&self) -> (r: Option<NodeId>)
        ensures
            r == self.spec_next_sibling(),
    {
        self.next_sibling
    }
}

/// One step of a walk through a subtree.
#[derive(Debug, Clone, Copy, PartialEq, Eq, Structural)]
pub enum NodeEdge<T> {
    /// The start of a node: yielded before the node's descendants.
    Start(T),
    /// The end of a node: yielded after the node's descendants.
    End(T),
}

/// The position of `x` in `s`, for an `x` that occurs there.
pub open spec fn pos_in(s: Seq<NodeId>, x: NodeId) -> int {
    choose|j: int| 0 <= j < s.len() && s[j] == x
}

/// What each node of a well-formed arena satisfies: its sibling group lists
/// it once, the members of the group share its parent and agree on the
/// group, its sibling links follow the group, its parent's first and last
/// child are the ends of the group, and its depth is one more than its
/// parent's (zero for a root).
pub(crate) open spec fn node_ok<T>(
    m: Map<usize, Node<T>>,
    g: Map<usize, Seq<NodeId>>,
    d: Map<usize, nat>,
    cap: nat,
    bound: usize,
    i: usize,
) -> bool {
    let n = m[i];
    let s = g[i];
    &&& i < bound
    &&& n.id == nid(i)
    &&& g.contains_key(i)
    &&& d.contains_key(i)
    &&& s.no_duplicates()
    &&& s.contains(nid(i))
    &&& forall|j: int|
        #![trigger s[j]]
        0 <= j < s.len() ==> m.contains_key(s[j].index) && g[s[j].index] == s && m[s[j].index].parent
            == n.parent
    &&& forall|j: int|
        #![trigger s[j]]
        0 <= j < s.len() && s[j] == nid(i) ==> n.previous_sibling == (if j > 0 {
            Some(s[j - 1])
        } else {
            None
        }) && n.next_sibling == (if j + 1 < s.len() {
            Some(s[j + 1])
        } else {
            None
        })
    &&& match n.parent {
        Some(p) => m.contains_key(p.index) && m[p.index].first_child == Some(s[0])
            && m[p.index].last_child == Some(s.last()) && d[i] == d[p.index] + 1,
        None => d[i] == 0,
    }
    &&& match n.first_child {
        Some(f) => m.contains_key(f.index) && m[f.index].parent == Some(nid(i)),
        None => n.last_child is None,
    }
    &&& match n.last_child {
        Some(l) => m.contains_key(l.index) && m[l.index].parent == Some(nid(i)),
        None => n.first_child is None,
    }
    &&& d[i] <= cap
}

/// The node reached from `x` by following parent links `k` times, stopping
/// at a root.
pub(crate) open spec fn anc_at<T>(m: Map<usize, Node<T>>, x: NodeId, k: nat) -> NodeId
    decreases k,
{
    if k == 0 {
        x
    } else {
        match m[x.index].parent {
            Some(p) => anc_at(m, p, (k - 1) as nat),
            None => x,
        }
    }
}

/// Whether `a` is `x` or one of the ancestors of `x`.
pub(crate) open spec fn ancestor_of<T>(m: Map<usize, Node<T>>, a: NodeId, x: NodeId) -> bool {
    exists|k: nat| anc_at(m, x, k) == a
}

/// Whether `x` lies in the subtree of `a`, told apart by depth.
pub(crate) open spec fn in_subtree<T>(m: Map<usize, Node<T>>, d: Map<usize, nat>, a: NodeId, x: NodeId) -> bool {
    d[x.index] >= d[a.index] && anc_at(m, x, (d[x.index] - d[a.index]) as nat) == a
}

/// Every node of the map satisfies `node_ok`.
pub(crate) open spec fn all_ok<T>(
    m: Map<usize, Node<T>>,
    g: Map<usize, Seq<NodeId>>,
    d: Map<usize, nat>,
    cap: nat,
    bound: usize,
) -> bool {
    forall|i: usize| #![trigger node_ok(m, g, d, cap, bound, i)] m.contains_key(i) ==> node_ok(m, g, d, cap, bound, i)
}

/// The ordered children of node `y`: the sibling group of its first child.
pub(crate) open spec fn kids<T>(m: Map<usize, Node<T>>, g: Map<usize, Seq<NodeId>>, y: usize) -> Seq<NodeId> {
    match m[y].first_child {
        Some(f) => g[f.index],
        None => Seq::empty(),
    }
}

/// The nodes of the subtree of `x` in tree order (a parent before its
/// descendants, children first to last), looking at most `fuel` levels
/// down.
pub(crate) open spec fn pre<T>(m: Map<usize, Node<T>>, g: Map<usize, Seq<NodeId>>, x: NodeId, fuel: nat) -> Seq<
    NodeId,
>
    decreases fuel, 0nat,
{
    if fuel == 0 {
        seq![x]
    } else {
        seq![x] + pre_list(m, g, kids(m, g, x.index), (fuel - 1) as nat)
    }
}

pub(crate) open spec fn pre_list<T>(
    m: Map<usize, Node<T>>,
    g: Map<usize, Seq<NodeId>>,
    cs: Seq<NodeId>,
    fuel: nat,
) -> Seq<NodeId>
    decreases fuel, cs.len(),
{
    if cs.len() == 0 {
        Seq::empty()
    } else {
        pre(m, g, cs[0], fuel) + pre_list(m, g, cs.drop_first(), fuel)
    }
}

/// The opening and closing edges of the subtree of `x`: `Start(x)`, the
/// edges of each child's subtree in order, then `End(x)`.
pub(crate) open spec fn trav<T>(m: Map<usize, Node<T>>, g: Map<usize, Seq<NodeId>>, x: NodeId, fuel: nat) -> Seq<
    NodeEdge<NodeId>,
>
    decreases fuel, 0nat,
{
    if fuel == 0 {
        seq![NodeEdge::Start(x), NodeEdge::End(x)]
    } else {
        seq![NodeEdge::Start(x)] + trav_list(m, g, kids(m, g, x.index), (fuel - 1) as nat) + seq![
            NodeEdge::End(x),
        ]
    }
}

pub(crate) open spec fn trav_list<T>(
    m: Map<usize, Node<T>>,
    g: Map<usize, Seq<NodeId>>,
    cs: Seq<NodeId>,
    fuel: nat,
) -> Seq<NodeEdge<NodeId>>
    decreases fuel, cs.len(),
{
    if cs.len() == 0 {
        Seq::empty()
    } else {
        trav(m, g, cs[0], fuel) + trav_list(m, g, cs.drop_first(), fuel)
    }
}

proof fn lemma_pre_list_push<T>(m: Map<usize, Node<T>>, g: Map<usize, Seq<NodeId>>, cs: Seq<NodeId>, i: int, fuel: nat)
    requires
        0 <= i < cs.len(),
    ensures
        pre_list(m, g, cs.take(i + 1), fuel) == pre_list(m, g, cs.take(i), fuel) + pre(m, g, cs[i], fuel),
    decreases i,
{
    if i == 0 {
        assert(cs.take(1).drop_first() =~= Seq::<NodeId>::empty());
        assert(cs.take(0) =~= Seq::<NodeId>::empty());
        assert(pre_list(m, g, cs.take(1), fuel) == pre(m, g, cs[0], fuel) + pre_list(m, g, Seq::<NodeId>::empty(), fuel));
        assert(pre(m, g, cs[0], fuel) + Seq::<NodeId>::empty() =~= pre(m, g, cs[0], fuel));
    } else {
        let t = cs.drop_first();
        lemma_pre_list_push(m, g, t, i - 1, fuel);
        assert(cs.take(i + 1).drop_first() =~= t.take(i));
        assert(cs.take(i).drop_first() =~= t.take(i - 1));
        assert(cs.take(i + 1)[0] == cs[0]);
        assert(cs.take(i)[0] == cs[0]);
        assert(t[i - 1] == cs[i]);
        assert(pre_list(m, g, cs.take(i + 1), fuel) == pre(m, g, cs[0], fuel) + pre_list(m, g, t.take(i), fuel));
        assert(pre_list(m, g, cs.take(i), fuel) == pre(m, g, cs[0], fuel) + pre_list(m, g, t.take(i - 1), fuel));
        assert(pre(m, g, cs[0], fuel) + (pre_list(m, g, t.take(i - 1), fuel) + pre(m, g, cs[i], fuel)) =~= (pre(m, g, cs[0], fuel)
            + pre_list(m, g, t.take(i - 1), fuel)) + pre(m, g, cs[i], fuel));
    }
}

proof fn lemma_trav_list_push<T>(m: Map<usize, Node<T>>, g: Map<usize, Seq<NodeId>>, cs: Seq<NodeId>, i: int, fuel: nat)
    requires
        0 <= i < cs.len(),
    ensures
        trav_list(m, g, cs.take(i + 1), fuel) == trav_list(m, g, cs.take(i), fuel) + trav(m, g, cs[i], fuel),
    decreases i,
{
    if i == 0 {
        assert(cs.take(1).drop_first() =~= Seq::<NodeId>::empty());
        assert(cs.take(0) =~= Seq::<NodeId>::empty());
        assert(trav_list(m, g, cs.take(1), fuel) == trav(m, g, cs[0], fuel) + trav_list(m, g, Seq::<NodeId>::empty(), fuel));
        assert(trav(m, g, cs[0], fuel) + Seq::<NodeEdge<NodeId>>::empty() =~= trav(m, g, cs[0], fuel));
    } else {
        let t = cs.drop_first();
        lemma_trav_list_push(m, g, t, i - 1, fuel);
        assert(cs.take(i + 1).drop_first() =~= t.take(i));
        assert(cs.take(i).drop_first() =~= t.take(i - 1));
        assert(cs.take(i + 1)[0] == cs[0]);
        assert(cs.take(i)[0] == cs[0]);
        assert(t[i - 1] == cs[i]);
        assert(trav_list(m, g, cs.take(i + 1), fuel) == trav(m, g, cs[0], fuel) + trav_list(m, g, t.take(i), fuel));
        assert(trav_list(m, g, cs.take(i), fuel) == trav(m, g, cs[0], fuel) + trav_list(m, g, t.take(i - 1), fuel));
        assert(trav(m, g, cs[0], fuel) + (trav_list(m, g, t.take(i - 1), fuel) + trav(m, g, cs[i], fuel)) =~= (trav(m, g, cs[0], fuel)
            + trav_list(m, g, t.take(i - 1), fuel)) + trav(m, g, cs[i], fuel));
    }
}

/// Node `n` holding `v` in place of its data.
pub(crate) open spec fn with_data<T>(n: Node<T>, v: T) -> Node<T> {
    Node {
        parent: n.parent,
        previous_sibling: n.previous_sibling,
        next_sibling: n.next_sibling,
        first_child: n.first_child,
        last_child: n.last_child,
        id: n.id,
        data: v,
    }
}

/// Replacing the data of a node keeps the arena well formed and every link.
proof fn lemma_data_update<T>(
    m: Map<usize, Node<T>>,
    g: Map<usize, Seq<NodeId>>,
    d: Map<usize, nat>,
    cap: nat,
    bound: usize,
    i: usize,
)
    requires
        all_ok(m, g, d, cap, bound),
        m.contains_key(i),
    ensures
        forall|v: T| #[trigger] all_ok(m.insert(i, with_data(m[i], v)), g, d, cap, bound),
        forall|v: T| #[trigger] m.insert(i, with_data(m[i], v)).dom() == m.dom(),
        forall|v: T, y: usize| #[trigger] kids(m.insert(i, with_data(m[i], v)), g, y) == kids(m, g, y),
        forall|v: T, a: NodeId, x: NodeId|
            #[trigger] ancestor_of(m.insert(i, with_data(m[i], v)), a, x) == ancestor_of(m, a, x),
{
    assert forall|v: T| #[trigger] all_ok(m.insert(i, with_data(m[i], v)), g, d, cap, bound) by {
        let m2 = m.insert(i, with_data(m[i], v));
        assert forall|j: usize| m2.contains_key(j) implies #[trigger] node_ok(m2, g, d, cap, bound, j) by {
            assert(node_ok(m, g, d, cap, bound, j));
        }
    }
    assert forall|v: T| #[trigger] m.insert(i, with_data(m[i], v)).dom() == m.dom() by {
        assert(m.insert(i, with_data(m[i], v)).dom() =~= m.dom());
    }
    assert forall|v: T, a: NodeId, x: NodeId|
        #[trigger] ancestor_of(m.insert(i, with_data(m[i], v)), a, x) == ancestor_of(m, a, x) by {
        let m2 = m.insert(i, with_data(m[i], v));
        lemma_anc_same_links(m, m2, x);
        if ancestor_of(m, a, x) {
            let k = choose|k: nat| anc_at(m, x, k) == a;
            assert(anc_at(m2, x, k) == a);
        }
    }
}

/// `s` with the occurrence of `x` taken out.
pub open spec fn without(s: Seq<NodeId>, x: NodeId) -> Seq<NodeId> {
    s.remove(pos_in(s, x))
}

/// An arena of nodes linked into trees: each node has a parent (or none),
/// an ordered group of siblings and an ordered list of children.
pub struct Arena<T> {
    nodes: DenseVec<Node<T>>,
    next_id: usize,
    groups: Ghost<Map<usize, Seq<NodeId>>>,
    depth: Ghost<Map<usize, nat>>,
    cap: Ghost<nat>,
}

impl<T> Arena<T> {
    /// The nodes, by index.
    pub closed spec fn view(&self) -> Map<usize, Node<T>> {
        self.nodes@
    }

    /// Whether `id` names a node of the arena.
    pub open spec fn contains(&self, id: NodeId) -> bool {
        self@.dom().contains(id.spec_index())
    }

    pub closed spec fn node(&self, id: NodeId) -> Node<T> {
        self.nodes@[id.index]
    }

    pub closed spec fn parent(&self, id: NodeId) -> Option<NodeId> {
        self.nodes@[id.index].parent
    }

    /// The ordered group of siblings that `id` belongs to (itself included).
    pub closed spec fn siblings(&self, id: NodeId) -> Seq<NodeId> {
        self.groups@[id.index]
    }

    /// The ordered children of `id`.
    pub closed spec fn children(&self, id: NodeId) -> Seq<NodeId> {
        kids(self.nodes@, self.groups@, id.index)
    }

    /// The children of `y` once `c` is taken out of its parent.
    pub open spec fn children_without(&self, y: NodeId, c: NodeId) -> Seq<NodeId> {
        if self.parent(c) == Some(y) {
            without(self.children(y), c)
        } else {
            self.children(y)
        }
    }

    /// The sibling group of `x` once `c` is taken out of its group.
    pub open spec fn siblings_without(&self, x: NodeId, c: NodeId) -> Seq<NodeId> {
        if x == c {
            seq![c]
        } else if self.siblings(c).contains(x) {
            without(self.siblings(c), c)
        } else {
            self.siblings(x)
        }
    }

    pub closed spec fn data(&self, id: NodeId) -> T {
        self.nodes@[id.index].data
    }

    pub closed spec fn spec_next_id(&self) -> usize {
        self.next_id
    }

    /// The nodes in the order in which they are stored.
    pub closed spec fn stored_ids(&self) -> Seq<usize> {
        self.nodes.dense_keys()
    }

    /// Whether `a` is `x` or one of its ancestors.
    pub closed spec fn is_ancestor(&self, a: NodeId, x: NodeId) -> bool {
        ancestor_of(self.nodes@, a, x)
    }

    pub closed spec fn wf(&self) -> bool {
        &&& self.nodes.wf()
        &&& self.nodes.dense_values().len() <= self.next_id
        &&& self.groups@.dom() == self.nodes@.dom()
        &&& self.depth@.dom() == self.nodes@.dom()
        &&& all_ok(self.nodes@, self.groups@, self.depth@, self.cap@, self.next_id)
    }

    pub fn new() -> (r: Arena<T>)
        ensures
            r.wf(),
            r@ == Map::<usize, Node<T>>::empty(),
            r.spec_next_id() == 0,
    {
        Arena {
            nodes: DenseVec::new(),
            next_id: 0,
            groups: Ghost(Map::empty()),
            depth: Ghost(Map::empty()),
            cap: Ghost(0),
        }
    }

    pub fn with_capacity(capacity: usize) -> (r: Arena<T>)
        ensures
            r.wf(),
            r@ == Map::<usize, Node<T>>::empty(),
            r.spec_next_id() == 0,
    {
        Arena {
            nodes: DenseVec::with_capacity(capacity),
            next_id: 0,
            groups: Ghost(Map::empty()),
            depth: Ghost(Map::empty()),
            cap: Ghost(0),
        }
    }

    pub fn len(&self) -> (r: usize)
        requires
            self.wf(),
        ensures
            r == self@.dom().len(),
    {
        self.nodes.len()
    }

    /// The nodes in the order in which they are stored, taking the arena
    /// apart.
    pub fn into_vec(self) -> (r: Vec<Node<T>>)
        ensures
            r@ == self.stored_nodes(),
    {
        self.nodes.into_values()
    }

    /// The identifier index that the next new node receives.
    pub fn next_id(&self) -> (r: usize)
        ensures
            r == self.spec_next_id(),
    {
        self.next_id
    }

    /// Creates a new root node without siblings or children.
    pub fn new_node(&mut self, data: T) -> (r: NodeId)
        requires
            old(self).wf(),
            old(self).spec_next_id() + 1 < usize::MAX,
        ensures
            final(self).wf(),
            r.spec_index() == old(self).spec_next_id(),
            !old(self).contains(r),
            final(self).spec_next_id() == old(self).spec_next_id() + 1,
            final(self)@ == old(self)@.insert(r.spec_index(), final(self).node(r)),
            final(self).data(r) == data,
            final(self).parent(r) is None,
            final(self).children(r) == Seq::<NodeId>::empty(),
            final(self).siblings(r) == seq![r],
            forall|x: NodeId|
                #![trigger final(self).parent(x)]
                old(self).contains(x) ==> final(self).parent(x) == old(self).parent(x),
            forall|x: NodeId|
                #![trigger final(self).data(x)]
                old(self).contains(x) ==> final(self).data(x) == old(self).data(x),
            forall|x: NodeId|
                #![trigger final(self).siblings(x)]
                old(self).contains(x) ==> final(self).siblings(x) == old(self).siblings(x),
            forall|x: NodeId|
                #![trigger final(self).children(x)]
                old(self).contains(x) ==> final(self).children(x) == old(self).children(x),
            final(self).stored_ids() == old(self).stored_ids().push(r.spec_index()),
            forall|x: NodeId| old(self).contains(x) ==> #[trigger] final(self).node(x) == old(self).node(x),
    {
        let id = self.next_id;
        let node_id = NodeId { index: id };
        proof {
            if self.nodes@.contains_key(id) {
                assert(node_ok(self.nodes@, self.groups@, self.depth@, self.cap@, self.next_id, id));
            }
        }
        self.next_id = self.next_id + 1;
        self.nodes.insert(
            id,
            Node {
                parent: None,
                first_child: None,
                last_child: None,
                previous_sibling: None,
                next_sibling: None,
                data: data,
                id: node_id,
            },
        );
        let ghost og = old(self).groups@;
        let ghost od = old(self).depth@;
        proof {
            self.groups@ = og.insert(id, seq![node_id]);
            self.depth@ = od.insert(id, 0);
            let m = self.nodes@;
            let g = self.groups@;
            let d = self.depth@;
            assert(seq![node_id][0] == node_id);
            assert forall|i: usize| #[trigger] m.contains_key(i) implies node_ok(
                m,
                g,
                d,
                self.cap@,
                self.next_id,
                i,
            ) by {
                if i != id {
                    assert(node_ok(old(self).nodes@, og, od, self.cap@, old(self).next_id, i));
                    let s = og[i];
                    assert forall|j: int| 0 <= j < s.len() implies #[trigger] s[j].index != id by {
                        assert(old(self).nodes@.contains_key(s[j].index));
                    }
                    let n = m[i];
                    match n.first_child {
                        Some(f) => assert(old(self).nodes@.contains_key(f.index)),
                        None => {},
                    }
                    match n.last_child {
                        Some(l) => assert(old(self).nodes@.contains_key(l.index)),
                        None => {},
                    }
                    match n.parent {
                        Some(p) => assert(old(self).nodes@.contains_key(p.index)),
                        None => {},
                    }
                }
            }
            assert forall|x: NodeId| #[trigger] old(self).contains(x) implies self.children(x) == old(
                self,
            ).children(x) by {
                assert(node_ok(old(self).nodes@, og, od, self.cap@, old(self).next_id, x.index));
            }
        }
        node_id
    }

    /// Takes a node out of its parent and sibling group. Its children stay.
    pub(crate) fn detach(&mut self, id: NodeId)
        requires
            old(self).wf(),
            old(self).contains(id),
        ensures
            final(self).wf(),
            final(self)@.dom() == old(self)@.dom(),
            final(self).spec_next_id() == old(self).spec_next_id(),
            final(self).stored_ids() == old(self).stored_ids(),
            forall|x: NodeId| old(self).contains(x) ==> #[trigger] final(self).data(x) == old(self).data(x),
            final(self).parent(id) is None,
            final(self).siblings(id) == seq![id],
            forall|x: NodeId|
                #![trigger final(self).parent(x)]
                old(self).contains(x) && x != id ==> final(self).parent(x) == old(self).parent(x),
            forall|x: NodeId|
                #![trigger final(self).siblings(x)]
                old(self).contains(x) ==> final(self).siblings(x) == old(self).siblings_without(x, id),
            forall|x: NodeId|
                #![trigger final(self).children(x)]
                old(self).contains(x) ==> final(self).children(x) == old(self).children_without(x, id),
            forall|a: NodeId, x: NodeId|
                #![trigger final(self).is_ancestor(a, x)]
                final(self).is_ancestor(a, x) && old(self).contains(x) ==> old(self).is_ancestor(a, x),
    {
        let ghost m = self.nodes@;
        let ghost g = self.groups@;
        let ghost d = self.depth@;
        proof {
            assert(node_ok(m, g, d, self.cap@, self.next_id, id.index));
            assert(nid(id.index) == id);
            lemma_no_self_parent(m, g, d, self.cap@, self.next_id, id.index);
        }
        let parent;
        let prev;
        let next;
        {
            let node = self.nodes.get_unchecked_mut(id.index);
            parent = node.parent;
            prev = node.previous_sibling;
            next = node.next_sibling;
            node.parent = None;
            node.previous_sibling = None;
            node.next_sibling = None;
        }
        proof {
            let s = g[id.index];
            let k = pos_in(s, id);
            assert(s.contains(id));
            if let Some(n) = next {
                assert(s[k + 1] == n);
                assert(s.contains(s[k + 1]));
            }
            if let Some(v) = prev {
                assert(s[k - 1] == v);
                assert(s.contains(s[k - 1]));
            }
        }
        match next {
            Some(n) => {
                self.nodes.get_unchecked_mut(n.index).previous_sibling = prev;
            },
            None => match parent {
                Some(p) => {
                    self.nodes.get_unchecked_mut(p.index).last_child = prev;
                },
                None => {},
            },
        }
        match prev {
            Some(v) => {
                self.nodes.get_unchecked_mut(v.index).next_sibling = next;
            },
            None => match parent {
                Some(p) => {
                    self.nodes.get_unchecked_mut(p.index).first_child = next;
                },
                None => {},
            },
        }
        proof {
            let cap = self.cap@;
            let bound = self.next_id;
            assert(self.nodes@ =~= detach_links(m, id));
            assert(self.nodes.wf());
            assert(self.nodes.dense_values().len() == old(self).nodes.dense_values().len());
            self.groups@ = detach_groups(g, id);
            self.depth@ = detach_depth(m, d, id);
            assert(self.groups@.dom() =~= self.nodes@.dom());
            assert(self.depth@.dom() =~= self.nodes@.dom());
            assert forall|i: usize| #[trigger] self.nodes@.contains_key(i) implies node_ok(
                self.nodes@,
                self.groups@,
                self.depth@,
                cap,
                bound,
                i,
            ) by {
                lemma_detach_node(m, g, d, cap, bound, id, i);
            }
            assert forall|x: NodeId| #[trigger] old(self).contains(x) implies self.children(x) == old(
                self,
            ).children_without(x, id) by {
                assert(nid(x.index) == x);
                lemma_detach_views(m, g, d, cap, bound, id, x.index);
            }
            assert forall|x: NodeId|
                #![trigger self.siblings(x)]
                old(self).contains(x) implies self.siblings(x) == old(self).siblings_without(x, id) by {
                assert(nid(x.index) == x);
            }
            assert forall|a: NodeId, x: NodeId|
                #![trigger self.is_ancestor(a, x)]
                self.is_ancestor(a, x) && old(self).contains(x) implies old(self).is_ancestor(a, x) by {
                let k = choose|k: nat| anc_at(self.nodes@, x, k) == a;
                lemma_anc_detach(m, g, d, cap, bound, id, x, k);
            }
        }
    }

    /// Puts the lone root `n` at position `t` of the sibling group `grp`,
    /// between `prev` and `next`, under `parent`.
    fn link(
        &mut self,
        n: NodeId,
        parent: Option<NodeId>,
        prev: Option<NodeId>,
        next: Option<NodeId>,
        Ghost(grp): Ghost<Seq<NodeId>>,
        Ghost(t): Ghost<int>,
    )
        requires
            old(self).wf(),
            link_ready(
                old(self).nodes@,
                old(self).groups@,
                old(self).depth@,
                old(self).cap@,
                old(self).next_id,
                n,
                parent,
                grp,
                t,
            ),
            prev == link_prev(grp, t),
            next == link_next(grp, t),
        ensures
            final(self).wf(),
            final(self).nodes@ == link_links(old(self).nodes@, n, parent, grp, t),
            final(self).groups@ == link_groups(old(self).groups@, n, grp, t),
            final(self).next_id == old(self).next_id,
            final(self).stored_ids() == old(self).stored_ids(),
    {
        let ghost m = self.nodes@;
        let ghost g = self.groups@;
        let ghost d = self.depth@;
        let ghost cap = self.cap@;
        proof {
            lemma_link_basics(m, g, d, cap, self.next_id, n, parent, grp, t);
            if t > 0 {
                assert(grp.contains(grp[t - 1]));
            }
            if t < grp.len() {
                assert(grp.contains(grp[t]));
            }
        }
        {
            let node = self.nodes.get_unchecked_mut(n.index);
            node.parent = parent;
            node.previous_sibling = prev;
            node.next_sibling = next;
        }
        match prev {
            Some(v) => {
                self.nodes.get_unchecked_mut(v.index).next_sibling = Some(n);
            },
            None => {
                if let Some(p) = parent {
                    self.nodes.get_unchecked_mut(p.index).first_child = Some(n);
                }
            },
        }
        match next {
            Some(w) => {
                self.nodes.get_unchecked_mut(w.index).previous_sibling = Some(n);
            },
            None => {
                if let Some(p) = parent {
                    self.nodes.get_unchecked_mut(p.index).last_child = Some(n);
                }
            },
        }
        proof {
            let bound = self.next_id;
            assert(self.nodes@ =~= link_links(m, n, parent, grp, t));
            assert(self.nodes.dense_values().len() == old(self).nodes.dense_values().len());
            self.groups@ = link_groups(g, n, grp, t);
            self.depth@ = link_depth(m, d, n, parent);
            self.cap@ = cap + cap + 1;
            assert(self.groups@.dom() =~= self.nodes@.dom());
            assert(self.depth@.dom() =~= self.nodes@.dom());
            assert forall|i: usize| #[trigger] self.nodes@.contains_key(i) implies node_ok(
                self.nodes@,
                self.groups@,
                self.depth@,
                self.cap@,
                bound,
                i,
            ) by {
                lemma_link_node(m, g, d, cap, bound, n, parent, grp, t, i);
            }
        }
    }

    /// Facts about a node whose parent or sibling links the tree code follows.
    proof fn lemma_node(&self, i: usize)
        requires
            self.wf(),
            self.nodes@.contains_key(i),
        ensures
            node_ok(self.nodes@, self.groups@, self.depth@, self.cap@, self.next_id, i),
    {
    }

    /// The ends of the children list of `p` are its first and last child.
    proof fn lemma_children_ends(&self, p: NodeId)
        requires
            self.wf(),
            self.contains(p),
        ensures
            self.children(p).len() == 0 ==> self.nodes@[p.index].first_child is None
                && self.nodes@[p.index].last_child is None,
            self.children(p).len() > 0 ==> {
                let c = self.children(p);
                &&& self.nodes@[p.index].first_child == Some(c[0])
                &&& self.nodes@[p.index].last_child == Some(c.last())
                &&& self.nodes@.contains_key(c[0].index)
                &&& self.groups@[c[0].index] == c
                &&& self.nodes@[c[0].index].parent == Some(p)
            },
            forall|x: NodeId|
                #![trigger self.children(p).contains(x)]
                self.children(p).contains(x) ==> self.contains(x) && self.parent(x) == Some(p),
    {
        assert(node_ok(self.nodes@, self.groups@, self.depth@, self.cap@, self.next_id, p.index));
        match self.nodes@[p.index].first_child {
            Some(f) => {
                assert(node_ok(self.nodes@, self.groups@, self.depth@, self.cap@, self.next_id, f.index));
                let c = self.groups@[f.index];
                assert(c.contains(nid(f.index)));
                assert forall|x: NodeId| #[trigger] c.contains(x) implies self.contains(x) && self.parent(x)
                    == Some(p) by {
                    let j = choose|j: int| 0 <= j < c.len() && c[j] == x;
                    assert(self.nodes@.contains_key(c[j].index));
                }
                assert(c.len() > 0);
            },
            None => {},
        }
    }

    /// Whether following parent links from `x` reaches `a`, and in which
    /// sense the depth-based check agrees.
    proof fn lemma_in_subtree_ancestor(&self, a: NodeId, x: NodeId)
        requires
            self.wf(),
        ensures
            in_subtree(self.nodes@, self.depth@, a, x) ==> self.is_ancestor(a, x),
    {
        if in_subtree(self.nodes@, self.depth@, a, x) {
            let k = (self.depth@[x.index] - self.depth@[a.index]) as nat;
            assert(anc_at(self.nodes@, x, k) == a);
        }
    }

    /// Prepares linking `n` under `parent` (or among the roots) into the
    /// group `grp`: after `n` was detached, the link is well-founded.
    proof fn lemma_ready(
        &self,
        n: NodeId,
        parent: Option<NodeId>,
        grp: Seq<NodeId>,
        t: int,
    )
        requires
            self.wf(),
            self.contains(n),
            self.parent(n) is None,
            self.siblings(n) == seq![n],
            0 <= t <= grp.len(),
            match parent {
                Some(p) => self.contains(p) && !self.is_ancestor(n, p) && grp == self.children(p),
                None => grp.len() > 0 && grp == self.siblings(grp[0]) && self.contains(grp[0])
                    && self.parent(grp[0]) is None && grp[0] != n,
            },
        ensures
            link_ready(self.nodes@, self.groups@, self.depth@, self.cap@, self.next_id, n, parent, grp, t),
    {
        let m = self.nodes@;
        let g = self.groups@;
        match parent {
            Some(p) => {
                self.lemma_children_ends(p);
                self.lemma_in_subtree_ancestor(n, p);
                if grp.contains(n) {
                    assert(self.parent(n) == Some(p));
                }
            },
            None => {
                self.lemma_node(grp[0].index);
                assert(nid(grp[0].index) == grp[0]);
                if grp.contains(n) {
                    let j = choose|j: int| 0 <= j < grp.len() && grp[j] == n;
                    assert(g[grp[j].index] == grp);
                    assert(grp == seq![n]);
                }
            },
        }
    }

    /// A node without children is nobody's ancestor but its own.
    pub proof fn lemma_childless_not_ancestor(&self, a: NodeId, x: NodeId)
        requires
            self.wf(),
            self.contains(x),
            self.contains(a),
            self.children(a).len() == 0,
            x != a,
        ensures
            !self.is_ancestor(a, x),
    {
        if self.is_ancestor(a, x) {
            let k = choose|k: nat| anc_at(self.nodes@, x, k) == a;
            self.lemma_childless_walk(a, x, k);
        }
    }

    proof fn lemma_childless_walk(&self, a: NodeId, x: NodeId, k: nat)
        requires
            self.wf(),
            self.contains(x),
            self.contains(a),
            self.children(a).len() == 0,
            x != a,
        ensures
            anc_at(self.nodes@, x, k) != a,
        decreases k,
    {
        self.lemma_children_ends(a);
        self.lemma_node(x.index);
        if k > 0 {
            match self.nodes@[x.index].parent {
                Some(p) => {
                    if p == a {
                        assert(self.nodes@[a.index].first_child is Some);
                    } else {
                        self.lemma_childless_walk(a, p, (k - 1) as nat);
                    }
                },
                None => {},
            }
        }
    }

    /// The siblings of a node with a parent are that parent's children.
    proof fn lemma_siblings_are_children(&self, s: NodeId)
        requires
            self.wf(),
            self.contains(s),
            self.parent(s) is Some,
        ensures
            self.siblings(s) == self.children(self.parent(s)->0),
            self.siblings(s).contains(s),
            self.contains(self.parent(s)->0),
    {
        self.lemma_node(s.index);
        assert(nid(s.index) == s);
        let q = self.parent(s)->0;
        let f = self.groups@[s.index][0];
        assert(self.groups@[s.index].contains(self.groups@[s.index][0]));
        assert(self.groups@[f.index] == self.groups@[s.index]);
    }

    /// Links the lone root `n` into `grp` at position `t` and tells what
    /// every parent, children list and sibling group reads afterwards.
    fn relink(
        &mut self,
        n: NodeId,
        parent: Option<NodeId>,
        prev: Option<NodeId>,
        next: Option<NodeId>,
        Ghost(grp): Ghost<Seq<NodeId>>,
        Ghost(t): Ghost<int>,
    )
        requires
            old(self).wf(),
            link_ready(
                old(self).nodes@,
                old(self).groups@,
                old(self).depth@,
                old(self).cap@,
                old(self).next_id,
                n,
                parent,
                grp,
                t,
            ),
            prev == link_prev(grp, t),
            next == link_next(grp, t),
        ensures
            final(self).wf(),
            final(self)@.dom() == old(self)@.dom(),
            final(self).spec_next_id() == old(self).spec_next_id(),
            final(self).stored_ids() == old(self).stored_ids(),
            forall|x: NodeId| old(self).contains(x) ==> #[trigger] final(self).data(x) == old(self).data(x),
            final(self).parent(n) == parent,
            forall|x: NodeId|
                #![trigger final(self).parent(x)]
                old(self).contains(x) && x != n ==> final(self).parent(x) == old(self).parent(x),
            forall|y: NodeId|
                #![trigger final(self).children(y)]
                old(self).contains(y) ==> final(self).children(y) == if parent == Some(y) {
                    grp.insert(t, n)
                } else {
                    old(self).children(y)
                },
            forall|x: NodeId|
                #![trigger final(self).siblings(x)]
                old(self).contains(x) ==> final(self).siblings(x) == if x == n || grp.contains(x) {
                    grp.insert(t, n)
                } else {
                    old(self).siblings(x)
                },
    {
        let ghost m = self.nodes@;
        let ghost g = self.groups@;
        let ghost d = self.depth@;
        let ghost cap = self.cap@;
        let ghost bound = self.next_id;
        self.link(n, parent, prev, next, Ghost(grp), Ghost(t));
        proof {
            assert forall|y: NodeId| #[trigger] old(self).contains(y) implies self.children(y) == if parent
                == Some(y) {
                grp.insert(t, n)
            } else {
                old(self).children(y)
            } by {
                lemma_link_children(m, g, d, cap, bound, n, parent, grp, t, y.index);
                assert(nid(y.index) == y);
            }
            assert forall|x: NodeId| #[trigger] old(self).contains(x) implies self.siblings(x) == if x == n
                || grp.contains(x) {
                grp.insert(t, n)
            } else {
                old(self).siblings(x)
            } by {
                assert(nid(x.index) == x);
            }
            assert(self@.dom() =~= old(self)@.dom());
        }
    }

    /// An ancestor of the parent of `x` is an ancestor of `x`.
    proof fn lemma_parent_ancestor(&self, a: NodeId, x: NodeId)
        requires
            self.wf(),
            self.contains(x),
            self.parent(x) is Some,
            self.is_ancestor(a, self.parent(x)->0),
        ensures
            self.is_ancestor(a, x),
    {
        let q = self.parent(x)->0;
        let k = choose|k: nat| anc_at(self.nodes@, q, k) == a;
        assert(anc_at(self.nodes@, x, k + 1) == a);
    }

    /// Where `s` sits in its group, and its sibling links.
    proof fn lemma_sibling_links(&self, s: NodeId)
        requires
            self.wf(),
            self.contains(s),
        ensures
            ({
                let grp = self.siblings(s);
                let k = pos_in(grp, s);
                &&& 0 <= k < grp.len()
                &&& grp[k] == s
                &&& self.nodes@[s.index].previous_sibling == link_prev(grp, k)
                &&& self.nodes@[s.index].next_sibling == link_next(grp, k + 1)
                &&& self.contains(grp[0])
                &&& grp == self.siblings(grp[0])
                &&& self.parent(grp[0]) == self.parent(s)
                &&& forall|x: NodeId| #[trigger] grp.contains(x) ==> self.contains(x) && self.parent(x) == self.parent(s)
                    && self.siblings(x) == grp
            }),
    {
        self.lemma_node(s.index);
        assert(nid(s.index) == s);
        let grp = self.siblings(s);
        assert(grp.contains(s));
        let k = pos_in(grp, s);
        assert(grp[k] == s);
        assert(grp.contains(grp[0]));
        assert forall|x: NodeId| #[trigger] grp.contains(x) implies self.contains(x) && self.parent(x)
            == self.parent(s) && self.siblings(x) == grp by {
            let j = choose|j: int| 0 <= j < grp.len() && grp[j] == x;
            assert(self.nodes@.contains_key(grp[j].index));
        }
    }

    /// Prepares linking the lone root `n` next to `s` in the group of `s`.
    proof fn lemma_ready_beside(&self, old_arena: Arena<T>, n: NodeId, s: NodeId, t: int)
        requires
            self.wf(),
            old_arena.wf(),
            self.contains(n),
            self.contains(s),
            s != n,
            self.parent(n) is None,
            self.siblings(n) == seq![n],
            !old_arena.is_ancestor(n, s),
            old_arena.contains(s),
            self.parent(s) == old_arena.parent(s),
            forall|a: NodeId, x: NodeId|
                #![trigger self.is_ancestor(a, x)]
                self.is_ancestor(a, x) && old_arena.contains(x) ==> old_arena.is_ancestor(a, x),
            0 <= t <= self.siblings(s).len(),
        ensures
            link_ready(
                self.nodes@,
                self.groups@,
                self.depth@,
                self.cap@,
                self.next_id,
                n,
                self.parent(s),
                self.siblings(s),
                t,
            ),
    {
        let grp = self.siblings(s);
        self.lemma_sibling_links(s);
        match self.parent(s) {
            Some(q) => {
                self.lemma_siblings_are_children(s);
                old_arena.lemma_siblings_are_children(s);
                if old_arena.is_ancestor(n, q) {
                    old_arena.lemma_parent_ancestor(n, s);
                }
                assert(!self.is_ancestor(n, q));
                self.lemma_ready(n, Some(q), grp, t);
            },
            None => {
                if grp[0] == n {
                    assert(grp == seq![n]);
                    assert(grp.contains(s));
                }
                self.lemma_ready(n, None, grp, t);
            },
        }
    }

    /// The node with identifier `id`.
    pub fn get(&self, id: NodeId) -> (r: &Node<T>)
        requires
            self.wf(),
            self.contains(id),
        ensures
            *r == self.node(id),
            r.spec_id() == id,
            r.spec_parent() == self.parent(id),
    {
        proof {
            self.lemma_node(id.index);
        }
        self.nodes.get_unchecked(id.index)
    }

    /// The data of node `id`.
    pub fn data_of(&self, id: NodeId) -> (r: &T)
        requires
            self.wf(),
            self.contains(id),
        ensures
            *r == self.data(id),
    {
        &self.nodes.get_unchecked(id.index).data
    }

    /// The data of node `id`, for writing. The links of the node cannot be
    /// reached this way.
    pub fn data_mut(&mut self, id: NodeId) -> (r: &mut T)
        requires
            old(self).wf(),
            old(self).contains(id),
        ensures
            *r == old(self).data(id),
            final(self).wf(),
            final(self).data(id) == *final(r),
            final(self)@.dom() == old(self)@.dom(),
            forall|x: NodeId| #[trigger] final(self).contains(x) == old(self).contains(x),
            final(self).spec_next_id() == old(self).spec_next_id(),
            final(self).stored_ids() == old(self).stored_ids(),
            forall|x: NodeId| old(self).contains(x) && x != id ==> #[trigger] final(self).data(x) == old(self).data(x),
            forall|x: NodeId| #[trigger] final(self).parent(x) == old(self).parent(x),
            forall|x: NodeId| #[trigger] final(self).children(x) == old(self).children(x),
            forall|x: NodeId| #[trigger] final(self).siblings(x) == old(self).siblings(x),
            forall|a: NodeId, x: NodeId| #[trigger] final(self).is_ancestor(a, x) == old(self).is_ancestor(a, x),
    {
        proof {
            lemma_data_update(self.nodes@, self.groups@, self.depth@, self.cap@, self.next_id, id.index);
        }
        self.data_slot(id)
    }

    fn data_slot(&mut self, id: NodeId) -> (r: &mut T)
        requires
            old(self).wf(),
            old(self).contains(id),
        ensures
            *r == old(self).data(id),
            final(self).nodes@ == old(self).nodes@.insert(
                id.index,
                with_data(old(self).nodes@[id.index], *final(r)),
            ),
            final(self).nodes.wf(),
            final(self).nodes.dense_keys() == old(self).nodes.dense_keys(),
            final(self).nodes.dense_values().len() == old(self).nodes.dense_values().len(),
            final(self).groups == old(self).groups,
            final(self).depth == old(self).depth,
            final(self).cap == old(self).cap,
            final(self).next_id == old(self).next_id,
    {
        let node = self.nodes.get_unchecked_mut(id.index);
        &mut node.data
    }

    /// The children of `id`, first to last.
    pub(crate) fn children_of(&self, id: NodeId) -> (r: Vec<NodeId>)
        requires
            self.wf(),
            self.contains(id),
        ensures
            r@ == self.children(id),
    {
        proof {
            self.lemma_children_ends(id);
        }
        let ghost cs = self.children(id);
        let mut out: Vec<NodeId> = Vec::new();
        let mut cur = self.nodes.get_unchecked(id.index).first_child;
        while cur.is_some()
            invariant
                self.wf(),
                cs == self.children(id),
                cs.len() > 0 ==> self.groups@[cs[0].index] == cs,
                cs.len() > 0 ==> self.nodes@.contains_key(cs[0].index),
                out@.len() <= cs.len(),
                out@ == cs.subrange(0, out@.len() as int),
                cur == link_next(cs, out@.len() as int),
                forall|x: NodeId| #[trigger] cs.contains(x) ==> self.contains(x),
            decreases cs.len() - out@.len(),
        {
            let c = cur.unwrap();
            proof {
                let j = out@.len() as int;
                self.lemma_node(cs[0].index);
                assert(cs.contains(cs[j]));
                self.lemma_node(c.index);
                assert(self.groups@[cs[j].index] == cs);
                assert(nid(c.index) == c);
                assert(cs.no_duplicates());
            }
            out.push(c);
            cur = self.nodes.get_unchecked(c.index).next_sibling;
            proof {
                assert(out@ =~= cs.subrange(0, out@.len() as int));
            }
        }
        assert(out@ =~= cs);
        out
    }

    /// The children of `p` are nodes of the arena whose parent is `p`.
    pub proof fn lemma_children_parent(&self, p: NodeId)
        requires
            self.wf(),
            self.contains(p),
        ensures
            forall|x: NodeId| #[trigger] self.children(p).contains(x) ==> self.contains(x) && self.parent(x) == Some(p),
    {
        self.lemma_children_ends(p);
    }

    /// A children list holds no node twice.
    proof fn lemma_children_nodup(&self, p: NodeId)
        requires
            self.wf(),
            self.contains(p),
        ensures
            self.children(p).no_duplicates(),
    {
        self.lemma_children_ends(p);
        if self.children(p).len() > 0 {
            self.lemma_node(self.children(p)[0].index);
        }
    }

    /// The links stored in a node of a well-formed arena agree with the
    /// hierarchy: the node knows its own identifier and its parent, its first
    /// and last child links are the ends of its children (both absent when it
    /// has none), its sibling group lists it exactly once and is its parent's
    /// children when it has a parent, and its previous and next sibling links
    /// are its neighbours in that group (absent at the ends).
    pub proof fn lemma_node_links(&self, x: NodeId)
        requires
            self.wf(),
            self.contains(x),
        ensures
            self.node(x).spec_id() == x,
            self.node(x).spec_parent() == self.parent(x),
            self.children(x).len() == 0 ==> self.node(x).spec_first_child() is None
                && self.node(x).spec_last_child() is None,
            self.children(x).len() > 0 ==> self.node(x).spec_first_child() == Some(self.children(x)[0])
                && self.node(x).spec_last_child() == Some(self.children(x).last()),
            self.siblings(x).contains(x),
            self.siblings(x).no_duplicates(),
            self.parent(x) is Some ==> self.siblings(x) == self.children(self.parent(x)->0),
            forall|y: NodeId|
                #[trigger] self.siblings(x).contains(y) ==> self.contains(y) && self.parent(y) == self.parent(x)
                    && self.siblings(y) == self.siblings(x),
            forall|k: int|
                #![trigger self.siblings(x)[k]]
                0 <= k < self.siblings(x).len() && self.siblings(x)[k] == x ==> {
                    &&& self.node(x).spec_previous_sibling() == (if k == 0 {
                        None
                    } else {
                        Some(self.siblings(x)[k - 1])
                    })
                    &&& self.node(x).spec_next_sibling() == (if k + 1 < self.siblings(x).len() {
                        Some(self.siblings(x)[k + 1])
                    } else {
                        None
                    })
                },
    {
        self.lemma_node(x.index);
        self.lemma_children_ends(x);
        self.lemma_siblings_nodup(x);
        self.lemma_sibling_links(x);
        if self.parent(x) is Some {
            self.lemma_siblings_are_children(x);
        }
        let grp = self.siblings(x);
        let p = pos_in(grp, x);
        assert forall|k: int| 0 <= k < grp.len() && grp[k] == x implies k == p by {
            if k != p {
                assert(grp[k] != grp[p]);
            }
        }
    }

    /// The sibling links of a well-formed arena agree with each other and
    /// with the parent: the next sibling of `x` has `x` as its previous
    /// sibling and the same parent, and the other way round; a node with a
    /// parent has no next sibling exactly when it is its parent's last
    /// child, and no previous sibling exactly when it is the first.
    pub proof fn lemma_sibling_law(&self, x: NodeId)
        requires
            self.wf(),
            self.contains(x),
        ensures
            self.node(x).spec_next_sibling() matches Some(s) ==> self.contains(s)
                && self.node(s).spec_previous_sibling() == Some(x) && self.parent(s) == self.parent(x),
            self.node(x).spec_previous_sibling() matches Some(s) ==> self.contains(s)
                && self.node(s).spec_next_sibling() == Some(x) && self.parent(s) == self.parent(x),
            self.parent(x) matches Some(p) ==> {
                &&& self.contains(p)
                &&& (self.node(x).spec_next_sibling() is None <==> self.node(p).spec_last_child() == Some(x))
                &&& (self.node(x).spec_previous_sibling() is None <==> self.node(p).spec_first_child() == Some(x))
            },
    {
        self.lemma_node_links(x);
        let grp = self.siblings(x);
        let k = pos_in(grp, x);
        assert(grp.contains(x));
        assert(0 <= k < grp.len() && grp[k] == x);
        if k + 1 < grp.len() {
            let s = grp[k + 1];
            assert(grp.contains(s));
            self.lemma_node_links(s);
            assert(self.siblings(s) == grp);
        }
        if k > 0 {
            let s = grp[k - 1];
            assert(grp.contains(s));
            self.lemma_node_links(s);
            assert(self.siblings(s) == grp);
        }
        if let Some(p) = self.parent(x) {
            self.lemma_siblings_are_children(x);
            self.lemma_node_links(p);
            assert(self.children(p).len() > 0);
            if self.node(p).spec_last_child() == Some(x) {
                assert(grp.last() == x);
                assert(grp[grp.len() - 1] == grp[k]);
            }
            if self.node(p).spec_first_child() == Some(x) {
                assert(grp[0] == grp[k]);
            }
        }
    }

    /// The subtree of `x` depends on nothing but the children of its nodes:
    /// another well-formed arena that holds those nodes with the same
    /// children has the same subtree of `x`.
    pub proof fn lemma_descendants_frame(&self, other: &Arena<T>, x: NodeId)
        requires
            self.wf(),
            other.wf(),
            self.contains(x),
            forall|y: NodeId|
                #[trigger] self.descendants(x).contains(y) ==> other.contains(y) && other.children(y)
                    == self.children(y),
        ensures
            other.descendants(x) == self.descendants(x),
        decreases self.fuel(x), 0nat,
    {
        self.lemma_descendants_unfold(x);
        self.lemma_child_fuel(x);
        self.lemma_children_ends(x);
        assert(self.descendants(x)[0] == x);
        assert(self.descendants(x).contains(x));
        other.lemma_descendants_unfold(x);
        let cs = self.children(x);
        let l = self.descendants_list(cs);
        assert forall|y: NodeId| #[trigger] l.contains(y) implies other.contains(y) && other.children(y)
            == self.children(y) by {
            let j = choose|j: int| 0 <= j < l.len() && l[j] == y;
            assert(self.descendants(x)[j + 1] == y);
            assert(self.descendants(x).contains(y));
        }
        self.lemma_descendants_list_frame(other, cs, (self.fuel(x) - 1) as nat);
    }

    proof fn lemma_descendants_list_frame(&self, other: &Arena<T>, cs: Seq<NodeId>, f: nat)
        requires
            self.wf(),
            other.wf(),
            forall|c: NodeId| #[trigger] cs.contains(c) ==> self.contains(c) && self.fuel(c) <= f,
            forall|y: NodeId|
                #[trigger] self.descendants_list(cs).contains(y) ==> other.contains(y) && other.children(y)
                    == self.children(y),
        ensures
            other.descendants_list(cs) == self.descendants_list(cs),
        decreases f, cs.len(),
    {
        if cs.len() > 0 {
            assert(cs.contains(cs[0]));
            let first = self.descendants(cs[0]);
            let rest = cs.drop_first();
            let l = self.descendants_list(cs);
            assert(l == first + self.descendants_list(rest));
            assert forall|y: NodeId| #[trigger] first.contains(y) implies other.contains(y) && other.children(y)
                == self.children(y) by {
                let j = choose|j: int| 0 <= j < first.len() && first[j] == y;
                assert(l[j] == y);
                assert(l.contains(y));
            }
            self.lemma_descendants_frame(other, cs[0]);
            assert forall|c: NodeId| #[trigger] rest.contains(c) implies self.contains(c) && self.fuel(c) <= f by {
                let k = choose|k: int| 0 <= k < rest.len() && rest[k] == c;
                assert(cs[k + 1] == c);
                assert(cs.contains(cs[k + 1]));
            }
            assert forall|y: NodeId| #[trigger] self.descendants_list(rest).contains(y) implies other.contains(y)
                && other.children(y) == self.children(y) by {
                let r = self.descendants_list(rest);
                let j = choose|j: int| 0 <= j < r.len() && r[j] == y;
                assert(l[first.len() + j] == y);
                assert(l.contains(y));
            }
            self.lemma_descendants_list_frame(other, rest, f);
        }
    }

    /// Every node of the subtree of `x` has `x` as an ancestor.
    proof fn lemma_descendant_ancestor(&self, x: NodeId, y: NodeId)
        requires
            self.wf(),
            self.contains(x),
            self.descendants(x).contains(y),
        ensures
            self.is_ancestor(x, y),
    {
        assert(anc_at(self.nodes@, x, 0) == x);
        self.lemma_subtree_below(x, x, y);
        self.lemma_in_subtree_ancestor(x, y);
    }

    /// Taking `n` out of its place and linking it anywhere but below itself
    /// leaves its subtree as it was.
    proof fn lemma_moved_subtree(&self, after: &Arena<T>, n: NodeId, par: Option<NodeId>)
        requires
            self.wf(),
            after.wf(),
            self.contains(n),
            after@.dom() == self@.dom(),
            par is Some ==> !self.is_ancestor(n, par->0),
            forall|y: NodeId|
                #![trigger after.children(y)]
                self.contains(y) && par != Some(y) ==> after.children(y) == self.children_without(y, n),
        ensures
            after.descendants(n) == self.descendants(n),
    {
        self.lemma_descendants_contained(n);
        assert forall|y: NodeId| #[trigger] self.descendants(n).contains(y) implies after.contains(y)
            && after.children(y) == self.children(y) by {
            self.lemma_descendant_ancestor(n, y);
            if let Some(q) = self.parent(n) {
                if q == y {
                    self.lemma_child_not_ancestor(n, q);
                }
            }
            assert(after.children(y) == self.children_without(y, n));
        }
        self.lemma_descendants_frame(after, n);
    }

    /// A sibling group holds no node twice and lists its members.
    pub proof fn lemma_siblings_nodup(&self, x: NodeId)
        requires
            self.wf(),
            self.contains(x),
        ensures
            self.siblings(x).no_duplicates(),
            self.siblings(x).contains(x),
    {
        self.lemma_node(x.index);
        assert(nid(x.index) == x);
    }

    proof fn lemma_anc_depth(&self, x: NodeId, k: nat)
        requires
            self.wf(),
            self.contains(x),
        ensures
            self.contains(anc_at(self.nodes@, x, k)),
            self.depth@[anc_at(self.nodes@, x, k).index] <= self.depth@[x.index],
        decreases k,
    {
        self.lemma_node(x.index);
        if k > 0 {
            match self.nodes@[x.index].parent {
                Some(p) => self.lemma_anc_depth(p, (k - 1) as nat),
                None => {},
            }
        }
    }

    /// A child is never an ancestor of its parent.
    pub proof fn lemma_child_not_ancestor(&self, c: NodeId, p: NodeId)
        requires
            self.wf(),
            self.contains(c),
            self.parent(c) == Some(p),
        ensures
            !self.is_ancestor(c, p),
            c != p,
            self.contains(p),
    {
        self.lemma_node(c.index);
        if self.is_ancestor(c, p) {
            let k = choose|k: nat| anc_at(self.nodes@, p, k) == c;
            self.lemma_anc_depth(p, k);
        }
    }

    /// Takes out node `id` for good. Its children move into its place, in
    /// reverse order, when it has a parent, and become lone roots when it
    /// has none.
    pub fn remove(&mut self, id: NodeId)
        requires
            old(self).wf(),
            old(self).contains(id),
        ensures
            final(self).wf(),
            final(self)@.dom() == old(self)@.dom().remove(id.spec_index()),
            final(self).spec_next_id() == old(self).spec_next_id(),
            ({
                let ids = old(self).stored_ids();
                let j = ids.index_of(id.spec_index());
                &&& 0 <= j < ids.len()
                &&& ids[j] == id.spec_index()
                &&& final(self).stored_ids() == ids.update(j, ids.last()).drop_last()
            }),
            forall|x: NodeId|
                old(self).contains(x) && x != id ==> #[trigger] final(self).data(x) == old(self).data(x),
            ({
                let cs = old(self).children(id);
                &&& forall|x: NodeId|
                    #![trigger final(self).parent(x)]
                    old(self).contains(x) && x != id ==> final(self).parent(x) == if cs.contains(x) {
                        old(self).parent(id)
                    } else {
                        old(self).parent(x)
                    }
                &&& forall|y: NodeId|
                    #![trigger final(self).children(y)]
                    old(self).contains(y) && y != id && old(self).parent(id) != Some(y)
                        ==> final(self).children(y) == old(self).children(y)
                &&& match old(self).parent(id) {
                    Some(q) => {
                        let sib = old(self).children(q);
                        let k = pos_in(sib, id);
                        let merged = sib.subrange(0, k) + cs.reverse() + sib.subrange(k + 1, sib.len() as int);
                        &&& final(self).children(q) == merged
                        &&& forall|x: NodeId|
                            #![trigger final(self).siblings(x)]
                            old(self).contains(x) && x != id ==> final(self).siblings(x) == if sib.contains(x)
                                || cs.contains(x) {
                                merged
                            } else {
                                old(self).siblings(x)
                            }
                    },
                    None => forall|x: NodeId|
                        #![trigger final(self).siblings(x)]
                        old(self).contains(x) && x != id ==> final(self).siblings(x) == if cs.contains(x) {
                            seq![x]
                        } else if old(self).siblings(id).contains(x) {
                            without(old(self).siblings(id), id)
                        } else {
                            old(self).siblings(x)
                        },
                }
            }),
    {
        let ghost a = *self;
        let cs = self.children_of(id);
        let ghost c = cs@;
        let n = cs.len();
        proof {
            self.lemma_children_nodup(id);
            self.lemma_children_ends(id);
        }
        let parent = self.nodes.get_unchecked(id.index).parent;
        match parent {
            Some(q) => {
                let ghost sib = a.children(q);
                let ghost k = pos_in(sib, id);
                proof {
                    self.lemma_siblings_are_children(id);
                    self.lemma_siblings_nodup(id);
                    self.lemma_child_not_ancestor(id, q);
                    self.lemma_children_ends(q);
                    assert(sib[k] == id);
                    assert(sib =~= sib.subrange(0, k + 1) + c.subrange(0, 0).reverse() + sib.subrange(
                        k + 1,
                        sib.len() as int,
                    ));
                    assert(c.subrange(0, n as int) =~= c);
                    assert(c.subrange(0, 0) =~= Seq::<NodeId>::empty());
                    assert forall|x: NodeId| #![trigger self.siblings(x)] a.contains(x) implies self.siblings(x)
                        == if x == id || sib.contains(x) || c.subrange(0, 0).contains(x) {
                        self.children(q)
                    } else if c.subrange(0, n as int).contains(x) {
                        c.subrange(0, n as int)
                    } else {
                        a.siblings(x)
                    } by {
                        if sib.contains(x) || c.contains(x) {
                            self.lemma_siblings_are_children(x);
                        }
                    }
                }
                let mut i: usize = 0;
                while i < n
                    invariant
                        self.wf(),
                        a.wf(),
                        0 <= i <= n,
                        n == c.len(),
                        cs@ == c,
                        c == a.children(id),
                        c.no_duplicates(),
                        a.parent(id) == Some(q),
                        sib == a.children(q),
                        0 <= k < sib.len(),
                        sib[k] == id,
                        sib.no_duplicates(),
                        self@.dom() == a@.dom(),
                        self.spec_next_id() == a.spec_next_id(),
                        self.stored_ids() == a.stored_ids(),
                        self.contains(id),
                        self.contains(q),
                        q != id,
                        self.parent(id) == Some(q),
                        forall|x: NodeId| #[trigger] c.contains(x) ==> a.contains(x) && a.parent(x) == Some(id),
                        forall|x: NodeId| #[trigger] sib.contains(x) ==> a.contains(x) && a.parent(x) == Some(q),
                        forall|x: NodeId| a.contains(x) ==> #[trigger] self.data(x) == a.data(x),
                        self.children(id) == c.subrange(i as int, n as int),
                        self.children(q) == sib.subrange(0, k + 1) + c.subrange(0, i as int).reverse()
                            + sib.subrange(k + 1, sib.len() as int),
                        forall|x: NodeId|
                            #![trigger self.parent(x)]
                            a.contains(x) ==> self.parent(x) == if c.subrange(0, i as int).contains(x) {
                                Some(q)
                            } else {
                                a.parent(x)
                            },
                        forall|y: NodeId|
                            #![trigger self.children(y)]
                            a.contains(y) && y != q && y != id ==> self.children(y) == a.children(y),
                        forall|x: NodeId|
                            #![trigger self.siblings(x)]
                            a.contains(x) ==> self.siblings(x) == if x == id || sib.contains(x) || c.subrange(
                                0,
                                i as int,
                            ).contains(x) {
                                self.children(q)
                            } else if c.subrange(i as int, n as int).contains(x) {
                                c.subrange(i as int, n as int)
                            } else {
                                a.siblings(x)
                            },
                    decreases n - i,
                {
                    let ch = cs[i];
                    let ghost before = *self;
                    let ghost grp = self.children(q);
                    proof {
                        assert(c.contains(c[i as int]));
                        assert(self.children(id).contains(ch)) by {
                            assert(self.children(id)[0] == ch);
                        }
                        self.lemma_children_ends(id);
                        self.lemma_child_not_ancestor(ch, id);
                        self.lemma_children_nodup(q);
                        self.lemma_children_ends(q);
                        assert(grp[k] == id);
                        assert(pos_in(grp, id) == k);
                        assert(self.siblings(id) == grp);
                        assert(!grp.contains(ch)) by {
                            if grp.contains(ch) {
                                assert(self.parent(ch) == Some(q));
                            }
                        }
                        assert(self.siblings_without(id, ch) == grp);
                        assert(self.siblings(ch) == c.subrange(i as int, n as int));
                        assert(c.subrange(i as int, n as int)[0] == ch);
                        assert(pos_in(c.subrange(i as int, n as int), ch) == 0) by {
                            assert(c.subrange(i as int, n as int).no_duplicates());
                        }
                        assert(without(c.subrange(i as int, n as int), ch) =~= c.subrange(i as int + 1, n as int));
                    }
                    id.insert_after(ch, self);
                    proof {
                        let big = grp.insert(k + 1, ch);
                        assert(big =~= sib.subrange(0, k + 1) + c.subrange(0, i as int + 1).reverse() + sib.subrange(
                            k + 1,
                            sib.len() as int,
                        ));
                        lemma_split_at(c, i as int);
                        lemma_merged_contains(sib, c, k, i as int);
                        assert(sib.contains(id));
                    }
                    i = i + 1;
                }
            },
            None => {
                proof {
                    assert(c.subrange(0, n as int) =~= c);
                    assert(c.subrange(0, 0) =~= Seq::<NodeId>::empty());
                    assert forall|x: NodeId| #![trigger self.siblings(x)] a.contains(x) implies self.siblings(x)
                        == if c.subrange(0, 0).contains(x) {
                        seq![x]
                    } else if c.subrange(0, n as int).contains(x) {
                        c.subrange(0, n as int)
                    } else {
                        a.siblings(x)
                    } by {
                        if c.contains(x) {
                            self.lemma_siblings_are_children(x);
                        }
                    }
                }
                let mut i: usize = 0;
                while i < n
                    invariant
                        self.wf(),
                        a.wf(),
                        0 <= i <= n,
                        n == c.len(),
                        cs@ == c,
                        c == a.children(id),
                        c.no_duplicates(),
                        a.parent(id) is None,
                        self@.dom() == a@.dom(),
                        self.spec_next_id() == a.spec_next_id(),
                        self.stored_ids() == a.stored_ids(),
                        self.contains(id),
                        self.parent(id) is None,
                        self.siblings(id) == a.siblings(id),
                        forall|x: NodeId| #[trigger] c.contains(x) ==> a.contains(x) && a.parent(x) == Some(id),
                        forall|x: NodeId| a.contains(x) ==> #[trigger] self.data(x) == a.data(x),
                        self.children(id) == c.subrange(i as int, n as int),
                        forall|x: NodeId|
                            #![trigger self.parent(x)]
                            a.contains(x) ==> self.parent(x) == if c.subrange(0, i as int).contains(x) {
                                None
                            } else {
                                a.parent(x)
                            },
                        forall|y: NodeId|
                            #![trigger self.children(y)]
                            a.contains(y) && y != id ==> self.children(y) == a.children(y),
                        forall|x: NodeId|
                            #![trigger self.siblings(x)]
                            a.contains(x) ==> self.siblings(x) == if c.subrange(0, i as int).contains(x) {
                                seq![x]
                            } else if c.subrange(i as int, n as int).contains(x) {
                                c.subrange(i as int, n as int)
                            } else {
                                a.siblings(x)
                            },
                    decreases n - i,
                {
                    let ch = cs[i];
                    proof {
                        assert(c.contains(c[i as int]));
                        assert(self.children(id)[0] == ch);
                        self.lemma_children_ends(id);
                        assert(self.children(id).contains(ch));
                        assert(self.siblings(ch) == c.subrange(i as int, n as int));
                        assert(pos_in(c.subrange(i as int, n as int), ch) == 0) by {
                            assert(c.subrange(i as int, n as int).no_duplicates());
                        }
                        assert(without(c.subrange(i as int, n as int), ch) =~= c.subrange(i as int + 1, n as int));
                        assert(!self.siblings(id).contains(ch)) by {
                            a.lemma_siblings_nodup(id);
                            a.lemma_sibling_links(id);
                        }
                    }
                    self.detach(ch);
                    proof {
                        lemma_split_at(c, i as int);
                    }
                    i = i + 1;
                }
            },
        }
        let ghost before_detach = *self;
        self.detach(id);
        let ghost before_drop = *self;
        proof {
            self.lemma_children_ends(id);
            self.lemma_node(id.index);
        }
        self.drop_isolated(id);
        proof {
            before_drop.nodes.lemma_layout();
            assert(before_drop.stored_ids() == a.stored_ids());
            assert(a.stored_ids().index_of(id.spec_index()) == before_drop.nodes.position(id.index));
            assert forall|x: NodeId| #![trigger self.siblings(x)] a.contains(x) && x != id implies self.siblings(x)
                == before_drop.siblings(x) by {
            }
            assert(c.subrange(0, n as int) =~= c);
            assert(c.subrange(n as int, n as int) =~= Seq::<NodeId>::empty());
            match parent {
                Some(q) => {
                    let sib = a.children(q);
                    let k = pos_in(sib, id);
                    let g1 = before_detach.children(q);
                    before_detach.lemma_children_nodup(q);
                    assert(g1[k] == id);
                    assert(pos_in(g1, id) == k);
                    let merged = sib.subrange(0, k) + c.reverse() + sib.subrange(k + 1, sib.len() as int);
                    assert(without(g1, id) =~= merged);
                    lemma_merged_contains(sib, c, k, n as int);
                    assert(before_detach.siblings(id) == g1);
                    assert forall|x: NodeId| #![trigger self.siblings(x)] a.contains(x) && x != id implies self.siblings(x)
                        == if sib.contains(x) || c.contains(x) {
                        merged
                    } else {
                        a.siblings(x)
                    } by {
                        assert(before_detach.contains(x));
                    }
                },
                None => {
                    a.lemma_sibling_links(id);
                    assert forall|x: NodeId| #![trigger self.siblings(x)] a.contains(x) && x != id implies self.siblings(x)
                        == if c.contains(x) {
                        seq![x]
                    } else if a.siblings(id).contains(x) {
                        without(a.siblings(id), id)
                    } else {
                        a.siblings(x)
                    } by {
                        assert(before_detach.contains(x));
                        if c.contains(x) {
                            assert(a.parent(x) == Some(id));
                        }
                    }
                },
            }
        }
    }

    /// Drops a node that has no parent, siblings or children.
    fn drop_isolated(&mut self, id: NodeId)
        requires
            old(self).wf(),
            old(self).contains(id),
            old(self).parent(id) is None,
            old(self).siblings(id) == seq![id],
            old(self).children(id).len() == 0,
        ensures
            final(self).wf(),
            final(self)@ == old(self)@.remove(id.spec_index()),
            final(self).spec_next_id() == old(self).spec_next_id(),
            ({
                let ids = old(self).stored_ids();
                let j = old(self).nodes.position(id.index);
                &&& 0 <= j < ids.len()
                &&& ids[j] == id.spec_index()
                &&& final(self).stored_ids() == ids.update(j, ids.last()).drop_last()
            }),
            forall|x: NodeId| #![trigger final(self).parent(x)] old(self).contains(x) && x != id ==> final(self).parent(x) == old(self).parent(x),
            forall|x: NodeId| #![trigger final(self).children(x)] old(self).contains(x) && x != id ==> final(self).children(x) == old(self).children(x),
            forall|x: NodeId| #![trigger final(self).siblings(x)] old(self).contains(x) && x != id ==> final(self).siblings(x) == old(self).siblings(x),
            forall|x: NodeId| old(self).contains(x) && x != id ==> #[trigger] final(self).data(x) == old(self).data(x),
    {
        let ghost m = self.nodes@;
        let ghost g = self.groups@;
        let ghost d = self.depth@;
        proof {
            self.lemma_children_ends(id);
            self.lemma_node(id.index);
            assert(nid(id.index) == id);
        }
        proof {
            self.nodes.lemma_layout();
        }
        self.nodes.remove(id.index);
        proof {
            self.groups@ = g.remove(id.index);
            self.depth@ = d.remove(id.index);
            let m2 = self.nodes@;
            assert(self.groups@.dom() =~= m2.dom());
            assert(self.depth@.dom() =~= m2.dom());
            assert forall|i: usize| m2.contains_key(i) implies #[trigger] node_ok(m2, self.groups@, self.depth@, self.cap@, self.next_id, i) by {
                assert(node_ok(m, g, d, self.cap@, self.next_id, i));
                let s = g[i];
                assert forall|j: int| 0 <= j < s.len() implies #[trigger] s[j].index != id.index by {
                    if s[j].index == id.index {
                        assert(nid(s[j].index) == s[j]);
                        assert(g[id.index] == s);
                        assert(s.contains(nid(i)));
                    }
                }
                match m[i].parent {
                    Some(p) => {
                        if p.index == id.index {
                            assert(m[id.index].first_child is Some);
                        }
                    },
                    None => {},
                }
                match m[i].first_child {
                    Some(f) => assert(node_ok(m, g, d, self.cap@, self.next_id, f.index)),
                    None => {},
                }
                match m[i].last_child {
                    Some(l) => assert(node_ok(m, g, d, self.cap@, self.next_id, l.index)),
                    None => {},
                }
            }
            assert forall|x: NodeId| #![trigger self.children(x)] old(self).contains(x) && x != id implies self.children(x) == old(self).children(x) by {
                assert(node_ok(m, g, d, self.cap@, self.next_id, x.index));
                match m[x.index].first_child {
                    Some(f) => {
                        assert(node_ok(m, g, d, self.cap@, self.next_id, f.index));
                    },
                    None => {},
                }
            }
        }
    }

    /// In the subtree of `x` in tree order, every node but `x` comes after
    /// its parent.
    pub proof fn lemma_parent_first(&self, x: NodeId, j: int)
        requires
            self.wf(),
            self.contains(x),
            0 < j < self.descendants(x).len(),
        ensures
            exists|i: int|
                0 <= i < j && Some(#[trigger] self.descendants(x)[i]) == self.parent(self.descendants(x)[j]),
        decreases self.fuel(x), 0nat,
    {
        self.lemma_descendants_unfold(x);
        self.lemma_child_fuel(x);
        self.lemma_children_ends(x);
        let cs = self.children(x);
        let d = self.descendants(x);
        let l = self.descendants_list(cs);
        assert(d == seq![x] + l);
        assert(d[j] == l[j - 1]);
        self.lemma_parent_first_list(cs, j - 1, (self.fuel(x) - 1) as nat);
        if cs.contains(l[j - 1]) {
            assert(d[0] == x);
            assert(Some(d[0]) == self.parent(d[j]));
        } else {
            let i = choose|i: int| 0 <= i < j - 1 && Some(#[trigger] l[i]) == self.parent(l[j - 1]);
            assert(d[i + 1] == l[i]);
            assert(Some(d[i + 1]) == self.parent(d[j]));
        }
    }

    /// In the concatenated subtrees of the nodes of `cs`, every node that is
    /// not one of `cs` comes after its parent.
    proof fn lemma_parent_first_list(&self, cs: Seq<NodeId>, j: int, f: nat)
        requires
            self.wf(),
            forall|c: NodeId| #[trigger] cs.contains(c) ==> self.contains(c) && self.fuel(c) <= f,
            0 <= j < self.descendants_list(cs).len(),
        ensures
            cs.contains(self.descendants_list(cs)[j]) || exists|i: int|
                0 <= i < j && Some(#[trigger] self.descendants_list(cs)[i]) == self.parent(
                    self.descendants_list(cs)[j],
                ),
        decreases f, cs.len(),
    {
        let l = self.descendants_list(cs);
        assert(cs.len() > 0);
        assert(cs.contains(cs[0]));
        let a = self.descendants(cs[0]);
        let rest = cs.drop_first();
        let b = self.descendants_list(rest);
        assert(l == a + b);
        if j < a.len() {
            assert(l[j] == a[j]);
            if j == 0 {
                self.lemma_descendants_unfold(cs[0]);
                assert(a[0] == cs[0]);
            } else {
                self.lemma_parent_first(cs[0], j);
                let i = choose|i: int| 0 <= i < j && Some(#[trigger] a[i]) == self.parent(a[j]);
                assert(l[i] == a[i]);
            }
        } else {
            assert(l[j] == b[j - a.len()]);
            assert forall|c: NodeId| #[trigger] rest.contains(c) implies self.contains(c) && self.fuel(c) <= f by {
                let k = choose|k: int| 0 <= k < rest.len() && rest[k] == c;
                assert(cs[k + 1] == c);
                assert(cs.contains(cs[k + 1]));
            }
            self.lemma_parent_first_list(rest, j - a.len(), f);
            if rest.contains(b[j - a.len()]) {
                let k = choose|k: int| 0 <= k < rest.len() && rest[k] == b[j - a.len()];
                assert(cs[k + 1] == b[j - a.len()]);
            } else {
                let i = choose|i: int| 0 <= i < j - a.len() && Some(#[trigger] b[i]) == self.parent(b[j - a.len()]);
                assert(l[i + a.len()] == b[i]);
            }
        }
    }

    /// In the concatenated subtrees of nodes of the arena, every node that is
    /// not one of those nodes comes after its parent.
    pub proof fn lemma_parent_first_in(&self, cs: Seq<NodeId>, j: int)
        requires
            self.wf(),
            forall|c: NodeId| #[trigger] cs.contains(c) ==> self.contains(c),
            0 <= j < self.descendants_list(cs).len(),
        ensures
            cs.contains(self.descendants_list(cs)[j]) || exists|i: int|
                0 <= i < j && Some(#[trigger] self.descendants_list(cs)[i]) == self.parent(
                    self.descendants_list(cs)[j],
                ),
    {
        assert forall|c: NodeId| #[trigger] cs.contains(c) implies self.contains(c) && self.fuel(c) <= (self.cap@
            + 1) as nat by {
            self.lemma_node(c.index);
        }
        self.lemma_parent_first_list(cs, j, (self.cap@ + 1) as nat);
    }

    /// Every node of the subtree of `x` lies below whatever `x` lies below.
    proof fn lemma_subtree_below(&self, a: NodeId, x: NodeId, y: NodeId)
        requires
            self.wf(),
            self.contains(x),
            in_subtree(self.nodes@, self.depth@, a, x),
            self.descendants(x).contains(y),
        ensures
            in_subtree(self.nodes@, self.depth@, a, y),
        decreases self.fuel(x), 0nat,
    {
        self.lemma_descendants_unfold(x);
        self.lemma_child_fuel(x);
        self.lemma_children_ends(x);
        let d = self.descendants(x);
        let l = self.descendants_list(self.children(x));
        if y != x {
            let j = choose|j: int| 0 <= j < d.len() && d[j] == y;
            assert(j > 0);
            assert(l[j - 1] == y);
            assert(l.contains(y));
            self.lemma_list_below(a, x, self.children(x), y, (self.fuel(x) - 1) as nat);
        }
    }

    proof fn lemma_list_below(&self, a: NodeId, p: NodeId, cs: Seq<NodeId>, y: NodeId, f: nat)
        requires
            self.wf(),
            forall|c: NodeId|
                #[trigger] cs.contains(c) ==> self.contains(c) && self.parent(c) == Some(p) && self.fuel(c) <= f,
            in_subtree(self.nodes@, self.depth@, a, p),
            self.descendants_list(cs).contains(y),
        ensures
            in_subtree(self.nodes@, self.depth@, a, y),
        decreases f, cs.len(),
    {
        assert(cs.len() > 0);
        assert(cs.contains(cs[0]));
        let first = self.descendants(cs[0]);
        let rest = cs.drop_first();
        let l = self.descendants_list(cs);
        assert(l == first + self.descendants_list(rest));
        let j = choose|j: int| 0 <= j < l.len() && l[j] == y;
        if j < first.len() {
            assert(first[j] == y);
            assert(first.contains(y));
            lemma_subtree_step(self.nodes@, self.groups@, self.depth@, self.cap@, self.next_id, a, cs[0].index);
            assert(nid(cs[0].index) == cs[0]);
            self.lemma_subtree_below(a, cs[0], y);
        } else {
            assert(self.descendants_list(rest)[j - first.len()] == y);
            assert(self.descendants_list(rest).contains(y));
            assert forall|c: NodeId| #[trigger] rest.contains(c) implies self.contains(c) && self.parent(c) == Some(p)
                && self.fuel(c) <= f by {
                let k = choose|k: int| 0 <= k < rest.len() && rest[k] == c;
                assert(cs[k + 1] == c);
                assert(cs.contains(cs[k + 1]));
            }
            self.lemma_list_below(a, p, rest, y, f);
        }
    }

    /// A node of the concatenated subtrees of `cs` lies in the subtree of
    /// one of them.
    proof fn lemma_list_member(&self, cs: Seq<NodeId>, y: NodeId)
        requires
            self.descendants_list(cs).contains(y),
        ensures
            exists|c: NodeId| #[trigger] cs.contains(c) && self.descendants(c).contains(y),
        decreases cs.len(),
    {
        assert(cs.len() > 0);
        let first = self.descendants(cs[0]);
        let rest = cs.drop_first();
        let l = self.descendants_list(cs);
        assert(l == first + self.descendants_list(rest));
        let j = choose|j: int| 0 <= j < l.len() && l[j] == y;
        assert(cs.contains(cs[0]));
        if j < first.len() {
            assert(first[j] == y);
            assert(first.contains(y));
        } else {
            assert(self.descendants_list(rest)[j - first.len()] == y);
            assert(self.descendants_list(rest).contains(y));
            self.lemma_list_member(rest, y);
            let c = choose|c: NodeId| #[trigger] rest.contains(c) && self.descendants(c).contains(y);
            let k = choose|k: int| 0 <= k < rest.len() && rest[k] == c;
            assert(cs[k + 1] == c);
            assert(cs.contains(c));
        }
    }

    /// The subtree of `x` lists no node twice.
    proof fn lemma_descendants_nodup(&self, x: NodeId)
        requires
            self.wf(),
            self.contains(x),
        ensures
            self.descendants(x).no_duplicates(),
        decreases self.fuel(x), 0nat,
    {
        self.lemma_descendants_unfold(x);
        self.lemma_child_fuel(x);
        self.lemma_children_ends(x);
        self.lemma_children_nodup(x);
        self.lemma_node(x.index);
        let cs = self.children(x);
        let l = self.descendants_list(cs);
        let dx = self.depth@[x.index];
        assert forall|c: NodeId| #[trigger] cs.contains(c) implies self.contains(c) && self.fuel(c) <= (self.fuel(x)
            - 1) as nat && self.depth@[c.index] == dx + 1 by {
            self.lemma_node(c.index);
        }
        self.lemma_list_nodup(cs, (self.fuel(x) - 1) as nat, dx + 1);
        if l.contains(x) {
            self.lemma_list_member(cs, x);
            let c = choose|c: NodeId| #[trigger] cs.contains(c) && self.descendants(c).contains(x);
            self.lemma_subtree_below(c, c, x);
        }
        let d = self.descendants(x);
        assert(d == seq![x] + l);
        assert forall|i: int, j: int| 0 <= i < d.len() && 0 <= j < d.len() && i != j implies d[i] != d[j] by {
            if i == 0 && j > 0 {
                assert(d[j] == l[j - 1]);
            } else if j == 0 && i > 0 {
                assert(d[i] == l[i - 1]);
            } else if i > 0 && j > 0 {
                assert(d[i] == l[i - 1] && d[j] == l[j - 1]);
            }
        }
    }

    proof fn lemma_list_nodup(&self, cs: Seq<NodeId>, f: nat, dep: nat)
        requires
            self.wf(),
            cs.no_duplicates(),
            forall|c: NodeId|
                #[trigger] cs.contains(c) ==> self.contains(c) && self.fuel(c) <= f && self.depth@[c.index] == dep,
        ensures
            self.descendants_list(cs).no_duplicates(),
        decreases f, cs.len(),
    {
        if cs.len() > 0 {
            assert(cs.contains(cs[0]));
            let first = self.descendants(cs[0]);
            let rest = cs.drop_first();
            let b = self.descendants_list(rest);
            self.lemma_descendants_nodup(cs[0]);
            assert forall|c: NodeId| #[trigger] rest.contains(c) implies self.contains(c) && self.fuel(c) <= f
                && self.depth@[c.index] == dep by {
                let k = choose|k: int| 0 <= k < rest.len() && rest[k] == c;
                assert(cs[k + 1] == c);
                assert(cs.contains(cs[k + 1]));
            }
            assert(rest.no_duplicates()) by {
                assert forall|i: int, j: int| 0 <= i < rest.len() && 0 <= j < rest.len() && i != j implies rest[i]
                    != rest[j] by {
                    assert(rest[i] == cs[i + 1] && rest[j] == cs[j + 1]);
                }
            }
            self.lemma_list_nodup(rest, f, dep);
            let l = self.descendants_list(cs);
            assert(l == first + b);
            assert forall|y: NodeId| first.contains(y) implies !b.contains(y) by {
                if b.contains(y) {
                    self.lemma_list_member(rest, y);
                    let c = choose|c: NodeId| #[trigger] rest.contains(c) && self.descendants(c).contains(y);
                    self.lemma_subtree_below(c, c, y);
                    self.lemma_subtree_below(cs[0], cs[0], y);
                    let k = choose|k: int| 0 <= k < rest.len() && rest[k] == c;
                    assert(cs[k + 1] == c);
                }
            }
            assert forall|i: int, j: int| 0 <= i < l.len() && 0 <= j < l.len() && i != j implies l[i] != l[j] by {
                if i < first.len() && j >= first.len() {
                    assert(l[i] == first[i] && first.contains(first[i]));
                    assert(l[j] == b[j - first.len()] && b.contains(b[j - first.len()]));
                } else if j < first.len() && i >= first.len() {
                    assert(l[j] == first[j] && first.contains(first[j]));
                    assert(l[i] == b[i - first.len()] && b.contains(b[i - first.len()]));
                } else if i < first.len() && j < first.len() {
                    assert(l[i] == first[i] && l[j] == first[j]);
                } else {
                    assert(l[i] == b[i - first.len()] && l[j] == b[j - first.len()]);
                }
            }
        }
    }

    /// The subtrees of two different nodes without parents share no node.
    pub proof fn lemma_root_subtrees_disjoint(&self, r1: NodeId, r2: NodeId, y: NodeId)
        requires
            self.wf(),
            self.contains(r1),
            self.contains(r2),
            self.parent(r1) is None,
            self.parent(r2) is None,
            r1 != r2,
            self.descendants(r1).contains(y),
        ensures
            !self.descendants(r2).contains(y),
    {
        self.lemma_node(r1.index);
        self.lemma_node(r2.index);
        assert(anc_at(self.nodes@, r1, 0) == r1);
        assert(anc_at(self.nodes@, r2, 0) == r2);
        self.lemma_subtree_below(r1, r1, y);
        if self.descendants(r2).contains(y) {
            self.lemma_subtree_below(r2, r2, y);
        }
    }

    /// The subtrees of distinct parentless nodes list no node twice.
    pub proof fn lemma_roots_descendants_nodup(&self, cs: Seq<NodeId>)
        requires
            self.wf(),
            cs.no_duplicates(),
            forall|c: NodeId| #[trigger] cs.contains(c) ==> self.contains(c) && self.parent(c) is None,
        ensures
            self.descendants_list(cs).no_duplicates(),
    {
        assert forall|c: NodeId| #[trigger] cs.contains(c) implies self.contains(c) && self.fuel(c) <= (self.cap@
            + 1) as nat && self.depth@[c.index] == 0 by {
            self.lemma_node(c.index);
        }
        self.lemma_list_nodup(cs, (self.cap@ + 1) as nat, 0);
    }

    /// Whether `id` names a node of the arena.
    pub fn contains_node(&self, id: NodeId) -> (r: bool)
        requires
            self.wf(),
        ensures
            r == self.contains(id),
    {
        self.nodes.contains_key(id.index)
    }

    /// A node of the subtree of one of `cs` lies in the concatenated
    /// subtrees of `cs`.
    /// Every node lies in the subtree of one of its ancestors that has no
    /// parent.
    pub proof fn lemma_under_root(&self, x: NodeId) -> (r: NodeId)
        requires
            self.wf(),
            self.contains(x),
        ensures
            self.contains(r),
            self.parent(r) is None,
            self.descendants(r).contains(x),
    {
        self.root_above(x)
    }

    proof fn root_above(&self, x: NodeId) -> (r: NodeId)
        requires
            self.wf(),
            self.contains(x),
        ensures
            self.contains(r),
            self.parent(r) is None,
            self.descendants(r).contains(x),
        decreases self.depth@[x.index],
    {
        self.lemma_node(x.index);
        match self.parent(x) {
            None => {
                self.lemma_descendants_unfold(x);
                assert(self.descendants(x)[0] == x);
                x
            },
            Some(p) => {
                self.lemma_siblings_are_children(x);
                let r = self.root_above(p);
                self.lemma_child_in_subtree(r, p, x);
                r
            },
        }
    }

    proof fn lemma_list_includes(&self, cs: Seq<NodeId>, c: NodeId, z: NodeId)
        requires
            cs.contains(c),
            self.descendants(c).contains(z),
        ensures
            self.descendants_list(cs).contains(z),
        decreases cs.len(),
    {
        let first = self.descendants(cs[0]);
        let rest = cs.drop_first();
        let l = self.descendants_list(cs);
        assert(l == first + self.descendants_list(rest));
        if cs[0] == c {
            let j = choose|j: int| 0 <= j < first.len() && first[j] == z;
            assert(l[j] == z);
        } else {
            let k = choose|k: int| 0 <= k < cs.len() && cs[k] == c;
            assert(rest[k - 1] == c);
            self.lemma_list_includes(rest, c, z);
            let b = self.descendants_list(rest);
            let j = choose|j: int| 0 <= j < b.len() && b[j] == z;
            assert(l[j + first.len()] == z);
        }
    }

    /// The children of a node of the subtree of `x` belong to that subtree.
    proof fn lemma_child_in_subtree(&self, x: NodeId, y: NodeId, c: NodeId)
        requires
            self.wf(),
            self.contains(x),
            self.descendants(x).contains(y),
            self.children(y).contains(c),
        ensures
            self.descendants(x).contains(c),
        decreases self.fuel(x),
    {
        self.lemma_descendants_unfold(x);
        self.lemma_child_fuel(x);
        self.lemma_children_ends(x);
        let cs = self.children(x);
        let l = self.descendants_list(cs);
        let d = self.descendants(x);
        assert(d == seq![x] + l);
        if y == x {
            self.lemma_descendants_unfold(c);
            assert(self.descendants(c)[0] == c);
            assert(self.descendants(c).contains(c));
            self.lemma_list_includes(cs, c, c);
        } else {
            let j = choose|j: int| 0 <= j < d.len() && d[j] == y;
            assert(l[j - 1] == y);
            assert(l.contains(y));
            self.lemma_list_member(cs, y);
            let c2 = choose|c2: NodeId| #[trigger] cs.contains(c2) && self.descendants(c2).contains(y);
            self.lemma_child_in_subtree(c2, y, c);
            self.lemma_list_includes(cs, c2, c);
        }
        let m = choose|m: int| 0 <= m < l.len() && l[m] == c;
        assert(d[m + 1] == c);
    }

    /// Takes out the parentless node `id` and every node of its subtree. The
    /// other nodes keep their links and data.
    pub fn remove_tree(&mut self, id: NodeId)
        requires
            old(self).wf(),
            old(self).contains(id),
            old(self).parent(id) is None,
        ensures
            final(self).wf(),
            final(self).spec_next_id() == old(self).spec_next_id(),
            forall|x: NodeId|
                #[trigger] final(self).contains(x) == (old(self).contains(x) && !old(self).descendants(id).contains(x)),
            forall|x: NodeId| final(self).contains(x) ==> #[trigger] final(self).data(x) == old(self).data(x),
            forall|x: NodeId| final(self).contains(x) ==> #[trigger] final(self).parent(x) == old(self).parent(x),
            forall|x: NodeId| final(self).contains(x) ==> #[trigger] final(self).children(x) == old(self).children(x),
            forall|x: NodeId|
                old(self).contains(x) && old(self).parent(x) is None && x != id ==> #[trigger] final(self).contains(x),
    {
        let ds = self.descendants_of(id);
        let ghost d = ds@;
        let ghost a0 = *self;
        proof {
            a0.lemma_descendants_nodup(id);
            a0.lemma_descendants_contained(id);
            a0.lemma_descendants_unfold(id);
            assert(d[0] == id);
            assert forall|j: int| 0 < j < d.len() implies exists|k: int|
                0 <= k < j && Some(#[trigger] d[k]) == a0.parent(#[trigger] d[j]) by {
                a0.lemma_parent_first(id, j);
            }
            assert forall|y: NodeId, c: NodeId| d.contains(y) && #[trigger] a0.children(y).contains(c) implies #[trigger] d.contains(
                c,
            ) by {
                a0.lemma_child_in_subtree(id, y, c);
            }
            assert forall|x: NodeId| a0.contains(x) && #[trigger] d.contains(x) implies (a0.parent(x) is None || a0.contains(
                a0.parent(x)->0,
            )) by {
                a0.lemma_node(x.index);
            }
        }
        let mut i: usize = 0;
        while i < ds.len()
            invariant
                self.wf(),
                ds@ == d,
                0 <= i <= d.len(),
                d == a0.descendants(id),
                d.no_duplicates(),
                d.len() > 0 && d[0] == id,
                a0.parent(id) is None,
                forall|y: NodeId| #[trigger] d.contains(y) ==> a0.contains(y),
                forall|j: int| 0 < j < d.len() ==> exists|k: int| 0 <= k < j && Some(#[trigger] d[k]) == a0.parent(#[trigger] d[j]),
                forall|y: NodeId, c: NodeId| d.contains(y) && #[trigger] a0.children(y).contains(c) ==> #[trigger] d.contains(c),
                self.spec_next_id() == a0.spec_next_id(),
                forall|x: NodeId|
                    #[trigger] self.contains(x) == (a0.contains(x) && !d.take(i as int).contains(x)),
                forall|x: NodeId| self.contains(x) ==> #[trigger] self.data(x) == a0.data(x),
                forall|x: NodeId|
                    self.contains(x) && !d.contains(x) ==> #[trigger] self.parent(x) == a0.parent(x) && self.children(x)
                        == a0.children(x),
                forall|x: NodeId|
                    self.contains(x) && #[trigger] d.contains(x) ==> self.children(x) == a0.children(x) && (self.parent(x)
                        is None || (self.parent(x) == a0.parent(x) && self.contains(self.parent(x)->0))),
            decreases d.len() - i,
        {
            let y = ds[i];
            let ghost before = *self;
            proof {
                assert(d.contains(y));
                assert(!d.take(i as int).contains(y)) by {
                    if d.take(i as int).contains(y) {
                        let k = choose|k: int| 0 <= k < i && d.take(i as int)[k] == y;
                        assert(d[k] == d[i as int]);
                    }
                }
                assert(before.contains(y));
                if i > 0 {
                    let k = choose|k: int| 0 <= k < i && Some(#[trigger] d[k]) == a0.parent(d[i as int]);
                    assert(d.take(i as int)[k] == d[k]);
                    assert(d.take(i as int).contains(d[k]));
                    assert(!before.contains(d[k]));
                }
                assert(before.parent(y) is None);
            }
            self.remove(y);
            proof {
                assert(d.take(i as int + 1) =~= d.take(i as int).push(y));
                assert forall|x: NodeId| #[trigger] self.contains(x) == (a0.contains(x) && !d.take(i as int + 1).contains(
                    x,
                )) by {
                    vstd::seq_lib::lemma_seq_contains_after_push(d.take(i as int), y, x);
                    assert(before.contains(x) == (a0.contains(x) && !d.take(i as int).contains(x)));
                }
                assert forall|x: NodeId| self.contains(x) && !d.contains(x) implies #[trigger] self.parent(x) == a0.parent(x)
                    && self.children(x) == a0.children(x) by {
                    assert(before.contains(x));
                    if before.children(y).contains(x) {
                        assert(a0.children(y).contains(x));
                    }
                    assert(before.parent(y) != Some(x));
                }
                assert forall|x: NodeId| self.contains(x) && #[trigger] d.contains(x) implies self.children(x) == a0.children(x)
                    && (self.parent(x) is None || (self.parent(x) == a0.parent(x) && self.contains(self.parent(x)->0))) by {
                    assert(before.contains(x));
                    assert(before.parent(y) != Some(x));
                    if !before.children(y).contains(x) {
                        if before.parent(x) == Some(y) {
                            before.lemma_siblings_are_children(x);
                        }
                    }
                }
            }
            i = i + 1;
        }
        proof {
            assert(d.take(d.len() as int) =~= d);
            assert forall|x: NodeId| self.contains(x) implies #[trigger] self.children(x) == a0.children(x)
                && self.parent(x) == a0.parent(x) by {
                assert(!d.contains(x));
            }
            assert forall|x: NodeId| a0.contains(x) && a0.parent(x) is None && x != id implies #[trigger] self.contains(
                x,
            ) by {
                if d.contains(x) {
                    let j = choose|j: int| 0 <= j < d.len() && d[j] == x;
                    assert(j > 0);
                    let k = choose|k: int| 0 <= k < j && Some(#[trigger] d[k]) == a0.parent(#[trigger] d[j]);
                }
            }
        }
    }

    /// How many levels below `x` a walk of its subtree may need.
    pub closed spec fn fuel(&self, x: NodeId) -> nat {
        (self.cap@ + 1 - self.depth@[x.index]) as nat
    }

    /// The subtree of `x` in tree order: `x` first, then the subtree of
    /// each child, first child to last.
    pub closed spec fn descendants(&self, x: NodeId) -> Seq<NodeId> {
        pre(self.nodes@, self.groups@, x, self.fuel(x))
    }

    /// The edges of a walk through the subtree of `x`.
    pub closed spec fn traversal(&self, x: NodeId) -> Seq<NodeEdge<NodeId>> {
        trav(self.nodes@, self.groups@, x, self.fuel(x))
    }

    /// The concatenated subtrees of the nodes of `cs`, in order.
    pub open spec fn descendants_list(&self, cs: Seq<NodeId>) -> Seq<NodeId>
        decreases cs.len(),
    {
        if cs.len() == 0 {
            Seq::empty()
        } else {
            self.descendants(cs[0]) + self.descendants_list(cs.drop_first())
        }
    }

    /// The concatenated walks through the subtrees of the nodes of `cs`.
    pub open spec fn traversal_list(&self, cs: Seq<NodeId>) -> Seq<NodeEdge<NodeId>>
        decreases cs.len(),
    {
        if cs.len() == 0 {
            Seq::empty()
        } else {
            self.traversal(cs[0]) + self.traversal_list(cs.drop_first())
        }
    }

    proof fn lemma_child_fuel(&self, x: NodeId)
        requires
            self.wf(),
            self.contains(x),
        ensures
            self.fuel(x) >= 1,
            forall|c: NodeId| #[trigger] self.children(x).contains(c) ==> self.fuel(c) + 1 == self.fuel(x),
    {
        self.lemma_node(x.index);
        self.lemma_children_ends(x);
        assert forall|c: NodeId| #[trigger] self.children(x).contains(c) implies self.fuel(c) + 1 == self.fuel(x) by {
            self.lemma_node(c.index);
        }
    }

    proof fn lemma_lists_agree(&self, cs: Seq<NodeId>, f: nat)
        requires
            forall|c: NodeId| #[trigger] cs.contains(c) ==> self.fuel(c) == f,
        ensures
            pre_list(self.nodes@, self.groups@, cs, f) == self.descendants_list(cs),
            trav_list(self.nodes@, self.groups@, cs, f) == self.traversal_list(cs),
        decreases cs.len(),
    {
        if cs.len() > 0 {
            assert(cs.contains(cs[0]));
            assert forall|c: NodeId| #[trigger] cs.drop_first().contains(c) implies self.fuel(c) == f by {
                let j = choose|j: int| 0 <= j < cs.drop_first().len() && cs.drop_first()[j] == c;
                assert(cs[j + 1] == c);
                assert(cs.contains(cs[j + 1]));
            }
            self.lemma_lists_agree(cs.drop_first(), f);
        }
    }

    /// The subtree of a node in tree order is the node followed by the
    /// subtrees of its children, first to last.
    pub proof fn lemma_descendants_unfold(&self, x: NodeId)
        requires
            self.wf(),
            self.contains(x),
        ensures
            self.descendants(x) == seq![x] + self.descendants_list(self.children(x)),
            self.traversal(x) == seq![NodeEdge::Start(x)] + self.traversal_list(self.children(x)) + seq![
                NodeEdge::End(x),
            ],
    {
        self.lemma_child_fuel(x);
        self.lemma_lists_agree(self.children(x), (self.fuel(x) - 1) as nat);
    }

    /// Every node of the subtree of `x` is a node of the arena.
    pub proof fn lemma_descendants_contained(&self, x: NodeId)
        requires
            self.wf(),
            self.contains(x),
        ensures
            forall|y: NodeId| #[trigger] self.descendants(x).contains(y) ==> self.contains(y),
        decreases self.fuel(x), 0nat,
    {
        self.lemma_descendants_unfold(x);
        self.lemma_child_fuel(x);
        self.lemma_children_ends(x);
        let cs = self.children(x);
        self.lemma_list_contained(cs, (self.fuel(x) - 1) as nat);
        let d = self.descendants(x);
        assert forall|y: NodeId| #[trigger] d.contains(y) implies self.contains(y) by {
            let j = choose|j: int| 0 <= j < d.len() && d[j] == y;
            if j > 0 {
                assert(self.descendants_list(cs)[j - 1] == y);
                assert(self.descendants_list(cs).contains(y));
            }
        }
    }

    proof fn lemma_list_contained(&self, cs: Seq<NodeId>, f: nat)
        requires
            self.wf(),
            forall|c: NodeId| #[trigger] cs.contains(c) ==> self.contains(c) && self.fuel(c) <= f,
        ensures
            forall|y: NodeId| #[trigger] self.descendants_list(cs).contains(y) ==> self.contains(y),
        decreases f, cs.len(),
    {
        if cs.len() > 0 {
            assert(cs.contains(cs[0]));
            self.lemma_descendants_contained(cs[0]);
            let rest = cs.drop_first();
            assert forall|c: NodeId| #[trigger] rest.contains(c) implies self.contains(c) && self.fuel(c) <= f by {
                let j = choose|j: int| 0 <= j < rest.len() && rest[j] == c;
                assert(cs[j + 1] == c);
                assert(cs.contains(cs[j + 1]));
            }
            self.lemma_list_contained(rest, f);
            let a = self.descendants(cs[0]);
            let b = self.descendants_list(rest);
            assert forall|y: NodeId| #[trigger] self.descendants_list(cs).contains(y) implies self.contains(y) by {
                let l = self.descendants_list(cs);
                assert(l == a + b);
                let j = choose|j: int| 0 <= j < l.len() && l[j] == y;
                if j < a.len() {
                    assert(a[j] == y);
                    assert(a.contains(y));
                } else {
                    assert(b[j - a.len()] == y);
                    assert(b.contains(y));
                }
            }
        }
    }

    /// Every node of the subtrees of nodes of the arena is a node of the arena.
    pub proof fn lemma_descendants_list_contained(&self, cs: Seq<NodeId>)
        requires
            self.wf(),
            forall|c: NodeId| #[trigger] cs.contains(c) ==> self.contains(c),
        ensures
            forall|y: NodeId| #[trigger] self.descendants_list(cs).contains(y) ==> self.contains(y),
    {
        assert forall|c: NodeId| #[trigger] cs.contains(c) implies self.contains(c) && self.fuel(c) <= (self.cap@
            + 1) as nat by {
            self.lemma_node(c.index);
        }
        self.lemma_list_contained(cs, (self.cap@ + 1) as nat);
    }

    fn descendants_into(&self, x: NodeId, out: &mut Vec<NodeId>)
        requires
            self.wf(),
            self.contains(x),
        ensures
            final(out)@ == old(out)@ + self.descendants(x),
        decreases self.fuel(x),
    {
        proof {
            self.lemma_child_fuel(x);
            self.lemma_children_ends(x);
        }
        let ghost base = out@;
        let ghost f = (self.fuel(x) - 1) as nat;
        out.push(x);
        let cs = self.children_of(x);
        let ghost c = cs@;
        let mut i: usize = 0;
        while i < cs.len()
            invariant
                self.wf(),
                cs@ == c,
                c == self.children(x),
                0 <= i <= c.len(),
                f + 1 == self.fuel(x),
                forall|y: NodeId| #[trigger] c.contains(y) ==> self.contains(y) && self.fuel(y) == f,
                out@ == base + seq![x] + pre_list(self.nodes@, self.groups@, c.take(i as int), f),
            decreases c.len() - i,
        {
            proof {
                assert(c.contains(c[i as int]));
                lemma_pre_list_push(self.nodes@, self.groups@, c, i as int, f);
            }
            self.descendants_into(cs[i], out);
            proof {
                assert(out@ =~= base + seq![x] + pre_list(self.nodes@, self.groups@, c.take(i as int + 1), f));
            }
            i = i + 1;
        }
        proof {
            assert(c.take(c.len() as int) =~= c);
            assert(out@ =~= base + (seq![x] + pre_list(self.nodes@, self.groups@, c, f)));
        }
    }

    /// The subtree of `x` in tree order, `x` first.
    pub(crate) fn descendants_of(&self, x: NodeId) -> (r: Vec<NodeId>)
        requires
            self.wf(),
            self.contains(x),
        ensures
            r@ == self.descendants(x),
    {
        let mut out: Vec<NodeId> = Vec::new();
        self.descendants_into(x, &mut out);
        assert(out@ =~= self.descendants(x));
        out
    }

    fn traverse_into(&self, x: NodeId, out: &mut Vec<NodeEdge<NodeId>>)
        requires
            self.wf(),
            self.contains(x),
        ensures
            final(out)@ == old(out)@ + self.traversal(x),
        decreases self.fuel(x),
    {
        proof {
            self.lemma_child_fuel(x);
            self.lemma_children_ends(x);
        }
        let ghost base = out@;
        let ghost f = (self.fuel(x) - 1) as nat;
        out.push(NodeEdge::Start(x));
        let cs = self.children_of(x);
        let ghost c = cs@;
        let mut i: usize = 0;
        while i < cs.len()
            invariant
                self.wf(),
                cs@ == c,
                c == self.children(x),
                0 <= i <= c.len(),
                f + 1 == self.fuel(x),
                forall|y: NodeId| #[trigger] c.contains(y) ==> self.contains(y) && self.fuel(y) == f,
                out@ == base + seq![NodeEdge::Start(x)] + trav_list(self.nodes@, self.groups@, c.take(i as int), f),
            decreases c.len() - i,
        {
            proof {
                assert(c.contains(c[i as int]));
                lemma_trav_list_push(self.nodes@, self.groups@, c, i as int, f);
            }
            self.traverse_into(cs[i], out);
            proof {
                assert(out@ =~= base + seq![NodeEdge::Start(x)] + trav_list(self.nodes@, self.groups@, c.take(i as int + 1), f));
            }
            i = i + 1;
        }
        out.push(NodeEdge::End(x));
        proof {
            assert(c.take(c.len() as int) =~= c);
            assert(out@ =~= base + (seq![NodeEdge::Start(x)] + trav_list(self.nodes@, self.groups@, c, f) + seq![NodeEdge::End(x)]));
        }
    }

    /// The walk through the subtree of `x`: `Start` of a node before its
    /// descendants, `End` after them.
    pub(crate) fn traverse(&self, x: NodeId) -> (r: Vec<NodeEdge<NodeId>>)
        requires
            self.wf(),
            self.contains(x),
        ensures
            r@ == self.traversal(x),
    {
        let mut out: Vec<NodeEdge<NodeId>> = Vec::new();
        self.traverse_into(x, &mut out);
        assert(out@ =~= self.traversal(x));
        out
    }

    /// The walk through the subtree of `x` backwards: the `End` of a node
    /// first, its children last to first, its `Start` last.
    pub(crate) fn reverse_traverse(&self, x: NodeId) -> (r: Vec<NodeEdge<NodeId>>)
        requires
            self.wf(),
            self.contains(x),
        ensures
            r@ == self.traversal(x).reverse(),
    {
        let fwd = self.traverse(x);
        let mut out: Vec<NodeEdge<NodeId>> = Vec::new();
        let mut i = fwd.len();
        while i > 0
            invariant
                fwd@ == self.traversal(x),
                0 <= i <= fwd@.len(),
                out@ == fwd@.subrange(i as int, fwd@.len() as int).reverse(),
            decreases i,
        {
            i = i - 1;
            out.push(fwd[i]);
            proof {
                assert(out@ =~= fwd@.subrange(i as int, fwd@.len() as int).reverse());
            }
        }
        assert(fwd@.subrange(0, fwd@.len() as int) =~= fwd@);
        out
    }

    /// The children of `id`, last to first.
    pub(crate) fn reverse_children_of(&self, id: NodeId) -> (r: Vec<NodeId>)
        requires
            self.wf(),
            self.contains(id),
        ensures
            r@ == self.children(id).reverse(),
    {
        let fwd = self.children_of(id);
        let mut out: Vec<NodeId> = Vec::new();
        let mut i = fwd.len();
        while i > 0
            invariant
                0 <= i <= fwd@.len(),
                out@ == fwd@.subrange(i as int, fwd@.len() as int).reverse(),
            decreases i,
        {
            i = i - 1;
            out.push(fwd[i]);
            proof {
                assert(out@ =~= fwd@.subrange(i as int, fwd@.len() as int).reverse());
            }
        }
        assert(fwd@.subrange(0, fwd@.len() as int) =~= fwd@);
        out
    }

    /// `id` and its ancestors, from `id` up to the root of its tree.
    pub(crate) fn ancestors_of(&self, id: NodeId) -> (r: Vec<NodeId>)
        requires
            self.wf(),
            self.contains(id),
        ensures
            r@.len() > 0,
            r@[0] == id,
            forall|j: int| 0 <= j < r@.len() ==> self.contains(#[trigger] r@[j]),
            forall|j: int| 0 <= j < r@.len() - 1 ==> self.parent(#[trigger] r@[j]) == Some(r@[j + 1]),
            self.parent(r@.last()) is None,
    {
        let mut out: Vec<NodeId> = Vec::new();
        out.push(id);
        let mut cur = id;
        proof {
            self.lemma_node(id.index);
        }
        while self.nodes.get_unchecked(cur.index).parent.is_some()
            invariant
                self.wf(),
                self.contains(cur),
                out@.len() > 0,
                out@[0] == id,
                out@.last() == cur,
                forall|j: int| 0 <= j < out@.len() ==> self.contains(#[trigger] out@[j]),
                forall|j: int| 0 <= j < out@.len() - 1 ==> self.parent(#[trigger] out@[j]) == Some(out@[j + 1]),
            decreases self.depth@[cur.index],
        {
            let p = self.nodes.get_unchecked(cur.index).parent.unwrap();
            proof {
                self.lemma_node(cur.index);
                self.lemma_node(p.index);
            }
            let ghost prev = out@;
            out.push(p);
            proof {
                assert forall|j: int| 0 <= j < out@.len() - 1 implies self.parent(#[trigger] out@[j]) == Some(out@[j + 1]) by {
                    if j < prev.len() - 1 {
                        assert(out@[j] == prev[j]);
                    } else {
                        assert(out@[j] == cur);
                    }
                }
            }
            cur = p;
        }
        out
    }

    /// `id` and the siblings after it, in order.
    pub(crate) fn following_siblings_of(&self, id: NodeId) -> (r: Vec<NodeId>)
        requires
            self.wf(),
            self.contains(id),
        ensures
            r@ == self.siblings(id).subrange(pos_in(self.siblings(id), id), self.siblings(id).len() as int),
    {
        proof {
            self.lemma_sibling_links(id);
            self.lemma_siblings_nodup(id);
        }
        let ghost grp = self.siblings(id);
        let ghost k = pos_in(grp, id);
        let mut out: Vec<NodeId> = Vec::new();
        let mut cur = Some(id);
        while cur.is_some()
            invariant
                self.wf(),
                grp == self.siblings(id),
                grp.no_duplicates(),
                0 <= k < grp.len(),
                grp[k] == id,
                forall|x: NodeId| #[trigger] grp.contains(x) ==> self.contains(x) && self.siblings(x) == grp,
                k + out@.len() <= grp.len(),
                out@ == grp.subrange(k, k + out@.len()),
                cur == link_next(grp, k + out@.len()),
            decreases grp.len() - out@.len(),
        {
            let c = cur.unwrap();
            proof {
                let j = k + out@.len();
                assert(grp.contains(grp[j]));
                self.lemma_sibling_links(c);
                assert(pos_in(grp, c) == j);
            }
            out.push(c);
            cur = self.nodes.get_unchecked(c.index).next_sibling;
            proof {
                assert(out@ =~= grp.subrange(k, k + out@.len()));
            }
        }
        out
    }

    /// `id` and the siblings before it, nearest first.
    pub(crate) fn preceding_siblings_of(&self, id: NodeId) -> (r: Vec<NodeId>)
        requires
            self.wf(),
            self.contains(id),
        ensures
            r@ == self.siblings(id).subrange(0, pos_in(self.siblings(id), id) + 1).reverse(),
    {
        proof {
            self.lemma_sibling_links(id);
            self.lemma_siblings_nodup(id);
        }
        let ghost grp = self.siblings(id);
        let ghost k = pos_in(grp, id);
        let mut out: Vec<NodeId> = Vec::new();
        let mut cur = Some(id);
        while cur.is_some()
            invariant
                self.wf(),
                grp == self.siblings(id),
                grp.no_duplicates(),
                0 <= k < grp.len(),
                grp[k] == id,
                forall|x: NodeId| #[trigger] grp.contains(x) ==> self.contains(x) && self.siblings(x) == grp,
                out@.len() <= k + 1,
                out@ == grp.subrange(k + 1 - out@.len(), k + 1).reverse(),
                cur == (if out@.len() <= k { Some(grp[k - out@.len()]) } else { None::<NodeId> }),
            decreases k + 1 - out@.len(),
        {
            let c = cur.unwrap();
            proof {
                let j = k - out@.len();
                assert(grp.contains(grp[j]));
                self.lemma_sibling_links(c);
                assert(pos_in(grp, c) == j);
            }
            out.push(c);
            cur = self.nodes.get_unchecked(c.index).previous_sibling;
            proof {
                assert(out@ =~= grp.subrange(k + 1 - out@.len(), k + 1).reverse());
            }
        }
        out
    }

    /// The nodes in the order in which they are stored.
    pub closed spec fn stored_nodes(&self) -> Seq<Node<T>> {
        self.nodes.dense_values()
    }

    /// The stored order lists each node once, under its own identifier.
    pub proof fn lemma_stored(&self)
        requires
            self.wf(),
        ensures
            self.stored_nodes().len() == self.stored_ids().len(),
            self.stored_ids().no_duplicates(),
            forall|i: int|
                #![trigger self.stored_nodes()[i]]
                0 <= i < self.stored_ids().len() ==> self.contains(NodeId::from_index(self.stored_ids()[i]))
                    && self.stored_nodes()[i] == self.node(NodeId::from_index(self.stored_ids()[i])),
            forall|x: NodeId| #[trigger] self.contains(x) ==> self.stored_ids().contains(x.spec_index()),
            forall|x: NodeId| #[trigger] self.contains(x) ==> self.node(x).spec_id() == x,
            self@.dom().len() == self.stored_ids().len(),
    {
        self.nodes.lemma_layout();
        assert forall|x: NodeId| #[trigger] self.contains(x) implies self.stored_ids().contains(x.spec_index()) by {
            let j = self.nodes.position(x.index);
            assert(self.stored_ids()[j] == x.index);
        }
        assert forall|x: NodeId| #[trigger] self.contains(x) implies self.node(x).spec_id() == x by {
            self.lemma_node(x.index);
        }
    }

    /// The data of all nodes, in the order in which they are stored, one at a
    /// time, for writing.
    pub fn all_nodes_mut(&mut self) -> (r: AllNodesMut<'_, T>)
        requires
            old(self).wf(),
        ensures
            r.wf(),
            *r.arena == *old(self),
            r.remaining().len() == old(self).stored_ids().len(),
            forall|k: int| 0 <= k < r.remaining().len() ==> #[trigger] r.remaining()[k].spec_index() == old(self).stored_ids()[k],
            *final(self) == *final(r.arena),
    {
        proof {
            self.nodes.lemma_layout();
        }
        let keys = self.nodes.keys();
        let mut ids: Vec<NodeId> = Vec::new();
        let mut k: usize = 0;
        while k < keys.len()
            invariant
                keys@ == self.stored_ids(),
                self.nodes.wf(),
                k <= keys@.len(),
                ids@.len() == k,
                forall|j: int| 0 <= j < k ==> #[trigger] ids@[j].index == keys@[j],
            decreases keys@.len() - k,
        {
            ids.push(NodeId { index: keys[k] });
            k = k + 1;
        }
        let ghost before = *self;
        let r = AllNodesMut { arena: self, ids, next: 0 };
        proof {
            assert(r.remaining() =~= r.ids@);
            assert forall|j: int| 0 <= j < r.ids@.len() implies r.arena.contains(#[trigger] r.ids@[j]) by {
                assert(before.stored_ids()[j] == r.ids@[j].index);
                assert(before.nodes@.contains_key(before.stored_ids()[j]));
            }
        }
        r
    }

    /// All nodes, in the order in which they are stored, one at a time.
    pub fn all_nodes(&self) -> (r: AllNodes<'_, T>)
        ensures
            r.wf(),
            r.remaining() == self.stored_nodes(),
    {
        let r = AllNodes { nodes: self.nodes.values(), next: 0 };
        assert(r.remaining() =~= self.stored_nodes());
        r
    }
}


/// The nodes of an arena, one at a time, in the order in which they are
/// stored.
pub struct AllNodes<'a, T> {
    nodes: &'a [Node<T>],
    next: usize,
}

impl<'a, T> AllNodes<'a, T> {
    /// The nodes not yet handed out.
    pub closed spec fn remaining(&self) -> Seq<Node<T>> {
        self.nodes@.subrange(self.next as int, self.nodes@.len() as int)
    }

    pub closed spec fn wf(&self) -> bool {
        self.next <= self.nodes@.len()
    }

    /// The next node, if any is left.
    pub fn next(&mut self) -> (r: Option<&'a Node<T>>)
        requires
            old(self).wf(),
        ensures
            final(self).wf(),
            old(self).remaining().len() == 0 ==> r is None && final(self).remaining() == old(self).remaining(),
            old(self).remaining().len() > 0 ==> {
                &&& r == Some(&old(self).remaining()[0])
                &&& final(self).remaining() == old(self).remaining().drop_first()
            },
    {
        if self.next < self.nodes.len() {
            let n = &self.nodes[self.next];
            self.next = self.next + 1;
            assert(self.remaining() =~= old(self).remaining().drop_first());
            Some(n)
        } else {
            None
        }
    }
}

/// The data of the nodes of an arena, one at a time, in the order in which
/// the nodes are stored, for writing.
pub struct AllNodesMut<'a, T> {
    pub arena: &'a mut Arena<T>,
    pub ids: Vec<NodeId>,
    pub next: usize,
}

impl<'a, T> AllNodesMut<'a, T> {
    /// The nodes whose data is not yet handed out.
    pub open spec fn remaining(&self) -> Seq<NodeId> {
        self.ids@.subrange(self.next as int, self.ids@.len() as int)
    }

    pub open spec fn wf(&self) -> bool {
        &&& self.arena.wf()
        &&& self.next <= self.ids@.len()
        &&& forall|k: int| 0 <= k < self.ids@.len() ==> self.arena.contains(#[trigger] self.ids@[k])
    }

    /// The data of the next node, if any is left.
    pub fn next(&mut self) -> (r: Option<&mut T>)
        requires
            old(self).wf(),
        ensures
            final(self).wf(),
            old(self).remaining().len() == 0 ==> r is None && *final(self) == *old(self),
            old(self).remaining().len() > 0 ==> {
                let x = old(self).remaining()[0];
                &&& r is Some
                &&& *r->0 == old(self).arena.data(x)
                &&& final(self).remaining() == old(self).remaining().drop_first()
                &&& final(self).arena.data(x) == *final(r->0)
                &&& forall|y: NodeId| y != x && old(self).arena.contains(y) ==> #[trigger] final(self).arena.data(y)
                    == old(self).arena.data(y)
                &&& forall|y: NodeId| #[trigger] final(self).arena.parent(y) == old(self).arena.parent(y)
                &&& forall|y: NodeId| #[trigger] final(self).arena.children(y) == old(self).arena.children(y)
            },
    {
        if self.next < self.ids.len() {
            let x = self.ids[self.next];
            self.next = self.next + 1;
            proof {
                assert(self.remaining() =~= old(self).remaining().drop_first());
                assert(self.arena.contains(self.ids@[self.next - 1]));
            }
            Some(self.arena.data_mut(x))
        } else {
            None
        }
    }
}

impl NodeId {
    /// this node and its ancestors, from this node up to the root of its tree.
    pub fn ancestors<T>(self, arena: &Arena<T>) -> (r: Vec<NodeId>)
        requires
            arena.wf(),
            arena.contains(self),
        ensures
            r@.len() > 0,
            r@[0] == self,
            forall|j: int| 0 <= j < r@.len() ==> arena.contains(#[trigger] r@[j]),
            forall|j: int| 0 <= j < r@.len() - 1 ==> arena.parent(#[trigger] r@[j]) == Some(r@[j + 1]),
            arena.parent(r@.last()) is None,
    {
        arena.ancestors_of(self)
    }

    /// this node and the siblings before it, nearest first.
    pub fn preceding_siblings<T>(self, arena: &Arena<T>) -> (r: Vec<NodeId>)
        requires
            arena.wf(),
            arena.contains(self),
        ensures
            r@ == arena.siblings(self).subrange(0, pos_in(arena.siblings(self), self) + 1).reverse(),
    {
        arena.preceding_siblings_of(self)
    }

    /// this node and the siblings after it, in order.
    pub fn following_siblings<T>(self, arena: &Arena<T>) -> (r: Vec<NodeId>)
        requires
            arena.wf(),
            arena.contains(self),
        ensures
            r@ == arena.siblings(self).subrange(pos_in(arena.siblings(self), self), arena.siblings(self).len() as int),
    {
        arena.following_siblings_of(self)
    }

    /// The children of this node, first to last.
    pub fn children<T>(self, arena: &Arena<T>) -> (r: Vec<NodeId>)
        requires
            arena.wf(),
            arena.contains(self),
        ensures
            r@ == arena.children(self),
    {
        arena.children_of(self)
    }

    /// The children of this node, last to first.
    pub fn reverse_children<T>(self, arena: &Arena<T>) -> (r: Vec<NodeId>)
        requires
            arena.wf(),
            arena.contains(self),
        ensures
            r@ == arena.children(self).reverse(),
    {
        arena.reverse_children_of(self)
    }

    /// The subtree of this node in tree order, this node first.
    pub fn descendants<T>(self, arena: &Arena<T>) -> (r: Vec<NodeId>)
        requires
            arena.wf(),
            arena.contains(self),
        ensures
            r@ == arena.descendants(self),
    {
        arena.descendants_of(self)
    }

    /// The walk through the subtree of this node: `Start` of a node before its
    /// descendants, `End` after them.
    pub fn traverse<T>(self, arena: &Arena<T>) -> (r: Vec<NodeEdge<NodeId>>)
        requires
            arena.wf(),
            arena.contains(self),
        ensures
            r@ == arena.traversal(self),
    {
        arena.traverse(self)
    }

    /// The walk through the subtree of this node backwards: the `End` of a node
    /// first, its children last to first, its `Start` last.
    pub fn reverse_traverse<T>(self, arena: &Arena<T>) -> (r: Vec<NodeEdge<NodeId>>)
        requires
            arena.wf(),
            arena.contains(self),
        ensures
            r@ == arena.traversal(self).reverse(),
    {
        arena.reverse_traverse(self)
    }

    /// Takes a node out of its parent and sibling group. Its children stay.
    pub fn detach<T>(self, arena: &mut Arena<T>)
        requires
            old(arena).wf(),
            old(arena).contains(self),
        ensures
            final(arena).wf(),
            final(arena)@.dom() == old(arena)@.dom(),
            final(arena).spec_next_id() == old(arena).spec_next_id(),
            final(arena).stored_ids() == old(arena).stored_ids(),
            forall|x: NodeId| old(arena).contains(x) ==> #[trigger] final(arena).data(x) == old(arena).data(x),
            final(arena).parent(self) is None,
            final(arena).siblings(self) == seq![self],
            forall|x: NodeId|
                #![trigger final(arena).parent(x)]
                old(arena).contains(x) && x != self ==> final(arena).parent(x) == old(arena).parent(x),
            forall|x: NodeId|
                #![trigger final(arena).siblings(x)]
                old(arena).contains(x) ==> final(arena).siblings(x) == old(arena).siblings_without(x, self),
            forall|x: NodeId|
                #![trigger final(arena).children(x)]
                old(arena).contains(x) ==> final(arena).children(x) == old(arena).children_without(x, self),
            forall|a: NodeId, x: NodeId|
                #![trigger final(arena).is_ancestor(a, x)]
                final(arena).is_ancestor(a, x) && old(arena).contains(x) ==> old(arena).is_ancestor(a, x),
            final(arena).descendants(self) == old(arena).descendants(self),
    {
        let ghost a0 = *arena;
        arena.detach(self);
        proof {
            a0.lemma_moved_subtree(arena, self, None);
        }
    }
}

impl NodeId {
    /// Appends `new_child` to the children of this node, after the existing
    /// ones, taking it out of wherever it was first.
    pub fn append<T>(self, new_child: NodeId, arena: &mut Arena<T>) -> (r: NodeId)
        requires
            old(arena).wf(),
            old(arena).contains(self),
            old(arena).contains(new_child),
            self != new_child,
            !old(arena).is_ancestor(new_child, self),
        ensures
            r == new_child,
            final(arena).wf(),
            final(arena)@.dom() == old(arena)@.dom(),
            final(arena).spec_next_id() == old(arena).spec_next_id(),
            final(arena).stored_ids() == old(arena).stored_ids(),
            forall|x: NodeId| old(arena).contains(x) ==> #[trigger] final(arena).data(x) == old(arena).data(x),
            final(arena).parent(new_child) == Some(self),
            forall|x: NodeId|
                #![trigger final(arena).parent(x)]
                old(arena).contains(x) && x != new_child ==> final(arena).parent(x) == old(arena).parent(x),
            final(arena).children(self) == old(arena).children_without(self, new_child).push(new_child),
            final(arena).descendants(new_child) == old(arena).descendants(new_child),
            forall|y: NodeId|
                #![trigger final(arena).children(y)]
                old(arena).contains(y) && y != self ==> final(arena).children(y) == old(
                    arena,
                ).children_without(y, new_child),
            forall|x: NodeId|
                #![trigger final(arena).siblings(x)]
                old(arena).contains(x) ==> final(arena).siblings(x) == if x == new_child || old(
                    arena,
                ).children_without(self, new_child).contains(x) {
                    old(arena).children_without(self, new_child).push(new_child)
                } else {
                    old(arena).siblings_without(x, new_child)
                },
    {
        let ghost a0 = *arena;
        arena.detach(new_child);
        let last = arena.nodes.get_unchecked(self.index).last_child;
        let ghost grp = arena.children(self);
        proof {
            arena.lemma_children_ends(self);
            arena.lemma_ready(new_child, Some(self), grp, grp.len() as int);
        }
        arena.relink(new_child, Some(self), last, None, Ghost(grp), Ghost(grp.len() as int));
        proof {
            assert(grp.insert(grp.len() as int, new_child) =~= grp.push(new_child));
            a0.lemma_moved_subtree(arena, new_child, Some(self));
        }
        new_child
    }

    /// Creates a node holding `new_data` and appends it to the children of
    /// this node.
    pub fn append_new<T>(self, new_data: T, arena: &mut Arena<T>) -> (r: NodeId)
        requires
            old(arena).wf(),
            old(arena).contains(self),
            old(arena).spec_next_id() + 1 < usize::MAX,
        ensures
            final(arena).wf(),
            r.spec_index() == old(arena).spec_next_id(),
            !old(arena).contains(r),
            final(arena)@.dom() == old(arena)@.dom().insert(r.spec_index()),
            final(arena).spec_next_id() == old(arena).spec_next_id() + 1,
            final(arena).stored_ids() == old(arena).stored_ids().push(r.spec_index()),
            final(arena).data(r) == new_data,
            forall|x: NodeId| old(arena).contains(x) ==> #[trigger] final(arena).data(x) == old(arena).data(x),
            final(arena).parent(r) == Some(self),
            final(arena).children(r) == Seq::<NodeId>::empty(),
            forall|x: NodeId|
                #![trigger final(arena).parent(x)]
                old(arena).contains(x) ==> final(arena).parent(x) == old(arena).parent(x),
            final(arena).children(self) == old(arena).children(self).push(r),
            forall|y: NodeId|
                #![trigger final(arena).children(y)]
                old(arena).contains(y) && y != self ==> final(arena).children(y) == old(arena).children(y),
            forall|x: NodeId|
                #![trigger final(arena).siblings(x)]
                old(arena).contains(x) ==> final(arena).siblings(x) == if old(arena).children(self).contains(x) {
                    old(arena).children(self).push(r)
                } else {
                    old(arena).siblings(x)
                },
    {
        let ghost a0 = *arena;
        let new_node = arena.new_node(new_data);
        proof {
            arena.lemma_childless_not_ancestor(new_node, self);
            arena.lemma_children_ends(self);
            if a0.children(self).contains(new_node) {
                a0.lemma_children_ends(self);
            }
            assert(arena.children_without(self, new_node) == a0.children(self));
            assert forall|y: NodeId| #[trigger] a0.contains(y) implies arena.children_without(y, new_node)
                == a0.children(y) by {
            }
            assert forall|x: NodeId| #[trigger] a0.contains(x) implies arena.siblings_without(x, new_node)
                == a0.siblings(x) by {
                if arena.siblings(new_node).contains(x) {
                    assert(seq![new_node].contains(x));
                    assert(seq![new_node][0] == new_node);
                }
            }
        }
        self.append(new_node, arena)
    }

    /// Prepends `new_child` to the children of this node, before the
    /// existing ones, taking it out of wherever it was first.
    pub fn prepend<T>(self, new_child: NodeId, arena: &mut Arena<T>) -> (r: NodeId)
        requires
            old(arena).wf(),
            old(arena).contains(self),
            old(arena).contains(new_child),
            self != new_child,
            !old(arena).is_ancestor(new_child, self),
        ensures
            r == new_child,
            final(arena).wf(),
            final(arena)@.dom() == old(arena)@.dom(),
            final(arena).spec_next_id() == old(arena).spec_next_id(),
            final(arena).stored_ids() == old(arena).stored_ids(),
            forall|x: NodeId| old(arena).contains(x) ==> #[trigger] final(arena).data(x) == old(arena).data(x),
            final(arena).parent(new_child) == Some(self),
            forall|x: NodeId|
                #![trigger final(arena).parent(x)]
                old(arena).contains(x) && x != new_child ==> final(arena).parent(x) == old(arena).parent(x),
            final(arena).children(self) == seq![new_child] + old(arena).children_without(self, new_child),
            final(arena).descendants(new_child) == old(arena).descendants(new_child),
            forall|y: NodeId|
                #![trigger final(arena).children(y)]
                old(arena).contains(y) && y != self ==> final(arena).children(y) == old(
                    arena,
                ).children_without(y, new_child),
            forall|x: NodeId|
                #![trigger final(arena).siblings(x)]
                old(arena).contains(x) ==> final(arena).siblings(x) == if x == new_child || old(
                    arena,
                ).children_without(self, new_child).contains(x) {
                    seq![new_child] + old(arena).children_without(self, new_child)
                } else {
                    old(arena).siblings_without(x, new_child)
                },
    {
        let ghost a0 = *arena;
        arena.detach(new_child);
        let first = arena.nodes.get_unchecked(self.index).first_child;
        let ghost grp = arena.children(self);
        proof {
            arena.lemma_children_ends(self);
            arena.lemma_ready(new_child, Some(self), grp, 0);
        }
        arena.relink(new_child, Some(self), None, first, Ghost(grp), Ghost(0));
        proof {
            assert(grp.insert(0, new_child) =~= seq![new_child] + grp);
            a0.lemma_moved_subtree(arena, new_child, Some(self));
        }
        new_child
    }

    /// Inserts `new_sibling` right after this node in its sibling group,
    /// taking it out of wherever it was first.
    pub fn insert_after<T>(self, new_sibling: NodeId, arena: &mut Arena<T>) -> (r: NodeId)
        requires
            old(arena).wf(),
            old(arena).contains(self),
            old(arena).contains(new_sibling),
            self != new_sibling,
            !old(arena).is_ancestor(new_sibling, self),
        ensures
            r == new_sibling,
            final(arena).wf(),
            final(arena)@.dom() == old(arena)@.dom(),
            final(arena).spec_next_id() == old(arena).spec_next_id(),
            final(arena).stored_ids() == old(arena).stored_ids(),
            forall|x: NodeId| old(arena).contains(x) ==> #[trigger] final(arena).data(x) == old(arena).data(x),
            final(arena).parent(new_sibling) == old(arena).parent(self),
            final(arena).descendants(new_sibling) == old(arena).descendants(new_sibling),
            forall|x: NodeId|
                #![trigger final(arena).parent(x)]
                old(arena).contains(x) && x != new_sibling ==> final(arena).parent(x) == old(arena).parent(x),
            ({
                let grp = old(arena).siblings_without(self, new_sibling);
                let big = grp.insert(pos_in(grp, self) + 1, new_sibling);
                &&& forall|y: NodeId|
                    #![trigger final(arena).children(y)]
                    old(arena).contains(y) ==> final(arena).children(y) == if old(arena).parent(self)
                        == Some(y) {
                        big
                    } else {
                        old(arena).children_without(y, new_sibling)
                    }
                &&& forall|x: NodeId|
                    #![trigger final(arena).siblings(x)]
                    old(arena).contains(x) ==> final(arena).siblings(x) == if x == new_sibling
                        || grp.contains(x) {
                        big
                    } else {
                        old(arena).siblings_without(x, new_sibling)
                    }
            }),
    {
        let ghost a0 = *arena;
        arena.detach(new_sibling);
        let ghost grp = arena.siblings(self);
        let ghost k = pos_in(grp, self);
        let parent = arena.nodes.get_unchecked(self.index).parent;
        let next = arena.nodes.get_unchecked(self.index).next_sibling;
        proof {
            arena.lemma_sibling_links(self);
            arena.lemma_ready_beside(a0, new_sibling, self, k + 1);
        }
        arena.relink(new_sibling, parent, Some(self), next, Ghost(grp), Ghost(k + 1));
        proof {
            if let Some(p) = a0.parent(self) {
                if a0.is_ancestor(new_sibling, p) {
                    a0.lemma_parent_ancestor(new_sibling, self);
                }
            }
            a0.lemma_moved_subtree(arena, new_sibling, a0.parent(self));
        }
        new_sibling
    }

    /// Inserts `new_sibling` right before this node in its sibling group,
    /// taking it out of wherever it was first.
    pub fn insert_before<T>(self, new_sibling: NodeId, arena: &mut Arena<T>) -> (r: NodeId)
        requires
            old(arena).wf(),
            old(arena).contains(self),
            old(arena).contains(new_sibling),
            self != new_sibling,
            !old(arena).is_ancestor(new_sibling, self),
        ensures
            r == new_sibling,
            final(arena).wf(),
            final(arena)@.dom() == old(arena)@.dom(),
            final(arena).spec_next_id() == old(arena).spec_next_id(),
            final(arena).stored_ids() == old(arena).stored_ids(),
            forall|x: NodeId| old(arena).contains(x) ==> #[trigger] final(arena).data(x) == old(arena).data(x),
            final(arena).parent(new_sibling) == old(arena).parent(self),
            final(arena).descendants(new_sibling) == old(arena).descendants(new_sibling),
            forall|x: NodeId|
                #![trigger final(arena).parent(x)]
                old(arena).contains(x) && x != new_sibling ==> final(arena).parent(x) == old(arena).parent(x),
            ({
                let grp = old(arena).siblings_without(self, new_sibling);
                let big = grp.insert(pos_in(grp, self), new_sibling);
                &&& forall|y: NodeId|
                    #![trigger final(arena).children(y)]
                    old(arena).contains(y) ==> final(arena).children(y) == if old(arena).parent(self)
                        == Some(y) {
                        big
                    } else {
                        old(arena).children_without(y, new_sibling)
                    }
                &&& forall|x: NodeId|
                    #![trigger final(arena).siblings(x)]
                    old(arena).contains(x) ==> final(arena).siblings(x) == if x == new_sibling
                        || grp.contains(x) {
                        big
                    } else {
                        old(arena).siblings_without(x, new_sibling)
                    }
            }),
    {
        let ghost a0 = *arena;
        arena.detach(new_sibling);
        let ghost grp = arena.siblings(self);
        let ghost k = pos_in(grp, self);
        let parent = arena.nodes.get_unchecked(self.index).parent;
        let prev = arena.nodes.get_unchecked(self.index).previous_sibling;
        proof {
            arena.lemma_sibling_links(self);
            arena.lemma_ready_beside(a0, new_sibling, self, k);
        }
        arena.relink(new_sibling, parent, prev, Some(self), Ghost(grp), Ghost(k));
        proof {
            if let Some(p) = a0.parent(self) {
                if a0.is_ancestor(new_sibling, p) {
                    a0.lemma_parent_ancestor(new_sibling, self);
                }
            }
            a0.lemma_moved_subtree(arena, new_sibling, a0.parent(self));
        }
        new_sibling
    }

    /// Creates a node holding `new_data` and prepends it to the children of this node.
    pub fn prepend_new<T>(self, new_data: T, arena: &mut Arena<T>) -> (r: NodeId)
        requires
            old(arena).wf(),
            old(arena).contains(self),
            old(arena).spec_next_id() + 1 < usize::MAX,
        ensures
            final(arena).wf(),
            r.spec_index() == old(arena).spec_next_id(),
            !old(arena).contains(r),
            final(arena)@.dom() == old(arena)@.dom().insert(r.spec_index()),
            final(arena).spec_next_id() == old(arena).spec_next_id() + 1,
            final(arena).stored_ids() == old(arena).stored_ids().push(r.spec_index()),
            final(arena).data(r) == new_data,
            forall|x: NodeId| old(arena).contains(x) ==> #[trigger] final(arena).data(x) == old(arena).data(x),
            forall|x: NodeId|
                #![trigger final(arena).parent(x)]
                old(arena).contains(x) ==> final(arena).parent(x) == old(arena).parent(x),
            final(arena).children(r) == Seq::<NodeId>::empty(),
            final(arena).parent(r) == Some(self),
            final(arena).children(self) == seq![r] + old(arena).children(self),
            forall|y: NodeId|
                #![trigger final(arena).children(y)]
                old(arena).contains(y) && y != self ==> final(arena).children(y) == old(arena).children(y),
            forall|x: NodeId|
                #![trigger final(arena).siblings(x)]
                old(arena).contains(x) ==> final(arena).siblings(x) == if old(arena).children(self).contains(x) {
                    seq![r] + old(arena).children(self)
                } else {
                    old(arena).siblings(x)
                },
    {
        let ghost a0 = *arena;
        let new_node = arena.new_node(new_data);
        proof {
            arena.lemma_childless_not_ancestor(new_node, self);
            if a0.parent(self) is Some {
                a0.lemma_siblings_are_children(self);
            }
            assert forall|y: NodeId| #[trigger] a0.contains(y) implies arena.children_without(y, new_node)
                == a0.children(y) by {
            }
            assert forall|x: NodeId| #[trigger] a0.contains(x) implies arena.siblings_without(x, new_node)
                == a0.siblings(x) by {
                if arena.siblings(new_node).contains(x) {
                    assert(seq![new_node].contains(x));
                    assert(seq![new_node][0] == new_node);
                }
            }
        }
        self.prepend(new_node, arena)
    }

    /// Creates a node holding `new_data` and inserts it right after this node.
    pub fn insert_after_new<T>(self, new_data: T, arena: &mut Arena<T>) -> (r: NodeId)
        requires
            old(arena).wf(),
            old(arena).contains(self),
            old(arena).spec_next_id() + 1 < usize::MAX,
        ensures
            final(arena).wf(),
            r.spec_index() == old(arena).spec_next_id(),
            !old(arena).contains(r),
            final(arena)@.dom() == old(arena)@.dom().insert(r.spec_index()),
            final(arena).spec_next_id() == old(arena).spec_next_id() + 1,
            final(arena).stored_ids() == old(arena).stored_ids().push(r.spec_index()),
            final(arena).data(r) == new_data,
            forall|x: NodeId| old(arena).contains(x) ==> #[trigger] final(arena).data(x) == old(arena).data(x),
            forall|x: NodeId|
                #![trigger final(arena).parent(x)]
                old(arena).contains(x) ==> final(arena).parent(x) == old(arena).parent(x),
            final(arena).children(r) == Seq::<NodeId>::empty(),
            final(arena).parent(r) == old(arena).parent(self),
            ({
                let grp = old(arena).siblings(self);
                let big = grp.insert(pos_in(grp, self) + 1, r);
                &&& forall|y: NodeId|
                    #![trigger final(arena).children(y)]
                    old(arena).contains(y) ==> final(arena).children(y) == if old(arena).parent(self)
                        == Some(y) {
                        big
                    } else {
                        old(arena).children(y)
                    }
                &&& forall|x: NodeId|
                    #![trigger final(arena).siblings(x)]
                    old(arena).contains(x) ==> final(arena).siblings(x) == if grp.contains(x) {
                        big
                    } else {
                        old(arena).siblings(x)
                    }
            }),
    {
        let ghost a0 = *arena;
        let new_node = arena.new_node(new_data);
        proof {
            arena.lemma_childless_not_ancestor(new_node, self);
            if a0.parent(self) is Some {
                a0.lemma_siblings_are_children(self);
            }
            assert forall|y: NodeId| #[trigger] a0.contains(y) implies arena.children_without(y, new_node)
                == a0.children(y) by {
            }
            assert forall|x: NodeId| #[trigger] a0.contains(x) implies arena.siblings_without(x, new_node)
                == a0.siblings(x) by {
                if arena.siblings(new_node).contains(x) {
                    assert(seq![new_node].contains(x));
                    assert(seq![new_node][0] == new_node);
                }
            }
        }
        self.insert_after(new_node, arena)
    }

    /// Creates a node holding `new_data` and inserts it right before this node.
    pub fn insert_before_new<T>(self, new_data: T, arena: &mut Arena<T>) -> (r: NodeId)
        requires
            old(arena).wf(),
            old(arena).contains(self),
            old(arena).spec_next_id() + 1 < usize::MAX,
        ensures
            final(arena).wf(),
            r.spec_index() == old(arena).spec_next_id(),
            !old(arena).contains(r),
            final(arena)@.dom() == old(arena)@.dom().insert(r.spec_index()),
            final(arena).spec_next_id() == old(arena).spec_next_id() + 1,
            final(arena).stored_ids() == old(arena).stored_ids().push(r.spec_index()),
            final(arena).data(r) == new_data,
            forall|x: NodeId| old(arena).contains(x) ==> #[trigger] final(arena).data(x) == old(arena).data(x),
            forall|x: NodeId|
                #![trigger final(arena).parent(x)]
                old(arena).contains(x) ==> final(arena).parent(x) == old(arena).parent(x),
            final(arena).children(r) == Seq::<NodeId>::empty(),
            final(arena).parent(r) == old(arena).parent(self),
            ({
                let grp = old(arena).siblings(self);
                let big = grp.insert(pos_in(grp, self), r);
                &&& forall|y: NodeId|
                    #![trigger final(arena).children(y)]
                    old(arena).contains(y) ==> final(arena).children(y) == if old(arena).parent(self)
                        == Some(y) {
                        big
                    } else {
                        old(arena).children(y)
                    }
                &&& forall|x: NodeId|
                    #![trigger final(arena).siblings(x)]
                    old(arena).contains(x) ==> final(arena).siblings(x) == if grp.contains(x) {
                        big
                    } else {
                        old(arena).siblings(x)
                    }
            }),
    {
        let ghost a0 = *arena;
        let new_node = arena.new_node(new_data);
        proof {
            arena.lemma_childless_not_ancestor(new_node, self);
            if a0.parent(self) is Some {
                a0.lemma_siblings_are_children(self);
            }
            assert forall|y: NodeId| #[trigger] a0.contains(y) implies arena.children_without(y, new_node)
                == a0.children(y) by {
            }
            assert forall|x: NodeId| #[trigger] a0.contains(x) implies arena.siblings_without(x, new_node)
                == a0.siblings(x) by {
                if arena.siblings(new_node).contains(x) {
                    assert(seq![new_node].contains(x));
                    assert(seq![new_node][0] == new_node);
                }
            }
        }
        self.insert_before(new_node, arena)
    }
}

} // verus!
