//! The search tree: an arena of nodes that refer to each other by position.

use crate::board::{cells, Board, FieldData};
use vstd::prelude::*;

verus! {

/// One explored position of the game.
#[derive(Clone)]
pub struct Node {
    /// Position of the parent in the arena; none for the root.
    pub parent: Option<usize>,
    /// Positions of the expanded successors, in the order of their creation.
    pub children: Vec<usize>,
    /// Sum of the outcomes of the simulations that passed through the node.
    pub value: i32,
    /// Number of simulations that passed through the node.
    pub visits: i32,
    /// The grid reached by playing `action` from the parent's grid.
    pub state: Board,
    /// The cell played to reach this node; none for the root.
    pub action: Option<usize>,
    /// Position of the node itself in the arena.
    pub id: usize,
}

/// The arena, in order of insertion, and the position of the root.
pub struct Tree {
    pub nodes: Vec<Node>,
    pub root: usize,
}

/// A node as the contracts see it.
pub struct NodeView {
    pub parent: Option<usize>,
    pub children: Seq<usize>,
    pub value: int,
    pub visits: int,
    pub state: Seq<FieldData>,
    pub action: Option<usize>,
    pub id: usize,
}

impl View for Node {
    type V = NodeView;

    open spec fn view(&self) -> NodeView {
        NodeView {
            parent: self.parent,
            children: self.children@,
            value: self.value as int,
            visits: self.visits as int,
            state: cells(self.state),
            action: self.action,
            id: self.id,
        }
    }
}

impl View for Tree {
    type V = Seq<NodeView>;

    open spec fn view(&self) -> Seq<NodeView> {
        Seq::new(self.nodes@.len(), |i: int| self.nodes@[i]@)
    }
}

/// Node `i` names an earlier node as its parent, and that node lists it.
pub open spec fn has_parent(t: Seq<NodeView>, i: int) -> bool {
    t[i].parent matches Some(p) && p < i && t[p as int].children.contains(i as usize)
}

/// Node `c` is a later node of the arena whose parent is node `i`.
pub open spec fn is_child(t: Seq<NodeView>, i: int, c: usize) -> bool {
    i < c < t.len() && t[c as int].parent == Some(i as usize)
}

/// The shape that every tree of this library has: node 0 is the root and
/// has no parent; every other node has a parent that was inserted before
/// it and lists it among its children; every listed child is a later node
/// that names the lister as its parent; and every node knows its position.
pub open spec fn well_formed(t: Seq<NodeView>) -> bool {
    &&& t.len() > 0
    &&& t[0].parent is None
    &&& forall|i: int| 0 <= i < t.len() ==> (#[trigger] t[i]).id == i
    &&& forall|i: int| 1 <= i < t.len() ==> #[trigger] has_parent(t, i)
    &&& forall|i: int, k: int|
        0 <= i < t.len() && 0 <= k < t[i].children.len() ==> is_child(
            t,
            i,
            #[trigger] t[i].children[k],
        )
}

/// Whether node `i` lies on the way from node `from` up to the root: it is
/// `from` itself or one of its ancestors.
pub open spec fn on_path(t: Seq<NodeView>, from: int, i: int) -> bool
    decreases from,
{
    if from < 0 || from >= t.len() {
        false
    } else if i == from {
        true
    } else {
        match t[from].parent {
            Some(p) => p < from && on_path(t, p as int, i),
            None => false,
        }
    }
}

/// A node with one more visit and `amount` more value.
pub open spec fn credited(n: NodeView, amount: int) -> NodeView {
    NodeView { visits: n.visits + 1, value: n.value + amount, ..n }
}

/// A node that lists one more child.
pub open spec fn with_child(n: NodeView, child: usize) -> NodeView {
    NodeView { children: n.children.push(child), ..n }
}

/// The position of the first greatest of the first `n` numbers.
pub open spec fn first_greatest_upto(v: Seq<int>, n: int) -> int
    decreases n,
{
    if n <= 1 {
        0
    } else if v[n - 1] > v[first_greatest_upto(v, n - 1)] {
        n - 1
    } else {
        first_greatest_upto(v, n - 1)
    }
}

/// The position of the first greatest number of a sequence.
pub open spec fn first_greatest(v: Seq<int>) -> int {
    first_greatest_upto(v, v.len() as int)
}

/// The values of the children of node `i`, in the order of the children.
pub open spec fn child_values(t: Seq<NodeView>, i: int) -> Seq<int> {
    Seq::new(t[i].children.len(), |k: int| t[t[i].children[k] as int].value)
}

/// The action that the children of node `i` speak for: that of the first
/// child with the greatest value, or 0 where that child records none.
pub open spec fn best_action(t: Seq<NodeView>, i: int) -> usize {
    match t[t[i].children[first_greatest(child_values(t, i))] as int].action {
        Some(x) => x,
        None => 0,
    }
}

/// The first greatest of the first `n` numbers is one of them, none of them
/// is greater, and each before it is less.
pub proof fn lemma_first_greatest_upto(v: Seq<int>, n: int)
    requires
        1 <= n <= v.len(),
    ensures
        0 <= first_greatest_upto(v, n) < n,
        forall|j: int| 0 <= j < n ==> #[trigger] v[j] <= v[first_greatest_upto(v, n)],
        forall|j: int|
            0 <= j < first_greatest_upto(v, n) ==> #[trigger] v[j] < v[first_greatest_upto(v, n)],
    decreases n,
{
    if n > 1 {
        lemma_first_greatest_upto(v, n - 1);
    }
}

/// Every node on the way from `from` to the root lies at or before `from`.
pub proof fn lemma_path_goes_down(t: Seq<NodeView>, from: int, i: int)
    requires
        on_path(t, from, i),
    ensures
        0 <= i <= from < t.len(),
    decreases from,
{
    if i != from {
        lemma_path_goes_down(t, t[from].parent->0 as int, i);
    }
}

/// The way up from `from` that has reached node `i` goes on to the parent
/// of `i`.
pub proof fn lemma_path_steps_up(t: Seq<NodeView>, from: int, i: int)
    requires
        on_path(t, from, i),
        t[i].parent matches Some(p) && p < i,
    ensures
        on_path(t, from, t[i].parent->0 as int),
    decreases from,
{
    if i != from {
        lemma_path_steps_up(t, t[from].parent->0 as int, i);
    } else {
        lemma_path_goes_down(t, from, i);
        assert(on_path(t, t[i].parent->0 as int, t[i].parent->0 as int));
    }
}

/// Of two nodes on the way up from `from`, the earlier lies on the way up
/// from the later.
pub proof fn lemma_path_is_a_chain(t: Seq<NodeView>, from: int, a: int, b: int)
    requires
        on_path(t, from, a),
        on_path(t, from, b),
        b <= a,
    ensures
        on_path(t, a, b),
    decreases from,
{
    if from != a {
        let p = t[from].parent->0 as int;
        lemma_path_goes_down(t, p, a);
        lemma_path_is_a_chain(t, p, a, b);
    }
}

/// In a well-formed tree the way up from any node ends at the root.
pub proof fn lemma_path_reaches_root(t: Seq<NodeView>, from: int)
    requires
        well_formed(t),
        0 <= from < t.len(),
    ensures
        on_path(t, from, 0),
    decreases from,
{
    if from != 0 {
        assert(has_parent(t, from));
        lemma_path_reaches_root(t, t[from].parent->0 as int);
    }
}

impl Node {
    /// A node without children, visits or value.
    pub fn new(parent: Option<usize>, state: Board, id: usize, action: Option<usize>) -> (r: Node)
        ensures
            r.state == state,
            r@ == (NodeView {
                parent,
                children: Seq::empty(),
                value: 0,
                visits: 0,
                state: cells(state),
                action,
                id,
            }),
    {
        Node { parent, children: Vec::new(), value: 0, visits: 0, state, action, id }
    }
}

impl Tree {
    /// Whether the tree has the shape that `well_formed` describes, with
    /// the root at position 0.
    pub open spec fn wf(&self) -> bool {
        self.root == 0 && well_formed(self@)
    }

    /// The tree that holds `root` and nothing else.
    pub fn initialize(root: Node) -> (r: Tree)
        requires
            root.parent is None,
            root.children@.len() == 0,
            root.id == 0,
        ensures
            r.wf(),
            r.nodes@ == seq![root],
            r@ == seq![root@],
    {
        let mut nodes = Vec::new();
        nodes.push(root);
        let tree = Tree { nodes, root: 0 };
        assert(tree@ =~= seq![root@]);
        tree
    }

    /// Appends `node` to the arena and to the children of its parent.
    pub fn insert_new_node(&mut self, node: Node)
        requires
            old(self).wf(),
            node.parent matches Some(p) && p < old(self)@.len(),
            node.children@.len() == 0,
            node.id == old(self)@.len(),
        ensures
            final(self).wf(),
            final(self)@ == old(self)@.update(
                node.parent->0 as int,
                with_child(old(self)@[node.parent->0 as int], old(self)@.len() as usize),
            ).push(node@),
    {
        let ghost before = self@;
        let parent_index = match node.parent {
            None => 0,
            Some(x) => x,
        };
        self.nodes.push(node);
        let new_node_index = self.nodes.len() - 1;
        self.nodes[parent_index].children.push(new_node_index);
        proof {
            let after = self@;
            assert(after =~= before.update(
                parent_index as int,
                with_child(before[parent_index as int], before.len() as usize),
            ).push(node@));
            assert forall|i: int| 1 <= i < after.len() implies #[trigger] has_parent(after, i) by {
                if i < before.len() {
                    assert(has_parent(before, i));
                    let p = before[i].parent->0 as int;
                    let k = choose|k: int|
                        0 <= k < before[p].children.len() && before[p].children[k] == i as usize;
                    assert(after[p].children[k] == i as usize);
                } else {
                    let listed = before[parent_index as int].children.len() as int;
                    assert(after[parent_index as int].children[listed] == i as usize);
                }
            }
            assert forall|i: int, k: int|
                0 <= i < after.len() && 0 <= k < after[i].children.len() implies is_child(
                after,
                i,
                #[trigger] after[i].children[k],
            ) by {
                if i < before.len() && k < before[i].children.len() {
                    assert(is_child(before, i, before[i].children[k]));
                }
            }
        }
    }

    /// Credits one simulation of outcome `value` to `node_index` and to each
    /// of its ancestors up to the root: one visit more and `value` more
    /// value on each of them, and nothing else changes.
    pub fn back_propagate(&mut self, node_index: usize, value: i32)
        requires
            old(self).wf(),
            forall|i: int|
                0 <= i < old(self)@.len() && on_path(old(self)@, node_index as int, i) ==> {
                    &&& (#[trigger] old(self)@[i]).visits < i32::MAX
                    &&& i32::MIN <= old(self)@[i].value + value <= i32::MAX
                },
        ensures
            final(self).wf(),
            final(self)@.len() == old(self)@.len(),
            forall|i: int|
                0 <= i < old(self)@.len() ==> #[trigger] final(self)@[i] == (if on_path(
                    old(self)@,
                    node_index as int,
                    i,
                ) {
                    credited(old(self)@[i], value as int)
                } else {
                    old(self)@[i]
                }),
            node_index < old(self)@.len() ==> final(self)@[0].visits == old(self)@[0].visits + 1,
    {
        let ghost before = self@;
        let mut idx = node_index;
        let mut going = idx < self.nodes.len();
        proof {
            if going {
                lemma_path_reaches_root(before, node_index as int);
            }
        }
        while going
            invariant
                self.root == 0,
                before == old(self)@,
                well_formed(before),
                self@.len() == before.len(),
                going ==> idx < before.len() && on_path(before, node_index as int, idx as int),
                forall|i: int|
                    0 <= i < before.len() && on_path(before, node_index as int, i) ==> {
                        &&& (#[trigger] before[i]).visits < i32::MAX
                        &&& i32::MIN <= before[i].value + value <= i32::MAX
                    },
                forall|i: int|
                    0 <= i < before.len() ==> #[trigger] self@[i] == (if on_path(
                        before,
                        node_index as int,
                        i,
                    ) && !(going && on_path(before, idx as int, i)) {
                        credited(before[i], value as int)
                    } else {
                        before[i]
                    }),
            decreases (if going { idx + 1 } else { 0 }),
        {
            let ghost here = self@;
            assert(here[idx as int] == before[idx as int]);
            self.nodes[idx].visits += 1;
            self.nodes[idx].value += value;
            let ghost prev_idx = idx;
            match self.nodes[idx].parent {
                Some(parent_index) => {
                    proof {
                        assert(has_parent(before, idx as int));
                        lemma_path_steps_up(before, node_index as int, idx as int);
                    }
                    idx = parent_index;
                },
                None => {
                    going = false;
                },
            }
            proof {
                assert forall|i: int| 0 <= i < before.len() implies #[trigger] self@[i] == (
                if on_path(before, node_index as int, i) && !(going && on_path(
                    before,
                    idx as int,
                    i,
                )) {
                    credited(before[i], value as int)
                } else {
                    before[i]
                }) by {
                    if going && on_path(before, idx as int, i) {
                        lemma_path_goes_down(before, idx as int, i);
                    }
                    if i != prev_idx {
                        assert(self@[i] == here[i]);
                    }
                }
            }
        }
        proof {
            let after = self@;
            assert forall|i: int| 1 <= i < after.len() implies #[trigger] has_parent(after, i) by {
                assert(has_parent(before, i));
            }
            assert forall|i: int, k: int|
                0 <= i < after.len() && 0 <= k < after[i].children.len() implies is_child(
                after,
                i,
                #[trigger] after[i].children[k],
            ) by {
                assert(is_child(before, i, before[i].children[k]));
            }
        }
    }

    /// The action of the child of `node_index` with the greatest value, the
    /// first of them where several have it; 0 where that child records no
    /// action.
    pub fn get_best_action(&self, node_index: usize) -> (r: usize)
        requires
            self.wf(),
            node_index < self@.len(),
            self@[node_index as int].children.len() > 0,
        ensures
            r == best_action(self@, node_index as int),
    {
        let ghost values = child_values(self@, node_index as int);
        let count = self.nodes[node_index].children.len();
        let mut best: usize = 0;
        let mut k: usize = 1;
        assert(self@[node_index as int].children =~= self.nodes@[node_index as int].children@);
        while k < count
            invariant
                1 <= k <= count,
                self.wf(),
                node_index < self@.len(),
                count == self.nodes@[node_index as int].children@.len(),
                self@[node_index as int].children == self.nodes@[node_index as int].children@,
                values == child_values(self@, node_index as int),
                best == first_greatest_upto(values, k as int),
                best < k,
            decreases count - k,
        {
            let candidate = self.nodes[node_index].children[k];
            let holder = self.nodes[node_index].children[best];
            proof {
                let kids = self@[node_index as int].children;
                assert(is_child(self@, node_index as int, kids[k as int]));
                assert(is_child(self@, node_index as int, kids[best as int]));
            }
            if self.nodes[candidate].value > self.nodes[holder].value {
                best = k;
            }
            k += 1;
        }
        let index_of_max = self.nodes[node_index].children[best];
        proof {
            let kids = self@[node_index as int].children;
            assert(is_child(self@, node_index as int, kids[best as int]));
        }
        match self.nodes[index_of_max].action {
            Some(x) => x,
            None => 0,
        }
    }
}

} // verus!
