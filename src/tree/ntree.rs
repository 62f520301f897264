use std::collections::VecDeque;

use vstd::prelude::*;

use super::arena::{Arena, ArenaIndex};
use super::TreeError;

verus! {

/// A tree whose nodes hold a value and the indices of their children, in the order
/// they were added; all nodes live in one arena.
pub struct NTree<T> {
    arena: Arena<NTreeNode<T>>,
    root_index: ArenaIndex,
}

struct NTreeNode<T> {
    value: T,
    children: Vec<ArenaIndex>,
}

/// The nodes reached breadth first from `queue`: the front of the queue, then the nodes
/// reached from the rest of the queue followed by the front's children. `fuel` bounds the
/// number of nodes taken.
pub open spec fn bfs(kids: Seq<Seq<ArenaIndex>>, queue: Seq<ArenaIndex>, fuel: nat) -> Seq<
    ArenaIndex,
>
    decreases fuel,
{
    if fuel == 0 || queue.len() == 0 {
        seq![]
    } else {
        seq![queue[0]] + bfs(kids, queue.drop_first() + kids[queue[0].0 as int], (fuel - 1) as nat)
    }
}

impl<T> NTree<T> {
    /// The value of each node, by index.
    pub closed spec fn values(&self) -> Seq<T> {
        self.arena@.map_values(|n: NTreeNode<T>| n.value)
    }

    /// The children of each node, by index, in the order they were added.
    pub closed spec fn kids(&self) -> Seq<Seq<ArenaIndex>> {
        self.arena@.map_values(|n: NTreeNode<T>| n.children@)
    }

    pub open spec fn size(&self) -> nat {
        self.values().len()
    }

    /// Node 0 is the root, and every child index names a node.
    pub closed spec fn wf(&self) -> bool {
        &&& self.arena.wf()
        &&& self.root_index.0 == 0
        &&& self.arena@.len() >= 1
        &&& self.kids().len() == self.values().len()
        &&& forall|i: int, j: int|
            0 <= i < self.kids().len() && 0 <= j < self.kids()[i].len() ==> (#[trigger] self.kids()[i][j]).0
                < self.values().len()
    }

    /// The indices of the nodes in breadth-first order from `start`.
    pub open spec fn bfs_from(&self, start: ArenaIndex) -> Seq<ArenaIndex> {
        bfs(self.kids(), seq![start], self.size())
    }

    /// Every node has a list of children, and every child names a node.
    pub proof fn lemma_kids_in_range(&self)
        requires
            self.wf(),
        ensures
            self.kids().len() == self.size(),
            forall|i: int, j: int|
                0 <= i < self.kids().len() && 0 <= j < self.kids()[i].len() ==> (
                #[trigger] self.kids()[i][j]).0 < self.size(),
    {
    }

    /// Breadth first from nodes of the tree, only nodes of the tree are reached.
    pub proof fn lemma_bfs_in_range(&self, queue: Seq<ArenaIndex>, fuel: nat)
        requires
            self.wf(),
            forall|i: int| 0 <= i < queue.len() ==> (#[trigger] queue[i]).0 < self.size(),
        ensures
            forall|j: int|
                0 <= j < bfs(self.kids(), queue, fuel).len() ==> (#[trigger] bfs(
                    self.kids(),
                    queue,
                    fuel,
                )[j]).0 < self.size(),
        decreases fuel,
    {
        if fuel > 0 && queue.len() > 0 {
            let k = self.kids()[queue[0].0 as int];
            let next = queue.drop_first() + k;
            assert forall|i: int| 0 <= i < next.len() implies (#[trigger] next[i]).0 < self.size() by {
                if i < queue.len() - 1 {
                    assert(next[i] == queue[i + 1]);
                } else {
                    assert(next[i] == self.kids()[queue[0].0 as int][i - (queue.len() - 1)]);
                }
            }
            self.lemma_bfs_in_range(next, (fuel - 1) as nat);
            let rest = bfs(self.kids(), next, (fuel - 1) as nat);
            assert forall|j: int| 0 <= j < bfs(self.kids(), queue, fuel).len() implies (#[trigger] bfs(
                self.kids(),
                queue,
                fuel,
            )[j]).0 < self.size() by {
                if j > 0 {
                    assert(bfs(self.kids(), queue, fuel)[j] == rest[j - 1]);
                }
            }
        }
    }

    /// A tree with a single node, the root, holding `root_value`.
    pub fn new(root_value: T) -> (r: NTree<T>)
        ensures
            r.wf(),
            r.values() == seq![root_value],
            r.kids() == seq![Seq::<ArenaIndex>::empty()],
    {
        let mut arena: Arena<NTreeNode<T>> = Arena::new();
        let root = NTreeNode { value: root_value, children: Vec::new() };
        let root_index = arena.allocate(root);
        let r = NTree { arena, root_index };
        proof {
            assert(r.values() =~= seq![root_value]);
            assert(r.kids() =~= seq![Seq::<ArenaIndex>::empty()]);
        }
        r
    }

    pub fn root_index(&self) -> (r: ArenaIndex)
        requires
            self.wf(),
        ensures
            r.0 == 0,
            self.size() >= 1,
    {
        self.root_index
    }

    /// The number of nodes.
    pub fn len(&self) -> (r: usize)
        requires
            self.wf(),
        ensures
            r == self.size(),
    {
        self.arena.live_count()
    }

    /// The value of node `index`.
    pub fn value(&self, index: ArenaIndex) -> (r: Result<&T, TreeError>)
        requires
            self.wf(),
        ensures
            index.0 < self.size() ==> r == Ok::<&T, TreeError>(&self.values()[index.0 as int]),
            index.0 >= self.size() ==> r == Err::<&T, TreeError>(TreeError::IndexOutOfRange(index.0)),
    {
        match self.arena.value(index) {
            Ok(node) => Ok(&node.value),
            Err(e) => Err(e),
        }
    }

    /// The children of node `index`, in the order they were added.
    pub fn children(&self, index: ArenaIndex) -> (r: Result<&Vec<ArenaIndex>, TreeError>)
        requires
            self.wf(),
        ensures
            index.0 < self.size() <==> r is Ok,
            r matches Ok(v) ==> v@ == self.kids()[index.0 as int],
            index.0 >= self.size() ==> r == Err::<&Vec<ArenaIndex>, TreeError>(TreeError::IndexOutOfRange(index.0)),
    {
        match self.arena.value(index) {
            Ok(node) => Ok(&node.children),
            Err(e) => Err(e),
        }
    }

    /// Adds a node holding `value` as the last child of node `index` and returns its
    /// index; an index that names no node is refused and the tree is left as it was.
    pub fn add_child(&mut self, index: ArenaIndex, value: T) -> (r: Result<ArenaIndex, TreeError>)
        requires
            old(self).wf(),
            old(self).size() < usize::MAX,
        ensures
            final(self).wf(),
            index.0 < old(self).size() ==> {
                &&& r == Ok::<ArenaIndex, TreeError>(ArenaIndex(old(self).size() as usize))
                &&& final(self).values() == old(self).values().push(value)
                &&& final(self).kids() == old(self).kids().push(Seq::<ArenaIndex>::empty()).update(
                    index.0 as int,
                    old(self).kids()[index.0 as int].push(ArenaIndex(old(self).size() as usize)),
                )
            },
            index.0 >= old(self).size() ==> {
                &&& r == Err::<ArenaIndex, TreeError>(TreeError::IndexOutOfRange(index.0))
                &&& final(self).values() == old(self).values()
                &&& final(self).kids() == old(self).kids()
            },
    {
        let len = self.arena.live_count();
        if index.0 >= len {
            return Err(TreeError::IndexOutOfRange(index.0));
        }
        let new_node = NTreeNode { value, children: Vec::new() };
        let new_node_index = self.arena.allocate(new_node);
        match self.arena.value_mut(index) {
            Ok(node) => {
                node.children.push(new_node_index);
            },
            Err(_) => {},
        }
        proof {
            let nk = old(self).kids().push(Seq::<ArenaIndex>::empty()).update(
                index.0 as int,
                old(self).kids()[index.0 as int].push(new_node_index),
            );
            assert(self.values() =~= old(self).values().push(value));
            assert(self.kids() =~= nk);
            assert forall|i: int, j: int|
                0 <= i < self.kids().len() && 0 <= j < self.kids()[i].len() implies (
                #[trigger] self.kids()[i][j]).0 < self.values().len() by {
                if i != index.0 && i < old(self).kids().len() {
                    assert(self.kids()[i] == old(self).kids()[i]);
                }
                if i == index.0 && j < old(self).kids()[i].len() {
                    assert(self.kids()[i][j] == old(self).kids()[i][j]);
                }
            }
        }
        Ok(new_node_index)
    }

    /// An iterator over the nodes, with their values, breadth first from the root.
    pub fn bf_iter(&self) -> (r: BreadthNewIter<'_, T>)
        requires
            self.wf(),
        ensures
            r.wf(),
            r.tree() == *self,
            r.queue() == seq![ArenaIndex(0)],
    {
        self.bf_iter_from(self.root_index())
    }

    /// An iterator over the nodes, with their values, breadth first from node `idx`.
    pub fn bf_iter_from(&self, idx: ArenaIndex) -> (r: BreadthNewIter<'_, T>)
        requires
            self.wf(),
            idx.0 < self.size(),
        ensures
            r.wf(),
            r.tree() == *self,
            r.queue() == seq![idx],
    {
        let mut queue: VecDeque<ArenaIndex> = VecDeque::new();
        queue.push_back(idx);
        BreadthNewIter { tree: self, queue }
    }

    /// The first node, breadth first from `start`, whose index and value `f` accepts.
    pub fn find_node<F>(&self, start_index: ArenaIndex, f: F) -> (r: Option<ArenaIndex>)
        where
            F: Fn((ArenaIndex, &T)) -> bool,
        requires
            self.wf(),
            start_index.0 < self.size(),
            forall|i: ArenaIndex, v: &T| f.requires(((i, v),)),
        ensures
            ({
                let order = self.bfs_from(start_index);
                match r {
                    Some(i) => exists|k: int|
                        0 <= k < order.len() && order[k] == i && f.ensures(
                            ((i, &self.values()[i.0 as int]),),
                            true,
                        ) && forall|j: int|
                            0 <= j < k ==> f.ensures(
                                ((order[j], &self.values()[order[j].0 as int]),),
                                false,
                            ),
                    None => forall|j: int|
                        0 <= j < order.len() ==> f.ensures(
                            ((order[j], &self.values()[order[j].0 as int]),),
                            false,
                        ),
                }
            }),
    {
        let ghost order = self.bfs_from(start_index);
        let n = self.len();
        let mut it = self.bf_iter_from(start_index);
        let ghost mut visited: Seq<ArenaIndex> = Seq::empty();
        let mut steps: usize = 0;
        proof {
            assert(visited + bfs(self.kids(), it.queue(), (n - steps) as nat) =~= order);
        }
        while steps < n
            invariant
                self.wf(),
                n == self.size(),
                steps <= n,
                it.wf(),
                it.tree() == *self,
                visited.len() == steps,
                order == self.bfs_from(start_index),
                visited + bfs(self.kids(), it.queue(), (n - steps) as nat) == order,
                forall|j: int| 0 <= j < visited.len() ==> order[j] == #[trigger] visited[j],
                forall|i: ArenaIndex, v: &T| f.requires(((i, v),)),
                forall|j: int|
                    0 <= j < visited.len() ==> f.ensures(
                        ((visited[j], &self.values()[visited[j].0 as int]),),
                        false,
                    ),
            decreases n - steps,
        {
            let ghost q = it.queue();
            match it.next() {
                None => {
                    proof {
                        assert(visited =~= order);
                    }
                    return None;
                },
                Some(pair) => {
                    let (i, _) = pair;
                    proof {
                        let rest = bfs(self.kids(), q.drop_first() + self.kids()[i.0 as int], (n - steps - 1) as nat);
                        assert(bfs(self.kids(), q, (n - steps) as nat) == seq![i] + rest);
                        assert(visited + (seq![i] + rest) =~= visited.push(i) + rest);
                        assert(order[visited.len() as int] == i);
                    }
                    let found = f(pair);
                    if found {
                        proof {
                            assert(f.ensures(((i, &self.values()[i.0 as int]),), true));
                            assert(order[steps as int] == i);
                        }
                        return Some(i);
                    }
                    proof {
                        let rest = bfs(self.kids(), q.drop_first() + self.kids()[i.0 as int], (n - steps - 1) as nat);
                        let old_visited = visited;
                        visited = visited.push(i);
                        assert forall|j: int| 0 <= j < visited.len() implies order[j] == #[trigger] visited[j] by {
                            if j < old_visited.len() {
                                assert(visited[j] == old_visited[j]);
                            }
                        }
                    }
                },
            }
            steps += 1;
        }
        proof {
            assert(bfs(self.kids(), it.queue(), 0) =~= Seq::<ArenaIndex>::empty());
            assert(visited =~= order);
        }
        None
    }

    /// An iterator over the values, breadth first from the root.
    pub fn bf_values(&self) -> (r: BreadthValuesIter<'_, T>)
        requires
            self.wf(),
        ensures
            r.wf(),
            r.tree() == *self,
            r.queue() == seq![ArenaIndex(0)],
    {
        let mut queue: VecDeque<ArenaIndex> = VecDeque::new();
        queue.push_back(self.root_index);
        BreadthValuesIter { tree: self, queue }
    }
}

/// Breadth-first walk over a tree's nodes: each step yields the front of the queue with
/// its value and puts the node's children at the back.
pub struct BreadthNewIter<'a, T> {
    tree: &'a NTree<T>,
    queue: VecDeque<ArenaIndex>,
}

impl<'a, T> BreadthNewIter<'a, T> {
    pub closed spec fn tree(&self) -> NTree<T> {
        *self.tree
    }

    /// The nodes still to visit, front first.
    pub closed spec fn queue(&self) -> Seq<ArenaIndex> {
        self.queue@
    }

    pub closed spec fn wf(&self) -> bool {
        &&& self.tree.wf()
        &&& forall|i: int| 0 <= i < self.queue@.len() ==> (#[trigger] self.queue@[i]).0 < self.tree.size()
    }

    /// The next node breadth first, with its value; `None` once the walk is over.
    pub fn next(&mut self) -> (r: Option<(ArenaIndex, &'a T)>)
        requires
            old(self).wf(),
        ensures
            final(self).wf(),
            final(self).tree() == old(self).tree(),
            old(self).queue().len() == 0 ==> r is None && final(self).queue() == old(self).queue(),
            old(self).queue().len() > 0 ==> {
                let front = old(self).queue()[0];
                &&& r == Some((front, &old(self).tree().values()[front.0 as int]))
                &&& final(self).queue() == old(self).queue().drop_first() + old(self).tree().kids()[front.0 as int]
            },
    {
        match self.queue.pop_front() {
            None => None,
            Some(front) => {
                let tree = self.tree;
                let kids = match tree.children(front) {
                    Ok(k) => k,
                    Err(_) => {
                        return None;
                    },
                };
                let ghost q0 = self.queue@;
                let mut i: usize = 0;
                while i < kids.len()
                    invariant
                        tree.wf(),
                        self.tree == tree,
                        front.0 < tree.size(),
                        kids@ == tree.kids()[front.0 as int],
                        i <= kids.len(),
                        self.queue@ == q0 + kids@.take(i as int),
                        forall|k: int| 0 <= k < q0.len() ==> (#[trigger] q0[k]).0 < tree.size(),
                    decreases kids.len() - i,
                {
                    self.queue.push_back(kids[i]);
                    proof {
                        assert(kids@.take(i + 1) == kids@.take(i as int).push(kids@[i as int]));
                        assert(tree.kids()[front.0 as int][i as int].0 < tree.size());
                    }
                    i += 1;
                }
                proof {
                    assert(kids@.take(kids.len() as int) == kids@);
                    assert forall|k: int| 0 <= k < self.queue@.len() implies (
                    #[trigger] self.queue@[k]).0 < self.tree.size() by {
                        if k >= q0.len() {
                            assert(self.queue@[k] == tree.kids()[front.0 as int][k - q0.len()]);
                        }
                    }
                }
                match tree.value(front) {
                    Ok(v) => Some((front, v)),
                    Err(_) => None,
                }
            },
        }
    }
}

/// Breadth-first walk over a tree's values.
pub struct BreadthValuesIter<'a, T> {
    tree: &'a NTree<T>,
    queue: VecDeque<ArenaIndex>,
}

impl<'a, T> BreadthValuesIter<'a, T> {
    pub closed spec fn tree(&self) -> NTree<T> {
        *self.tree
    }

    /// The nodes still to visit, front first.
    pub closed spec fn queue(&self) -> Seq<ArenaIndex> {
        self.queue@
    }

    pub closed spec fn wf(&self) -> bool {
        &&& self.tree.wf()
        &&& forall|i: int| 0 <= i < self.queue@.len() ==> (#[trigger] self.queue@[i]).0 < self.tree.size()
    }

    /// The value of the next node breadth first; `None` once the walk is over.
    pub fn next(&mut self) -> (r: Option<&'a T>)
        requires
            old(self).wf(),
        ensures
            final(self).wf(),
            final(self).tree() == old(self).tree(),
            old(self).queue().len() == 0 ==> r is None && final(self).queue() == old(self).queue(),
            old(self).queue().len() > 0 ==> {
                let front = old(self).queue()[0];
                &&& r == Some(&old(self).tree().values()[front.0 as int])
                &&& final(self).queue() == old(self).queue().drop_first() + old(self).tree().kids()[front.0 as int]
            },
    {
        let mut inner = BreadthNewIter { tree: self.tree, queue: VecDeque::new() };
        std::mem::swap(&mut inner.queue, &mut self.queue);
        let r = inner.next();
        std::mem::swap(&mut inner.queue, &mut self.queue);
        match r {
            Some((_, v)) => Some(v),
            None => None,
        }
    }
}

/// `n` spaces.
pub open spec fn spaces(n: nat) -> Seq<char> {
    Seq::new(n, |i: int| ' ')
}

/// The outline of the subtree at `index`: the node's value on a line of its own after
/// `indent` spaces, then each child's subtree, in order, indented three more. `fuel`
/// bounds the depth.
pub open spec fn render(values: Seq<String>, kids: Seq<Seq<ArenaIndex>>, index: ArenaIndex, indent: nat, fuel: nat) -> Seq<char>
    decreases fuel, 0nat,
{
    if fuel == 0 {
        seq![]
    } else {
        spaces(indent) + values[index.0 as int]@ + seq!['\n'] + render_list(
            values,
            kids,
            kids[index.0 as int],
            indent + 3,
            (fuel - 1) as nat,
        )
    }
}

/// The outlines of the subtrees at `list`, one after the other.
pub open spec fn render_list(values: Seq<String>, kids: Seq<Seq<ArenaIndex>>, list: Seq<ArenaIndex>, indent: nat, fuel: nat) -> Seq<char>
    decreases fuel, list.len(),
{
    if list.len() == 0 {
        seq![]
    } else {
        render_list(values, kids, list.drop_last(), indent, fuel) + render(
            values,
            kids,
            list.last(),
            indent,
            fuel,
        )
    }
}

impl NTree<String> {
    /// Appends to `out` the outline of the subtree at `index`, its lines indented by
    /// `indent` spaces and three more for each level down, at most `fuel` levels deep.
    pub fn format_helper(&self, out: &mut String, index: ArenaIndex, indent: usize, fuel: usize)
        requires
            self.wf(),
            index.0 < self.size(),
            indent + 3 * fuel <= usize::MAX,
        ensures
            final(out)@ == old(out)@ + render(self.values(), self.kids(), index, indent as nat, fuel as nat),
        decreases fuel,
    {
        if fuel == 0 {
            return;
        }
        proof {
            self.lemma_kids_in_range();
        }
        let mut k: usize = 0;
        while k < indent
            invariant
                k <= indent,
                out@ == old(out)@ + spaces(k as nat),
            decreases indent - k,
        {
            out.append(" ");
            proof {
                reveal_strlit(" ");
                assert(spaces((k + 1) as nat) =~= spaces(k as nat) + " "@);
            }
            k += 1;
        }
        let value = match self.value(index) {
            Ok(v) => v,
            Err(_) => {
                return;
            },
        };
        out.append(value.as_str());
        out.append("\n");
        proof {
            reveal_strlit("\n");
        }
        let ghost head = old(out)@ + spaces(indent as nat) + self.values()[index.0 as int]@ + seq!['\n'];
        proof {
            assert(out@ =~= head);
        }
        let children = match self.children(index) {
            Ok(c) => c,
            Err(_) => {
                return;
            },
        };
        let mut i: usize = 0;
        while i < children.len()
            invariant
                self.wf(),
                fuel > 0,
                indent + 3 * fuel <= usize::MAX,
                children@ == self.kids()[index.0 as int],
                forall|j: int| 0 <= j < children@.len() ==> (#[trigger] children@[j]).0 < self.size(),
                i <= children@.len(),
                out@ == head + render_list(
                    self.values(),
                    self.kids(),
                    children@.take(i as int),
                    (indent + 3) as nat,
                    (fuel - 1) as nat,
                ),
            decreases children.len() - i,
        {
            proof {
                assert(children@.take(i + 1).drop_last() =~= children@.take(i as int));
            }
            self.format_helper(out, children[i], indent + 3, fuel - 1);
            i += 1;
        }
        proof {
            assert(children@.take(children@.len() as int) =~= children@);
        }
    }

    /// The outline of the whole tree: one line per node, depth first, each indented by
    /// three spaces per level below the root.
    pub fn to_outline(&self) -> (r: String)
        requires
            self.wf(),
            3 * self.size() <= usize::MAX,
        ensures
            r@ == render(self.values(), self.kids(), ArenaIndex(0), 0, self.size()),
    {
        let mut out = String::new();
        let n = self.len();
        self.format_helper(&mut out, self.root_index(), 0, n);
        out
    }
}

} // verus!
