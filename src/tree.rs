//! Binary trees of integers, and their JSON text: the level-order slots of
//! the tree, `null` where a child is absent, without the trailing `null`s.
use vstd::prelude::*;

use crate::error::CodecError;
use crate::json::{fault_error, json_slots, json_to_slots, slots_to_json, to_codec_error};
use crate::text::slots_text;

verus! {

/// One node of a binary tree.
#[derive(Debug, PartialEq, Eq, PartialOrd, Ord)]
pub struct TreeNode {
    pub val: i32,
    pub left: Option<Box<TreeNode>>,
    pub right: Option<Box<TreeNode>>,
}

/// A link to a subtree, or no subtree.
pub type TreeLink = Option<Box<TreeNode>>;

/// A binary tree, held by the link to its root.
#[derive(Debug, PartialEq, Eq, PartialOrd, Ord)]
pub struct BinaryTree(pub Option<Box<TreeNode>>);

impl From<BinaryTree> for Option<Box<TreeNode>> {
    fn from(tree: BinaryTree) -> (r: Option<Box<TreeNode>>)
        ensures
            r == tree.0,
    {
        tree.0
    }
}

impl vstd::std_specs::convert::FromSpecImpl<BinaryTree> for Option<Box<TreeNode>> {
    open spec fn obeys_from_spec() -> bool {
        true
    }

    open spec fn from_spec(tree: BinaryTree) -> Option<Box<TreeNode>> {
        tree.0
    }
}

/// The number of nodes under a link.
pub open spec fn size(link: Option<Box<TreeNode>>) -> nat
    decreases link,
{
    match link {
        Some(node) => 1 + size(node.left) + size(node.right),
        None => 0,
    }
}

/// A measure of a breadth-first queue that each step lowers: a cell counts
/// one, and each node under it two more.
pub open spec fn weight(queue: Seq<Option<Box<TreeNode>>>) -> nat
    decreases queue.len(),
{
    if queue.len() == 0 {
        0
    } else {
        2 * size(queue[0]) + 1 + weight(queue.drop_first())
    }
}

/// The slot of a cell: the node's value, or nothing.
pub open spec fn slot_of(link: Option<Box<TreeNode>>) -> Option<i32> {
    match link {
        Some(node) => Some(node.val),
        None => None,
    }
}

/// The cells that a cell puts on the queue: both children of a node, none
/// for an absent cell.
pub open spec fn children(link: Option<Box<TreeNode>>) -> Seq<Option<Box<TreeNode>>> {
    match link {
        Some(node) => seq![node.left, node.right],
        None => Seq::empty(),
    }
}

pub proof fn lemma_weight_append(a: Seq<Option<Box<TreeNode>>>, b: Seq<Option<Box<TreeNode>>>)
    ensures
        weight(a + b) == weight(a) + weight(b),
    decreases a.len(),
{
    if a.len() == 0 {
        assert(a + b =~= b);
    } else {
        assert((a + b).drop_first() =~= a.drop_first() + b);
        lemma_weight_append(a.drop_first(), b);
    }
}

pub proof fn lemma_bfs_decreases(queue: Seq<Option<Box<TreeNode>>>)
    requires
        queue.len() > 0,
    ensures
        weight(queue.drop_first() + children(queue[0])) < weight(queue),
{
    lemma_weight_append(queue.drop_first(), children(queue[0]));
    match queue[0] {
        Some(node) => {
            let c = children(queue[0]);
            assert(c.drop_first().drop_first() =~= Seq::<Option<Box<TreeNode>>>::empty());
            reveal_with_fuel(weight, 3);
            assert(c.drop_first()[0] == node.right);
            assert(weight(c) == 2 * size(node.left) + 1 + 2 * size(node.right) + 1 + 0);
        },
        None => {
            assert(weight(children(queue[0])) == 0);
        },
    }
}

/// The slots met by a breadth-first walk that starts from the queue: each
/// cell gives its slot, and a node puts both its children at the back.
pub open spec fn bfs(queue: Seq<Option<Box<TreeNode>>>) -> Seq<Option<i32>>
    decreases weight(queue),
{
    if queue.len() == 0 {
        Seq::empty()
    } else {
        proof {
            lemma_bfs_decreases(queue);
        }
        seq![slot_of(queue[0])] + bfs(queue.drop_first() + children(queue[0]))
    }
}

/// The slots without their trailing empty ones.
pub open spec fn trim_nulls(slots: Seq<Option<i32>>) -> Seq<Option<i32>>
    decreases slots.len(),
{
    if slots.len() > 0 && slots.last() is None {
        trim_nulls(slots.drop_last())
    } else {
        slots
    }
}

/// The level-order slots of a tree, trailing empty slots removed.
pub open spec fn level_order(root: Option<Box<TreeNode>>) -> Seq<Option<i32>> {
    trim_nulls(bfs(seq![root]))
}

/// The number of slots before position `p` that hold a value.
pub open spec fn rank(slots: Seq<Option<i32>>, p: int) -> nat
    decreases p,
{
    if p <= 0 {
        0
    } else {
        rank(slots, p - 1) + if slots[p - 1] is Some { 1nat } else { 0nat }
    }
}

/// Where the children of the node at position `p` begin: each node before it
/// took two slots for its children, after the root's slot.
pub open spec fn child_pos(slots: Seq<Option<i32>>, p: int) -> int {
    2 * rank(slots, p) as int + 1
}

/// Whether the slots fit the expansion rule: while slots remain, the node
/// whose children they are comes before them.
pub open spec fn well_formed(slots: Seq<Option<i32>>) -> bool {
    forall|p: int|
        0 <= p < slots.len() && #[trigger] child_pos(slots, p) < slots.len() ==> p < child_pos(
            slots,
            p,
        )
}

/// The subtree that the slots give at position `p`.
pub open spec fn tree_at(slots: Seq<Option<i32>>, p: int) -> Option<Box<TreeNode>>
    decreases (if p < slots.len() { slots.len() - p } else { 0 }),
{
    if 0 <= p < slots.len() && slots[p] is Some && p < child_pos(slots, p) {
        Some(
            Box::new(
                TreeNode {
                    val: slots[p]->Some_0,
                    left: tree_at(slots, child_pos(slots, p)),
                    right: tree_at(slots, child_pos(slots, p) + 1),
                },
            ),
        )
    } else {
        None
    }
}

/// The tree that well-formed slots give: the subtree at the first position.
pub open spec fn tree_of(slots: Seq<Option<i32>>) -> BinaryTree {
    BinaryTree(tree_at(slots, 0))
}

/// The ranks of all positions.
fn ranks_of(slots: &Vec<Option<i32>>) -> (r: Vec<usize>)
    ensures
        r@.len() == slots@.len(),
        forall|p: int| 0 <= p < slots@.len() ==> r@[p] == rank(slots@, p),
{
    let mut r: Vec<usize> = Vec::new();
    let mut count: usize = 0;
    let mut p: usize = 0;
    while p < slots.len()
        invariant
            p <= slots.len(),
            count == rank(slots@, p as int),
            count <= p,
            r@.len() == p,
            forall|q: int| 0 <= q < p ==> r@[q] == rank(slots@, q),
        decreases slots.len() - p,
    {
        r.push(count);
        if slots[p].is_some() {
            count = count + 1;
        }
        p = p + 1;
    }
    r
}

/// Builds the subtree at position `p` from the slots and their ranks.
fn build(slots: &Vec<Option<i32>>, ranks: &Vec<usize>, p: usize) -> (r: Option<Box<TreeNode>>)
    requires
        ranks@.len() == slots@.len(),
        forall|q: int| 0 <= q < slots@.len() ==> ranks@[q] == rank(slots@, q),
        well_formed(slots@),
    ensures
        r == tree_at(slots@, p as int),
    decreases (if p < slots@.len() { slots@.len() - p } else { 0 }),
{
    if p >= slots.len() {
        return None;
    }
    match slots[p] {
        None => None,
        Some(v) => {
            let len = slots.len();
            let k = ranks[p];
            proof {
                rank_le(slots@, p as int);
            }
            assert(p < child_pos(slots@, p as int));
            let left = if k < len / 2 {
                build(slots, ranks, 2 * k + 1)
            } else {
                assert(tree_at(slots@, 2 * k + 1) == None::<Box<TreeNode>>);
                None
            };
            let right = if k < (len - 1) / 2 {
                build(slots, ranks, 2 * k + 2)
            } else {
                assert(tree_at(slots@, 2 * k + 2) == None::<Box<TreeNode>>);
                None
            };
            Some(Box::new(TreeNode { val: v, left, right }))
        },
    }
}

proof fn rank_le(slots: Seq<Option<i32>>, p: int)
    requires
        0 <= p <= slots.len(),
    ensures
        rank(slots, p) <= p,
    decreases p,
{
    if p > 0 {
        rank_le(slots, p - 1);
    }
}

/// The cells met by a breadth-first walk that starts from the queue, in the
/// order of `bfs`.
spec fn cells(queue: Seq<Option<Box<TreeNode>>>) -> Seq<Option<Box<TreeNode>>>
    decreases weight(queue),
{
    if queue.len() == 0 {
        Seq::empty()
    } else {
        proof {
            lemma_bfs_decreases(queue);
        }
        seq![queue[0]] + cells(queue.drop_first() + children(queue[0]))
    }
}

proof fn lemma_rank_cons(x: Option<i32>, s: Seq<Option<i32>>, p: int)
    requires
        1 <= p <= s.len() + 1,
    ensures
        rank(seq![x] + s, p) == (if x is Some { 1nat } else { 0nat }) + rank(s, p - 1),
    decreases p,
{
    let y = seq![x] + s;
    if p == 1 {
        assert(y[0] == x);
        assert(rank(y, 0) == 0);
        assert(rank(s, 0) == 0);
        assert(rank(y, 1) == rank(y, 0) + if y[0] is Some { 1nat } else { 0nat });
    } else {
        lemma_rank_cons(x, s, p - 1);
        assert(y[p - 1] == s[p - 2]);
        assert(rank(y, p) == rank(y, p - 1) + if y[p - 1] is Some { 1nat } else { 0nat });
        assert(rank(s, p - 1) == rank(s, p - 2) + if s[p - 2] is Some { 1nat } else { 0nat });
    }
}

/// The walk meets every cell of the queue first, in order, and gives each
/// cell's slot.
spec fn walk_shape(queue: Seq<Option<Box<TreeNode>>>) -> bool {
    &&& cells(queue).len() == bfs(queue).len()
    &&& queue.len() <= cells(queue).len()
    &&& forall|i: int| 0 <= i < queue.len() ==> #[trigger] cells(queue)[i] == queue[i]
    &&& forall|i: int|
        0 <= i < cells(queue).len() ==> #[trigger] bfs(queue)[i] == slot_of(cells(queue)[i])
}

/// Each cell of the walk was on the queue before the walk reached it: the
/// queue's cells and two for each node met earlier.
spec fn walk_order(queue: Seq<Option<Box<TreeNode>>>) -> bool {
    forall|p: int| 0 <= p < cells(queue).len() ==> p < queue.len() + 2 * #[trigger] rank(bfs(queue), p)
}

/// The walk meets the children of the node of rank `k` at `m + 2k` and
/// `m + 2k + 1`, where `m` is the length of the queue.
spec fn walk_children(queue: Seq<Option<Box<TreeNode>>>) -> bool {
    forall|p: int|
        0 <= p < cells(queue).len() && cells(queue)[p] is Some ==> {
            let c = queue.len() as int + 2 * #[trigger] rank(bfs(queue), p) as int;
            &&& c + 1 < cells(queue).len()
            &&& cells(queue)[c] == cells(queue)[p]->Some_0.left
            &&& cells(queue)[c + 1] == cells(queue)[p]->Some_0.right
        }
}

/// One step of the walk, spelt out on its slots and cells.
proof fn lemma_walk_step(queue: Seq<Option<Box<TreeNode>>>)
    requires
        queue.len() > 0,
    ensures
        bfs(queue) == seq![slot_of(queue[0])] + bfs(queue.drop_first() + children(queue[0])),
        cells(queue) == seq![queue[0]] + cells(queue.drop_first() + children(queue[0])),
        (queue.drop_first() + children(queue[0])).len() == queue.len() - 1 + 2 * (if queue[0] is Some { 1int } else { 0int }),
        forall|p: int|
            1 <= p <= bfs(queue).len() ==> #[trigger] rank(bfs(queue), p) == (if queue[0] is Some { 1nat } else { 0nat }) + rank(
                bfs(queue.drop_first() + children(queue[0])),
                p - 1,
            ),
{
    lemma_bfs_decreases(queue);
    let next = queue.drop_first() + children(queue[0]);
    assert forall|p: int| 1 <= p <= bfs(queue).len() implies #[trigger] rank(bfs(queue), p) == (if queue[0] is Some { 1nat } else { 0nat }) + rank(bfs(next), p - 1) by {
        lemma_rank_cons(slot_of(queue[0]), bfs(next), p);
    }
}

proof fn lemma_walk_shape(queue: Seq<Option<Box<TreeNode>>>)
    requires
        queue.len() > 0,
        walk_shape(queue.drop_first() + children(queue[0])),
    ensures
        walk_shape(queue),
{
    lemma_walk_step(queue);
    let next = queue.drop_first() + children(queue[0]);
    let c = cells(queue);
    let c2 = cells(next);
    let s = bfs(queue);
    let s2 = bfs(next);
    assert forall|i: int| 0 <= i < queue.len() implies #[trigger] c[i] == queue[i] by {
        if i > 0 {
            assert(c[i] == c2[i - 1]);
            assert(next[i - 1] == queue[i]);
        }
    }
    assert forall|i: int| 0 <= i < c.len() implies #[trigger] s[i] == slot_of(c[i]) by {
        if i > 0 {
            assert(s[i] == s2[i - 1]);
            assert(c[i] == c2[i - 1]);
        }
    }
}

proof fn lemma_walk_order(queue: Seq<Option<Box<TreeNode>>>)
    requires
        queue.len() > 0,
        walk_shape(queue.drop_first() + children(queue[0])),
        walk_order(queue.drop_first() + children(queue[0])),
    ensures
        walk_order(queue),
{
    lemma_walk_step(queue);
    let next = queue.drop_first() + children(queue[0]);
    let s = bfs(queue);
    let s2 = bfs(next);
    assert forall|p: int| 0 <= p < cells(queue).len() implies p < queue.len() + 2 * #[trigger] rank(s, p) by {
        if p > 0 {
            assert(p - 1 < next.len() + 2 * rank(s2, p - 1));
        }
    }
}

proof fn lemma_walk_children_at(queue: Seq<Option<Box<TreeNode>>>, p: int)
    requires
        queue.len() > 0,
        walk_shape(queue.drop_first() + children(queue[0])),
        walk_children(queue.drop_first() + children(queue[0])),
        0 <= p < cells(queue).len(),
        cells(queue)[p] is Some,
    ensures
        ({
            let c = cells(queue);
            let k = queue.len() as int + 2 * rank(bfs(queue), p) as int;
            &&& k + 1 < c.len()
            &&& c[k] == c[p]->Some_0.left
            &&& c[k + 1] == c[p]->Some_0.right
        }),
{
    lemma_walk_step(queue);
    let next = queue.drop_first() + children(queue[0]);
    let c = cells(queue);
    let c2 = cells(next);
    let s = bfs(queue);
    let s2 = bfs(next);
    let m = queue.len() as int;
    if p == 0 {
        assert(rank(s, 0) == 0);
        assert(c[m] == c2[m - 1]);
        assert(c[m + 1] == c2[m]);
        assert(c2[m - 1] == next[m - 1]);
        assert(c2[m] == next[m]);
    } else {
        assert(c[p] == c2[p - 1]);
        assert(c2[p - 1] is Some);
        let k2 = next.len() as int + 2 * rank(s2, p - 1) as int;
        assert(c[k2 + 1] == c2[k2]);
        assert(c[k2 + 2] == c2[k2 + 1]);
    }
}

proof fn lemma_walk_children(queue: Seq<Option<Box<TreeNode>>>)
    requires
        queue.len() > 0,
        walk_shape(queue.drop_first() + children(queue[0])),
        walk_children(queue.drop_first() + children(queue[0])),
    ensures
        walk_children(queue),
{
    assert forall|p: int| 0 <= p < cells(queue).len() && cells(queue)[p] is Some implies {
        let k = queue.len() as int + 2 * #[trigger] rank(bfs(queue), p) as int;
        &&& k + 1 < cells(queue).len()
        &&& cells(queue)[k] == cells(queue)[p]->Some_0.left
        &&& cells(queue)[k + 1] == cells(queue)[p]->Some_0.right
    } by {
        lemma_walk_children_at(queue, p);
    }
}

/// The three facts of the walk hold of every queue.
proof fn lemma_cells(queue: Seq<Option<Box<TreeNode>>>)
    ensures
        walk_shape(queue),
        walk_order(queue),
        walk_children(queue),
    decreases weight(queue),
{
    if queue.len() > 0 {
        lemma_bfs_decreases(queue);
        lemma_cells(queue.drop_first() + children(queue[0]));
        lemma_walk_shape(queue);
        lemma_walk_order(queue);
        lemma_walk_children(queue);
    }
}

/// At each position of the untrimmed walk, the slots build the cell met there.
proof fn lemma_tree_at_cells(root: Option<Box<TreeNode>>, p: int)
    requires
        0 <= p < bfs(seq![root]).len(),
    ensures
        tree_at(bfs(seq![root]), p) == cells(seq![root])[p],
    decreases bfs(seq![root]).len() - p,
{
    let q = seq![root];
    let s = bfs(q);
    let c = cells(q);
    lemma_cells(q);
    assert(s[p] == slot_of(c[p]));
    assert(p < 1 + 2 * rank(s, p));
    if c[p] is Some {
        let k = child_pos(s, p);
        assert(c[k] == c[p]->Some_0.left);
        lemma_tree_at_cells(root, k);
        lemma_tree_at_cells(root, k + 1);
    }
}

proof fn lemma_trim_nulls(s: Seq<Option<i32>>)
    ensures
        trim_nulls(s).len() <= s.len(),
        trim_nulls(s) =~= s.take(trim_nulls(s).len() as int),
        forall|i: int| trim_nulls(s).len() <= i < s.len() ==> #[trigger] s[i] is None,
    decreases s.len(),
{
    if s.len() > 0 && s.last() is None {
        lemma_trim_nulls(s.drop_last());
        assert forall|i: int| trim_nulls(s).len() <= i < s.len() implies #[trigger] s[i] is None by {
            if i < s.len() - 1 {
                assert(s.drop_last()[i] == s[i]);
            }
        }
    }
}

proof fn lemma_rank_prefix(l: Seq<Option<i32>>, s: Seq<Option<i32>>, p: int)
    requires
        l.len() <= s.len(),
        l =~= s.take(l.len() as int),
        0 <= p <= l.len(),
    ensures
        rank(l, p) == rank(s, p),
    decreases p,
{
    if p > 0 {
        lemma_rank_prefix(l, s, p - 1);
    }
}

/// Dropping trailing empty slots changes no subtree that the slots build.
proof fn lemma_tree_at_trimmed(s: Seq<Option<i32>>, p: int)
    requires
        0 <= p,
    ensures
        tree_at(trim_nulls(s), p) == tree_at(s, p),
    decreases (if p < s.len() { s.len() - p } else { 0 }),
{
    let l = trim_nulls(s);
    lemma_trim_nulls(s);
    if p < l.len() {
        lemma_rank_prefix(l, s, p);
        assert(l[p] == s[p]);
        if s[p] is Some && p < child_pos(s, p) {
            lemma_tree_at_trimmed(s, child_pos(s, p));
            lemma_tree_at_trimmed(s, child_pos(s, p) + 1);
        }
    } else if p < s.len() {
        assert(s[p] is None);
    }
}

/// Reading back the level-order slots of any tree gives that tree: the slots
/// are well formed, and they build the same tree.
pub proof fn lemma_tree_round_trip(tree: BinaryTree)
    ensures
        well_formed(level_order(tree.0)),
        tree_of(level_order(tree.0)) == tree,
{
    let q = seq![tree.0];
    let s = bfs(q);
    let l = level_order(tree.0);
    lemma_cells(q);
    lemma_trim_nulls(s);
    assert(cells(q)[0] == tree.0);
    lemma_tree_at_cells(tree.0, 0);
    lemma_tree_at_trimmed(s, 0);
    assert forall|p: int|
        0 <= p < l.len() && #[trigger] child_pos(l, p) < l.len() implies p < child_pos(l, p) by {
        lemma_rank_prefix(l, s, p);
        assert(p < 1 + 2 * rank(s, p));
    }
}

impl BinaryTree {
    /// The level-order slots of the tree, trailing empty slots removed.
    pub fn level_slots(&self) -> (r: Vec<Option<i32>>)
        ensures
            r@ == level_order(self.0),
    {
        let mut queue: Vec<&Option<Box<TreeNode>>> = Vec::new();
        queue.push(&self.0);
        let mut out: Vec<Option<i32>> = Vec::new();
        let mut i: usize = 0;
        assert(queue@.skip(0).map_values(|c: &Option<Box<TreeNode>>| *c) =~= seq![self.0]);
        while i < queue.len()
            invariant
                i <= queue.len(),
                out@ + bfs(queue@.skip(i as int).map_values(|c: &Option<Box<TreeNode>>| *c))
                    == bfs(seq![self.0]),
            decreases weight(queue@.skip(i as int).map_values(|c: &Option<Box<TreeNode>>| *c)),
        {
            let ghost q = queue@.skip(i as int).map_values(|c: &Option<Box<TreeNode>>| *c);
            let cell = queue[i];
            match cell {
                Some(node) => {
                    out.push(Some(node.val));
                    queue.push(&node.left);
                    queue.push(&node.right);
                },
                None => {
                    out.push(None);
                },
            }
            i = i + 1;
            proof {
                let q2 = queue@.skip(i as int).map_values(|c: &Option<Box<TreeNode>>| *c);
                assert(q2 =~= q.drop_first() + children(q[0]));
                lemma_bfs_decreases(q);
                assert(bfs(q) == seq![slot_of(q[0])] + bfs(q2));
                assert(out@ + bfs(q2) =~= out@.drop_last() + bfs(q));
            }
        }
        assert(out@ =~= bfs(seq![self.0])) by {
            assert(queue@.skip(i as int).map_values(|c: &Option<Box<TreeNode>>| *c)
                =~= Seq::<Option<Box<TreeNode>>>::empty());
        }
        let ghost full = out@;
        while out.len() > 0 && out[out.len() - 1].is_none()
            invariant
                trim_nulls(out@) == trim_nulls(full),
            decreases out.len(),
        {
            out.pop();
        }
        out
    }

    /// The JSON text of the tree: its level-order slots as an array.
    pub fn encode(&self) -> (r: String)
        ensures
            r@ == slots_text(level_order(self.0)),
    {
        let slots = self.level_slots();
        slots_to_json(&slots)
    }

    /// Builds the tree from its level-order slots: the first slot is the
    /// root, and each node in turn takes the next two remaining slots as its
    /// left and right child; an absent slot takes none.
    pub fn from_slots(slots: Vec<Option<i32>>) -> (r: Result<BinaryTree, CodecError>)
        ensures
            well_formed(slots@) ==> r == Ok::<BinaryTree, CodecError>(tree_of(slots@)),
            !well_formed(slots@) ==> r matches Err(CodecError::MalformedTree),
    {
        let len = slots.len();
        let mut count: usize = 0;
        let mut p: usize = 0;
        while p < len
            invariant
                len == slots@.len(),
                p <= len,
                count == rank(slots@, p as int),
                count <= p,
                forall|q: int|
                    0 <= q < p && #[trigger] child_pos(slots@, q) < len ==> q < child_pos(
                        slots@,
                        q,
                    ),
            decreases len - p,
        {
            if count < len / 2 && p >= 2 * count + 1 {
                assert(child_pos(slots@, p as int) < len);
                return Err(CodecError::MalformedTree);
            }
            if slots[p].is_some() {
                count = count + 1;
            }
            p = p + 1;
        }
        let ranks = ranks_of(&slots);
        Ok(BinaryTree(build(&slots, &ranks, 0)))
    }

    /// Reads a tree from JSON text: its level-order slots, each a 32-bit
    /// integer or `null`. The text that `encode` gives for a tree is read back
    /// as that tree.
    pub fn decode(text: &str) -> (r: Result<BinaryTree, CodecError>)
        ensures
            match json_slots(text@) {
                Ok(slots) => if well_formed(slots) {
                    r == Ok::<BinaryTree, CodecError>(tree_of(slots))
                } else {
                    r matches Err(CodecError::MalformedTree)
                },
                Err(f) => r == Err::<BinaryTree, CodecError>(fault_error(f)),
            },
            forall|tree: BinaryTree| #[trigger] slots_text(level_order(tree.0)) == text@ ==> r
                == Ok::<BinaryTree, CodecError>(tree),
    {
        let parsed = json_to_slots(text);
        proof {
            assert forall|tree: BinaryTree| #[trigger] slots_text(level_order(tree.0)) == text@ implies parsed
                is Ok && well_formed(parsed->Ok_0@) && tree_of(parsed->Ok_0@) == tree by {
                lemma_tree_round_trip(tree);
            }
        }
        match parsed {
            Ok(slots) => BinaryTree::from_slots(slots),
            Err(f) => Err(to_codec_error(f)),
        }
    }
}

} // verus!
