//! What holds of every tree that is grown.

use crate::dataset::{column_named, DataSpec};
use crate::model::{fitted, slot_ok, slots_ok, ModelSpec, Plan};
use crate::node::NodeSpec;
use crate::params::GainArgs;
use crate::search::lemma_best_is_none;
use crate::table::Table;
use vstd::arithmetic::power2::{
    lemma2_to64, lemma_pow2_pos, lemma_pow2_strictly_increases, lemma_pow2_unfold, pow2,
};
use vstd::prelude::*;

verus! {

/// Whether `to` is a branch recorded in the slot `from` of the array.
pub open spec fn is_branch(nodes: Seq<NodeSpec>, from: int, to: int) -> bool {
    &&& 0 <= from < nodes.len()
    &&& to != -1
    &&& nodes[from].true_branch == to || nodes[from].false_branch == to
}

/// Whether `path` leads from the root along recorded branches.
pub open spec fn is_path(nodes: Seq<NodeSpec>, path: Seq<int>) -> bool {
    &&& path.len() > 0
    &&& path[0] == 0
    &&& forall|k: int| 0 <= k < path.len() - 1 ==> #[trigger] is_branch(nodes, path[k], path[k + 1])
}

/// The slot that a path reaches by `d` branches is a slot of the array, and
/// lies behind the `2^d - 1` slots of the levels above its own.
proof fn lemma_path_level(model: ModelSpec, path: Seq<int>, d: int)
    requires
        model.wf(),
        is_path(model.nodes, path),
        0 <= d < path.len(),
    ensures
        0 <= path[d] < model.nodes.len(),
        path[d] + 1 >= pow2(d as nat),
    decreases d,
{
    lemma2_to64();
    lemma_pow2_pos((model.params.max_depth - 1) as nat);
    if d > 0 {
        lemma_path_level(model, path, d - 1);
        assert(is_branch(model.nodes, path[d - 1], path[d - 1 + 1]));
        assert(slot_ok(model.nodes, path[d - 1]));
        lemma_pow2_unfold(d as nat);
    }
}

/// The shape of a tree: every slot reached from the root by recorded
/// branches, none of them -1, is one of the `2^(max_depth - 1)` slots of the
/// array, and is reached by fewer than `max_depth` branches.
pub proof fn lemma_tree_shape(model: ModelSpec, path: Seq<int>, d: int)
    requires
        model.wf(),
        is_path(model.nodes, path),
        0 <= d < path.len(),
    ensures
        0 <= path[d] < pow2((model.params.max_depth - 1) as nat),
        d < model.params.max_depth,
{
    lemma_path_level(model, path, d);
    if d >= model.params.max_depth {
        lemma_pow2_strictly_increases((model.params.max_depth - 1) as nat, d as nat);
    }
}

/// Growing a tree keeps the length of the node array and the layout of its
/// branches, and returns -1 or the slot it was grown from.
pub proof fn lemma_grown_keeps_layout(
    plan: Plan,
    nodes: Seq<NodeSpec>,
    rows: Seq<usize>,
    node: nat,
    depth: int,
)
    ensures
        plan.grown(nodes, rows, node, depth).0.len() == nodes.len(),
        slots_ok(nodes) ==> slots_ok(plan.grown(nodes, rows, node, depth).0),
        plan.grown(nodes, rows, node, depth).1 == if plan.splits(nodes, rows, node, depth) {
            node as int
        } else {
            -1
        },
    decreases plan.params.max_depth - depth,
{
    if plan.splits(nodes, rows, node, depth) {
        let left = plan.grown(nodes, plan.left(node, rows), 2 * node + 1, depth + 1);
        lemma_grown_keeps_layout(plan, nodes, plan.left(node, rows), 2 * node + 1, depth + 1);
        let right = plan.grown(left.0, plan.right(node, rows), 2 * node + 2, depth + 1);
        lemma_grown_keeps_layout(plan, left.0, plan.right(node, rows), 2 * node + 2, depth + 1);
        let after = plan.grown(nodes, rows, node, depth).0;
        if slots_ok(nodes) {
            assert forall|k: int| 0 <= k < after.len() implies slot_ok(after, k) by {
                if k != node {
                    assert(slot_ok(right.0, k));
                }
            }
        }
    }
}

/// No split without a gain: where no trial at a node has a positive gain,
/// the node is not split and the node array stays as it was, so that a slot
/// that was unused is still unused.
pub proof fn lemma_no_gain_no_split(
    plan: Plan,
    nodes: Seq<NodeSpec>,
    rows: Seq<usize>,
    node: nat,
    depth: int,
)
    requires
        plan.search(node, rows).none_leads(plan.search(node, rows).picks().len() as int, 0),
    ensures
        plan.grown(nodes, rows, node, depth) == (nodes, -1int),
{
    lemma_best_is_none(plan.search(node, rows));
}

/// A node that is split is split for a gain: the split that is recorded has
/// a positive gain, no trial at the node has a greater one, and no earlier
/// trial has the same.
pub proof fn lemma_split_has_gain(
    plan: Plan,
    nodes: Seq<NodeSpec>,
    rows: Seq<usize>,
    node: nat,
    depth: int,
)
    requires
        plan.grown(nodes, rows, node, depth).1 != -1,
    ensures
        plan.search(node, rows).best().is_some(),
        plan.search(node, rows).wins(
            plan.search(node, rows).best().unwrap().0,
            plan.search(node, rows).best().unwrap().1,
        ),
        plan.search(node, rows).gain(
            plan.split_column(node, rows),
            plan.split_value(node, rows),
        ).is_some(),
        plan.search(node, rows).gain(
            plan.split_column(node, rows),
            plan.split_value(node, rows),
        ).unwrap() > 0,
        plan.data.admissible(
            plan.params.min_sample_leaf as int,
            rows,
            plan.split_column(node, rows),
            plan.split_value(node, rows),
        ),
{
    let s = plan.search(node, rows);
    let (i, j) = choose|i: int, j: int| s.wins(i, j);
    assert(s.wins((i, j).0, (i, j).1));
    let t = choose|t: (int, int)| s.wins(t.0, t.1);
    assert(s.gain_at(t.0, t.1).is_some());
}

/// A node that is split has a name in its slot: the name of a column of the
/// table, which is not empty. An empty name tells an unused slot.
pub proof fn lemma_split_is_named(
    plan: Plan,
    nodes: Seq<NodeSpec>,
    rows: Seq<usize>,
    node: nat,
    depth: int,
)
    requires
        plan.data.table.wf(),
        plan.grown(nodes, rows, node, depth).1 != -1,
    ensures
        plan.split_column(node, rows) < plan.data.table.spec_width(),
        plan.grown(nodes, rows, node, depth).0[node as int].col_name
            == plan.data.table.spec_name(plan.split_column(node, rows) as int),
        plan.grown(nodes, rows, node, depth).0[node as int].col_name.len() > 0,
        plan.grown(nodes, rows, node, depth).0[node as int].split_value == plan.split_value(
            node,
            rows,
        ),
{
    lemma_split_has_gain(plan, nodes, rows, node, depth);
    lemma_grown_keeps_layout(plan, nodes, plan.left(node, rows), 2 * node + 1, depth + 1);
    let left = plan.grown(nodes, plan.left(node, rows), 2 * node + 1, depth + 1);
    lemma_grown_keeps_layout(plan, left.0, plan.right(node, rows), 2 * node + 2, depth + 1);
    plan.data.table.lemma_names_not_empty(plan.split_column(node, rows) as int);
}

/// Whether slot `k` lies in the tree below slot `root`, the root counted in.
pub open spec fn in_subtree(root: nat, k: nat) -> bool
    decreases k,
{
    k == root || (k > root && k > 0 && in_subtree(root, ((k - 1) / 2) as nat))
}

/// The trees below the two children of a slot lie in the tree below the
/// slot, without the slot itself, and have no slot in common.
proof fn lemma_children_apart(node: nat, k: nat)
    ensures
        in_subtree(2 * node + 1, k) || in_subtree(2 * node + 2, k) ==> in_subtree(node, k) && k
            != node,
        !(in_subtree(2 * node + 1, k) && in_subtree(2 * node + 2, k)),
    decreases k,
{
    if k > 2 * node + 2 {
        lemma_children_apart(node, ((k - 1) / 2) as nat);
    } else if k == 2 * node + 1 || k == 2 * node + 2 {
        assert(((k - 1) / 2) as nat == node);
        assert(in_subtree(node, node));
        assert(!in_subtree(2 * node + 1, node));
    }
}

/// Growing a tree from a slot changes the slots of the tree below it only.
pub proof fn lemma_grown_frame(
    plan: Plan,
    nodes: Seq<NodeSpec>,
    rows: Seq<usize>,
    node: nat,
    depth: int,
    k: nat,
)
    requires
        k < nodes.len(),
        !in_subtree(node, k),
    ensures
        plan.grown(nodes, rows, node, depth).0[k as int] == nodes[k as int],
    decreases plan.params.max_depth - depth,
{
    if plan.splits(nodes, rows, node, depth) {
        lemma_children_apart(node, k);
        let left = plan.grown(nodes, plan.left(node, rows), 2 * node + 1, depth + 1);
        lemma_grown_frame(plan, nodes, plan.left(node, rows), 2 * node + 1, depth + 1, k);
        lemma_grown_keeps_layout(plan, nodes, plan.left(node, rows), 2 * node + 1, depth + 1);
        lemma_grown_frame(plan, left.0, plan.right(node, rows), 2 * node + 2, depth + 1, k);
        lemma_grown_keeps_layout(plan, left.0, plan.right(node, rows), 2 * node + 2, depth + 1);
    }
}

/// Whether every split of the tree below slot `node`, as far as recorded
/// branches lead, is on a column of the table and divides the rows that come
/// to it so that both sides and the rows themselves have a summary and each
/// side has more than `min_leaf` rows. The rows that come to a child are
/// those that the split of its parent sends to its side.
pub open spec fn splits_admissible(
    data: DataSpec,
    min_leaf: int,
    nodes: Seq<NodeSpec>,
    rows: Seq<usize>,
    node: int,
) -> bool
    decreases nodes.len() - node,
{
    if 0 <= node < nodes.len() {
        let c = column_named(data.table, nodes[node].col_name);
        let v = nodes[node].split_value;
        &&& c < data.table.spec_width()
        &&& data.table.spec_name(c as int) == nodes[node].col_name
        &&& data.admissible(min_leaf, rows, c, v)
        &&& if node < nodes[node].true_branch < nodes.len() {
            splits_admissible(
                data,
                min_leaf,
                nodes,
                data.left_rows(c, v, rows),
                nodes[node].true_branch,
            )
        } else {
            true
        }
        &&& if node < nodes[node].false_branch < nodes.len() {
            splits_admissible(
                data,
                min_leaf,
                nodes,
                data.right_rows(c, v, rows),
                nodes[node].false_branch,
            )
        } else {
            true
        }
    } else {
        true
    }
}

/// Whether the splits of a tree are admissible depends on the slots of the
/// tree only.
proof fn lemma_admissible_is_local(
    data: DataSpec,
    min_leaf: int,
    a: Seq<NodeSpec>,
    b: Seq<NodeSpec>,
    rows: Seq<usize>,
    node: int,
)
    requires
        a.len() == b.len(),
        slots_ok(a),
        0 <= node,
        forall|k: nat| k < a.len() && in_subtree(node as nat, k) ==> a[k as int] == b[k as int],
        splits_admissible(data, min_leaf, a, rows, node),
    ensures
        splits_admissible(data, min_leaf, b, rows, node),
    decreases a.len() - node,
{
    if node < a.len() {
        assert(in_subtree(node as nat, node as nat));
        assert(a[node] == b[node]);
        assert(slot_ok(a, node));
        let c = column_named(data.table, a[node].col_name);
        let v = a[node].split_value;
        if a[node].true_branch > node {
            assert forall|k: nat|
                k < a.len() && in_subtree((2 * node + 1) as nat, k) implies a[k as int]
                == b[k as int] by {
                lemma_children_apart(node as nat, k);
            }
            lemma_admissible_is_local(
                data,
                min_leaf,
                a,
                b,
                data.left_rows(c, v, rows),
                2 * node + 1,
            );
        }
        if a[node].false_branch > node {
            assert forall|k: nat|
                k < a.len() && in_subtree((2 * node + 2) as nat, k) implies a[k as int]
                == b[k as int] by {
                lemma_children_apart(node as nat, k);
            }
            lemma_admissible_is_local(
                data,
                min_leaf,
                a,
                b,
                data.right_rows(c, v, rows),
                2 * node + 2,
            );
        }
    }
}

/// The leaf size is respected: in a tree that has been grown, every split,
/// as far as recorded branches lead from the slot it was grown from, has a
/// summary on both sides and more than `min_sample_leaf` rows on each.
pub proof fn lemma_leaf_size_respected(
    plan: Plan,
    nodes: Seq<NodeSpec>,
    rows: Seq<usize>,
    node: nat,
    depth: int,
)
    requires
        plan.data.table.wf(),
        slots_ok(nodes),
        plan.grown(nodes, rows, node, depth).1 != -1,
    ensures
        splits_admissible(
            plan.data,
            plan.params.min_sample_leaf as int,
            plan.grown(nodes, rows, node, depth).0,
            rows,
            node as int,
        ),
    decreases plan.params.max_depth - depth,
{
    let data = plan.data;
    let min_leaf = plan.params.min_sample_leaf as int;
    let after = plan.grown(nodes, rows, node, depth).0;
    let c = plan.split_column(node, rows);
    let v = plan.split_value(node, rows);
    lemma_split_has_gain(plan, nodes, rows, node, depth);
    lemma_grown_keeps_layout(plan, nodes, rows, node, depth);
    let left = plan.grown(nodes, plan.left(node, rows), 2 * node + 1, depth + 1);
    lemma_grown_keeps_layout(plan, nodes, plan.left(node, rows), 2 * node + 1, depth + 1);
    let right = plan.grown(left.0, plan.right(node, rows), 2 * node + 2, depth + 1);
    lemma_grown_keeps_layout(plan, left.0, plan.right(node, rows), 2 * node + 2, depth + 1);
    assert(after[node as int].col_name == data.table.spec_name(c as int));
    assert(after[node as int].split_value == v);
    assert(c < data.table.spec_width());
    let named = column_named(data.table, after[node as int].col_name);
    assert(named < data.table.spec_width() && data.table.spec_name(named as int)
        == data.table.spec_name(c as int));
    data.table.lemma_names_differ(named as int, c as int);
    if left.1 != -1 {
        lemma_leaf_size_respected(plan, nodes, plan.left(node, rows), 2 * node + 1, depth + 1);
        assert forall|k: nat|
            k < left.0.len() && in_subtree(2 * node + 1, k) implies left.0[k as int]
            == after[k as int] by {
            lemma_children_apart(node, k);
            lemma_grown_frame(plan, left.0, plan.right(node, rows), 2 * node + 2, depth + 1, k);
        }
        lemma_admissible_is_local(
            data,
            min_leaf,
            left.0,
            after,
            plan.left(node, rows),
            2 * node as int + 1,
        );
    }
    if right.1 != -1 {
        lemma_leaf_size_respected(plan, left.0, plan.right(node, rows), 2 * node + 2, depth + 1);
        assert forall|k: nat|
            k < right.0.len() && in_subtree(2 * node + 2, k) implies right.0[k as int]
            == after[k as int] by {
            lemma_children_apart(node, k);
        }
        lemma_admissible_is_local(
            data,
            min_leaf,
            right.0,
            after,
            plan.right(node, rows),
            2 * node as int + 2,
        );
    }
}

/// A fit is determined by what it is given: two models with the same
/// settings and the same node array, fitted to the same table under the same
/// column names with the same seed and the same gain, end up the same.
pub proof fn lemma_fit_is_determined(
    a: ModelSpec,
    b: ModelSpec,
    table: Table,
    treatment: Seq<char>,
    outcome: Seq<char>,
    seed: u64,
    score: spec_fn(GainArgs) -> i64,
)
    requires
        a.params == b.params,
        a.nodes == b.nodes,
    ensures
        fitted(a, table, treatment, outcome, seed, score) == fitted(
            b,
            table,
            treatment,
            outcome,
            seed,
            score,
        ),
{
}

} // verus!
