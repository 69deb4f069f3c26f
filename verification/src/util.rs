//! Pre-order traversal of a tree given by the children of each node.
use vstd::prelude::*;

verus! {

/// The children of `node`: its row of `tree`, none when it has no row.
pub open spec fn children_of(tree: Seq<Seq<usize>>, node: usize) -> Seq<usize> {
    if node < tree.len() {
        tree[node as int]
    } else {
        Seq::empty()
    }
}

/// The nodes under `node` in pre-order, looking at most `fuel` levels below
/// it: the node, then the subtrees of its children from the first to the
/// last.
pub open spec fn pre_order_fuel(tree: Seq<Seq<usize>>, node: usize, fuel: nat) -> Seq<usize>
    decreases fuel, 0nat,
{
    seq![node] + if fuel == 0 {
        Seq::empty()
    } else {
        forest(tree, children_of(tree, node), (fuel - 1) as nat)
    }
}

/// The subtrees of `nodes` in pre-order, one after another.
pub open spec fn forest(tree: Seq<Seq<usize>>, nodes: Seq<usize>, fuel: nat) -> Seq<usize>
    decreases fuel, nodes.len(),
{
    if nodes.len() == 0 {
        Seq::empty()
    } else {
        pre_order_fuel(tree, nodes[0], fuel) + forest(tree, nodes.drop_first(), fuel)
    }
}

/// No path below `node` is `fuel` levels deep or deeper.
pub open spec fn bounded(tree: Seq<Seq<usize>>, node: usize, fuel: nat) -> bool
    decreases fuel, 0nat,
{
    fuel > 0 && bounded_forest(tree, children_of(tree, node), (fuel - 1) as nat)
}

/// No path below any of `nodes` is `fuel` levels deep or deeper.
pub open spec fn bounded_forest(tree: Seq<Seq<usize>>, nodes: Seq<usize>, fuel: nat) -> bool
    decreases fuel, nodes.len(),
{
    nodes.len() == 0 || (bounded(tree, nodes[0], fuel) && bounded_forest(
        tree,
        nodes.drop_first(),
        fuel,
    ))
}

/// The rows of `tree` as sequences.
pub open spec fn rows(tree: Seq<Vec<usize>>) -> Seq<Seq<usize>> {
    tree.map_values(|v: Vec<usize>| v@)
}

/// More fuel gives the same traversal once the subtree is bounded.
proof fn lemma_fuel_enough(tree: Seq<Seq<usize>>, node: usize, f: nat, g: nat)
    requires
        bounded(tree, node, f),
        f <= g,
    ensures
        bounded(tree, node, g),
        pre_order_fuel(tree, node, g) == pre_order_fuel(tree, node, f),
    decreases f, 0nat,
{
    lemma_forest_fuel_enough(tree, children_of(tree, node), (f - 1) as nat, (g - 1) as nat);
}

proof fn lemma_forest_fuel_enough(tree: Seq<Seq<usize>>, nodes: Seq<usize>, f: nat, g: nat)
    requires
        bounded_forest(tree, nodes, f),
        f <= g,
    ensures
        bounded_forest(tree, nodes, g),
        forest(tree, nodes, g) == forest(tree, nodes, f),
    decreases f, nodes.len(),
{
    if nodes.len() > 0 {
        lemma_fuel_enough(tree, nodes[0], f, g);
        lemma_forest_fuel_enough(tree, nodes.drop_first(), f, g);
    }
}

/// The subtrees still to visit, the one on top of `stack` (its last entry)
/// first, each with its fuel.
pub open spec fn pending(tree: Seq<Seq<usize>>, stack: Seq<usize>, fuels: Seq<nat>) -> Seq<usize>
    decreases stack.len(),
{
    if stack.len() == 0 || fuels.len() == 0 {
        Seq::empty()
    } else {
        pre_order_fuel(tree, stack.last(), fuels.last()) + pending(
            tree,
            stack.drop_last(),
            fuels.drop_last(),
        )
    }
}

/// The nodes of the tree under `root` in pre-order: each node before its
/// children, and the subtrees of the children from the first to the last.
/// Node `i` has the children `tree[i]`, or none when `i` has no row.
pub fn pre_order_iter(root: usize, tree: &Vec<Vec<usize>>) -> (res: Vec<usize>)
    requires
        exists|fuel: nat| bounded(rows(tree@), root, fuel),
    ensures
        forall|fuel: nat|
            #[trigger] bounded(rows(tree@), root, fuel) ==> res@ == pre_order_fuel(
                rows(tree@),
                root,
                fuel,
            ),
{
    let ghost t = rows(tree@);
    let ghost big = choose|fuel: nat| bounded(t, root, fuel);
    let mut out: Vec<usize> = Vec::new();
    let mut stack: Vec<usize> = Vec::new();
    let ghost mut fuels: Seq<nat> = seq![big];
    stack.push(root);
    assert(pending(t, stack@, fuels) =~= pre_order_fuel(t, root, big)) by {
        assert(stack@.drop_last().len() == 0);
        assert(pending(t, stack@.drop_last(), fuels.drop_last()) =~= Seq::<usize>::empty());
        assert(stack@.last() == root);
        assert(fuels.last() == big);
    }
    while stack.len() > 0
        invariant
            t == rows(tree@),
            stack@.len() == fuels.len(),
            forall|k: int| 0 <= k < stack@.len() ==> bounded(t, #[trigger] stack@[k], fuels[k]),
            out@ + pending(t, stack@, fuels) == pre_order_fuel(t, root, big),
        decreases pending(t, stack@, fuels).len(),
    {
        let ghost old_stack = stack@;
        let ghost old_fuels = fuels;
        let node = stack.pop().unwrap();
        let ghost f = old_fuels.last();
        proof {
            fuels = fuels.drop_last();
            assert(stack@ == old_stack.drop_last());
        }
        let ghost old_out = out@;
        out.push(node);
        let ghost rest = pending(t, stack@, fuels);
        assert(bounded(t, node, f)) by {
            assert(old_stack[old_stack.len() - 1] == node);
        }
        let ghost ch = children_of(t, node);
        if node < tree.len() {
            let row = &tree[node];
            assert(row@ == ch);
            let mut j = row.len();
            while j > 0
                invariant
                    t == rows(tree@),
                    j <= row@.len(),
                    row@ == ch,
                    f > 0,
                    bounded_forest(t, ch, (f - 1) as nat),
                    stack@.len() == fuels.len(),
                    forall|k: int| 0 <= k < stack@.len() ==> bounded(t, #[trigger] stack@[k], fuels[k]),
                    pending(t, stack@, fuels) == forest(t, ch.subrange(j as int, ch.len() as int), (f
                        - 1) as nat) + rest,
                decreases j,
            {
                j -= 1;
                let c = row[j];
                let ghost before = stack@;
                let ghost before_fuels = fuels;
                stack.push(c);
                proof {
                    fuels = fuels.push((f - 1) as nat);
                    assert(stack@.drop_last() == before);
                    assert(fuels.drop_last() == before_fuels);
                    let sub = ch.subrange(j as int, ch.len() as int);
                    assert(sub.drop_first() =~= ch.subrange(j + 1, ch.len() as int));
                    assert(sub[0] == c);
                    lemma_bounded_forest_at(t, ch, (f - 1) as nat, j as int);
                }
            }
            assert(ch.subrange(0, ch.len() as int) =~= ch);
        } else {
            assert(ch.len() == 0);
            assert(ch.subrange(0, 0) =~= ch);
        }
        proof {
            assert(pre_order_fuel(t, node, f) == seq![node] + forest(t, ch, (f - 1) as nat));
            assert(out@ + pending(t, stack@, fuels) =~= old_out.push(node) + forest(
                t,
                ch,
                (f - 1) as nat,
            ) + rest);
        }
    }
    assert(out@ =~= pre_order_fuel(t, root, big)) by {
        assert(pending(t, stack@, fuels).len() == 0);
        assert(out@ + pending(t, stack@, fuels) =~= out@);
    }
    assert forall|fuel: nat| #[trigger] bounded(t, root, fuel) implies out@ == pre_order_fuel(
        t,
        root,
        fuel,
    ) by {
        if fuel <= big {
            lemma_fuel_enough(t, root, fuel, big);
        } else {
            lemma_fuel_enough(t, root, big, fuel);
        }
    }
    out
}

/// Every one of `nodes` is bounded when the forest is.
proof fn lemma_bounded_forest_at(tree: Seq<Seq<usize>>, nodes: Seq<usize>, fuel: nat, j: int)
    requires
        bounded_forest(tree, nodes, fuel),
        0 <= j < nodes.len(),
    ensures
        bounded(tree, nodes[j], fuel),
        bounded_forest(tree, nodes.subrange(j, nodes.len() as int), fuel),
    decreases nodes.len(),
{
    if j == 0 {
        assert(nodes.subrange(0, nodes.len() as int) =~= nodes);
    } else {
        lemma_bounded_forest_at(tree, nodes.drop_first(), fuel, j - 1);
        assert(nodes.drop_first().subrange(j - 1, nodes.len() - 1) =~= nodes.subrange(
            j,
            nodes.len() as int,
        ));
    }
}

} // verus!
