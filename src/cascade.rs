use vstd::prelude::*;

use crate::layout::{checked_pow2, lemma_two_pow_monotone, two_pow};

verus! {

/// `child` is the level after `parent` in a cascade, split at level `i`: the
/// value at `j` of `parent` became the two values at `2j` and `2j + 1` of
/// `child`, as one call of `split` may turn it.
pub open spec fn splits_level<T, F: Fn(usize, T) -> (T, T)>(
    split: F,
    i: usize,
    parent: Seq<T>,
    child: Seq<T>,
) -> bool {
    &&& child.len() == 2 * parent.len()
    &&& forall|j: int|
        #![trigger parent[j]]
        0 <= j < parent.len() ==> split.ensures((i, parent[j]), (child[2 * j], child[2 * j + 1]))
}

/// `tree` holds the levels of a cascade from `root`, coarsest first: the root
/// alone, then each level split from the one before it.
pub open spec fn is_cascade_tree<T, F: Fn(usize, T) -> (T, T)>(
    split: F,
    root: T,
    tree: Seq<Seq<T>>,
) -> bool {
    &&& tree.len() >= 1
    &&& tree[0] == seq![root]
    &&& forall|i: int|
        0 <= i < tree.len() - 1 ==> splits_level(split, i as usize, #[trigger] tree[i], tree[i + 1])
}

/// `path` is the finest level of a cascade from `root` over `levels` levels.
pub open spec fn is_cascade<T, F: Fn(usize, T) -> (T, T)>(
    split: F,
    root: T,
    levels: nat,
    path: Seq<T>,
) -> bool {
    exists|tree: Seq<Seq<T>>|
        #[trigger] is_cascade_tree(split, root, tree) && tree.len() == levels + 1 && tree.last() == path
}

/// Expands `root` into a path of `2^levels` values by a multiplicative
/// cascade, in place in one buffer.
///
/// At level `i` each of the `2^i` values at `j` is split by `split(i, x)`
/// into the values at `2j` and `2j + 1`. The nodes of a level are visited
/// from the last to the first, so that no value is overwritten before it is
/// split; `split` is therefore called level by level, and within a level in
/// descending order of the node.
pub fn cascade<T: Copy, F: Fn(usize, T) -> (T, T)>(root: T, levels: usize, split: F) -> (r: Vec<T>)
    requires
        two_pow(levels as nat) <= usize::MAX,
        forall|i: usize, x: T| i < levels ==> #[trigger] split.requires((i, x)),
    ensures
        r@.len() == two_pow(levels as nat),
        is_cascade(split, root, levels as nat, r@),
{
    let n = checked_pow2(levels).unwrap();
    let mut buf: Vec<T> = Vec::new();
    while buf.len() < n
        invariant
            buf@.len() <= n,
            forall|m: int| 0 <= m < buf@.len() ==> buf@[m] == root,
        decreases n - buf@.len(),
    {
        buf.push(root);
    }
    proof {
        lemma_two_pow_monotone(0, levels as nat);
        assert(buf@.subrange(0, 1) =~= seq![root]);
        assert(two_pow(0) == 1);
    }
    let ghost mut tree: Seq<Seq<T>> = seq![seq![root]];
    let mut half: usize = 1;
    let mut i: usize = 0;
    while i < levels
        invariant
            i <= levels,
            n == two_pow(levels as nat),
            buf@.len() == n,
            half == two_pow(i as nat),
            forall|l: usize, x: T| l < levels ==> #[trigger] split.requires((l, x)),
            is_cascade_tree(split, root, tree),
            tree.len() == i + 1,
            tree.last() == buf@.subrange(0, half as int),
        decreases levels - i,
    {
        proof {
            lemma_two_pow_monotone(i as nat + 1, levels as nat);
        }
        let ghost parent = tree.last();
        let mut j: usize = half;
        while j > 0
            invariant
                i < levels,
                j <= half,
                2 * half <= n,
                buf@.len() == n,
                parent.len() == half,
                forall|l: usize, x: T| l < levels ==> #[trigger] split.requires((l, x)),
                forall|m: int| 0 <= m < j ==> buf@[m] == parent[m],
                forall|m: int|
                    #![trigger parent[m]]
                    j <= m < half ==> split.ensures((i, parent[m]), (buf@[2 * m], buf@[2 * m + 1])),
            decreases j,
        {
            j = j - 1;
            let x = buf[j];
            let (a, b) = split(i, x);
            buf.set(2 * j, a);
            buf.set(2 * j + 1, b);
        }
        let ghost child = buf@.subrange(0, 2 * half as int);
        proof {
            assert(splits_level(split, i, parent, child));
            let old_tree = tree;
            tree = tree.push(child);
            assert forall|l: int| 0 <= l < tree.len() - 1 implies splits_level(
                split,
                l as usize,
                #[trigger] tree[l],
                tree[l + 1],
            ) by {
                if l < old_tree.len() - 1 {
                    assert(tree[l] == old_tree[l] && tree[l + 1] == old_tree[l + 1]);
                }
            }
        }
        half = half * 2;
        i = i + 1;
    }
    proof {
        assert(buf@.subrange(0, n as int) =~= buf@);
    }
    buf
}

/// Every value of a cascade has each property that its root has and that
/// every split passes on to both halves: a path expanded from a
/// non-negative root by multipliers `1 + a` and `1 - a` with `a` in
/// `[-1, 1]` is non-negative throughout.
pub proof fn lemma_cascade_preserves<T, F: Fn(usize, T) -> (T, T)>(
    split: F,
    root: T,
    levels: nat,
    path: Seq<T>,
    prop: spec_fn(T) -> bool,
)
    requires
        is_cascade(split, root, levels, path),
        prop(root),
        forall|i: usize, x: T, c: (T, T)|
            prop(x) && #[trigger] split.ensures((i, x), c) ==> prop(c.0) && prop(c.1),
    ensures
        forall|k: int| 0 <= k < path.len() ==> prop(#[trigger] path[k]),
{
    let tree = choose|tree: Seq<Seq<T>>|
        #[trigger] is_cascade_tree(split, root, tree) && tree.len() == levels + 1 && tree.last() == path;
    lemma_tree_level_preserves(split, root, tree, levels as int, prop);
}

/// The property of the root holds of every value of level `l` of the tree.
proof fn lemma_tree_level_preserves<T, F: Fn(usize, T) -> (T, T)>(
    split: F,
    root: T,
    tree: Seq<Seq<T>>,
    l: int,
    prop: spec_fn(T) -> bool,
)
    requires
        is_cascade_tree(split, root, tree),
        0 <= l < tree.len(),
        prop(root),
        forall|i: usize, x: T, c: (T, T)|
            prop(x) && #[trigger] split.ensures((i, x), c) ==> prop(c.0) && prop(c.1),
    ensures
        forall|k: int| 0 <= k < tree[l].len() ==> prop(#[trigger] tree[l][k]),
    decreases l,
{
    if l > 0 {
        lemma_tree_level_preserves(split, root, tree, l - 1, prop);
        let parent = tree[l - 1];
        let child = tree[l];
        assert(splits_level(split, (l - 1) as usize, parent, child));
        assert forall|k: int| 0 <= k < child.len() implies prop(#[trigger] child[k]) by {
            let j = k / 2;
            assert(0 <= j < parent.len());
            assert(prop(parent[j]));
            let c = (child[2 * j], child[2 * j + 1]);
            assert(split.ensures(((l - 1) as usize, parent[j]), c));
            assert(k == 2 * j || k == 2 * j + 1);
        }
    } else {
        assert(tree[0] == seq![root]);
    }
}

} // verus!
