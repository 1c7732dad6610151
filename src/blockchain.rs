//! The ledger as a tree of blocks rooted at a genesis block: merging an
//! unordered batch of blocks into it, enumerating its chains and choosing
//! the longest one.
use crate::block::{is_genesis_block, Block, BlockView};
use crate::simpletree::{Tree, TreeNode};
use std::collections::HashSet;
use vstd::prelude::*;
use vstd::string::StringExecFns;

verus! {

broadcast use vstd::std_specs::hash::group_hash_axioms;

/// Where a pass over the candidates stands: the tree so far, the nonces
/// already taken in, the candidates kept for the next pass, and whether
/// any candidate was taken in.
pub struct PassState {
    pub tree: Tree<Block>,
    pub seen: Set<u64>,
    pub retained: Seq<Block>,
    pub progress: bool,
}

/// The state after one pass over the first `k` candidates of `todo`:
/// a candidate whose nonce was seen is dropped; one whose parent is in the
/// tree is added under the first such node; any other is kept.
pub open spec fn pass_upto(tree: Tree<Block>, seen: Set<u64>, todo: Seq<Block>, k: int) -> PassState
    decreases k,
{
    if k <= 0 || k > todo.len() {
        PassState { tree, seen, retained: Seq::empty(), progress: false }
    } else {
        let st = pass_upto(tree, seen, todo, k - 1);
        let b = todo[k - 1];
        if st.seen.contains(b.nonce) {
            st
        } else {
            match st.tree.insert_under(b.parent_hash@, b) {
                Some(t) => PassState {
                    tree: t,
                    seen: st.seen.insert(b.nonce),
                    retained: st.retained,
                    progress: true,
                },
                None => PassState { retained: st.retained.push(b), ..st },
            }
        }
    }
}

/// One full pass over `todo`.
pub open spec fn pass(tree: Tree<Block>, seen: Set<u64>, todo: Seq<Block>) -> PassState {
    pass_upto(tree, seen, todo, todo.len() as int)
}

/// A pass keeps at most as many candidates as it is given, and fewer when
/// it takes one in.
pub proof fn lemma_pass_shrinks(tree: Tree<Block>, seen: Set<u64>, todo: Seq<Block>, k: int)
    requires
        0 <= k <= todo.len(),
    ensures
        pass_upto(tree, seen, todo, k).retained.len() <= k,
        pass_upto(tree, seen, todo, k).progress ==> pass_upto(tree, seen, todo, k).retained.len()
            < k,
    decreases k,
{
    if k > 0 {
        lemma_pass_shrinks(tree, seen, todo, k - 1);
    }
}

/// Passes repeated until one takes nothing in or nothing is left: the
/// final tree and the orphans.
pub open spec fn merge_passes(tree: Tree<Block>, seen: Set<u64>, todo: Seq<Block>) -> (Tree<
    Block,
>, Seq<Block>)
    decreases todo.len(),
{
    if todo.len() == 0 {
        (tree, todo)
    } else {
        let st = pass(tree, seen, todo);
        if !st.progress {
            (st.tree, st.retained)
        } else {
            proof {
                lemma_pass_shrinks(tree, seen, todo, todo.len() as int);
            }
            merge_passes(st.tree, st.seen, st.retained)
        }
    }
}

/// The tree grown from `genesis` with `blocks`, and the orphans left.
pub open spec fn merged(genesis: Block, blocks: Seq<Block>) -> (Tree<Block>, Seq<Block>) {
    merge_passes(Tree::leaf(genesis), set![genesis.nonce], blocks)
}

/// A pass never forgets a nonce it was given.
pub proof fn lemma_pass_seen_grows(tree: Tree<Block>, seen: Set<u64>, todo: Seq<Block>, k: int)
    ensures
        seen.subset_of(pass_upto(tree, seen, todo, k).seen),
    decreases k,
{
    if k > 0 && k <= todo.len() {
        lemma_pass_seen_grows(tree, seen, todo, k - 1);
    }
}

/// The first `k` steps of a pass do not look past the `k`-th candidate.
pub proof fn lemma_pass_prefix(tree: Tree<Block>, seen: Set<u64>, todo: Seq<Block>, b: Block, k: int)
    requires
        k <= todo.len(),
    ensures
        pass_upto(tree, seen, todo.push(b), k) == pass_upto(tree, seen, todo, k),
    decreases k,
{
    if k > 0 {
        lemma_pass_prefix(tree, seen, todo, b, k - 1);
        assert(todo.push(b)[k - 1] == todo[k - 1]);
    }
}

/// Merging a block whose nonce is already known changes nothing: the tree
/// comes out the same, and the block is not among the orphans. The nonce
/// may be known before the merge starts, or be that of a block which the
/// first pass takes in, such as an earlier copy of the same block.
pub proof fn lemma_merge_duplicate_nonce(
    tree: Tree<Block>,
    seen: Set<u64>,
    todo: Seq<Block>,
    b: Block,
)
    requires
        seen.contains(b.nonce) || pass(tree, seen, todo).seen.contains(b.nonce),
    ensures
        merge_passes(tree, seen, todo.push(b)) == merge_passes(tree, seen, todo),
{
    let n = todo.len() as int;
    lemma_pass_prefix(tree, seen, todo, b, n);
    lemma_pass_seen_grows(tree, seen, todo, n);
    let st = pass(tree, seen, todo);
    assert(todo.push(b)[n] == b);
    assert(pass(tree, seen, todo.push(b)) == st);
    if n == 0 {
        assert(todo =~= Seq::<Block>::empty());
    } else if st.progress {
        lemma_pass_shrinks(tree, seen, todo, n);
    }
}

/// A ledger grown from `g`: a block repeated after a batch, whose nonce is
/// `g`'s or that of a block the first pass takes in, changes nothing.
pub proof fn lemma_merged_duplicate(g: Block, xs: Seq<Block>, d: Block)
    requires
        d.nonce == g.nonce || pass(Tree::leaf(g), set![g.nonce], xs).seen.contains(d.nonce),
    ensures
        merged(g, xs.push(d)) == merged(g, xs),
{
    lemma_merge_duplicate_nonce(Tree::leaf(g), set![g.nonce], xs, d);
}

/// A ledger grown from `g`: a block after a batch whose parent is neither
/// `g` nor in the batch, and whose nonce is new, leaves the tree as it is
/// and comes last among the orphans.
pub proof fn lemma_merged_orphan(g: Block, xs: Seq<Block>, x: Block)
    requires
        x.nonce != g.nonce,
        crate::block::hash_of(g@) != x.parent_hash@,
        forall|j: int| 0 <= j < xs.len() ==> unrelated(#[trigger] xs[j], x),
    ensures
        merged(g, xs.push(x)) == (merged(g, xs).0, merged(g, xs).1.push(x)),
{
    let t = Tree::<Block>::leaf(g);
    assert(t.insert_under_from(x.parent_hash@, x, 0) is None);
    lemma_merge_appended_orphan(t, set![g.nonce], xs, x);
}


/// The nonces of every block in the tree.
pub open spec fn tree_nonces(t: Tree<Block>) -> Set<u64>
    decreases t, t.children.len() + 1,
{
    set![t.value.nonce].union(nonces_upto(t, t.children.len() as int))
}

/// The nonces of the blocks below the first `k` children.
pub open spec fn nonces_upto(t: Tree<Block>, k: int) -> Set<u64>
    decreases t, k,
{
    if k <= 0 || k > t.children.len() {
        Set::empty()
    } else {
        nonces_upto(t, k - 1).union(tree_nonces(t.children[k - 1]))
    }
}

/// A tree of one block holds only that block's nonce.
pub proof fn lemma_leaf_nonces(g: Block)
    ensures
        tree_nonces(Tree::leaf(g)) == set![g.nonce],
{
    assert(nonces_upto(Tree::leaf(g), 0) =~= Set::<u64>::empty());
    assert(tree_nonces(Tree::leaf(g)) =~= set![g.nonce]);
}

/// The nonces below the first `k` children depend on those children only.
proof fn lemma_nonces_upto_prefix(t: Tree<Block>, t2: Tree<Block>, k: int)
    requires
        0 <= k <= t.children.len(),
        k <= t2.children.len(),
        forall|j: int| 0 <= j < k ==> #[trigger] t.children[j] == t2.children[j],
    ensures
        nonces_upto(t, k) == nonces_upto(t2, k),
    decreases k,
{
    if k > 0 {
        lemma_nonces_upto_prefix(t, t2, k - 1);
    }
}

/// Inserting a block adds its nonce to the tree's nonces, and removes none.
pub proof fn lemma_insert_adds_nonce(t: Tree<Block>, h: Seq<u8>, v: Block)
    requires
        t.insert_under(h, v) is Some,
    ensures
        tree_nonces(t.insert_under(h, v).unwrap()) == tree_nonces(t).insert(v.nonce),
    decreases t, t.children.len() + 1,
{
    let n = t.children.len() as int;
    if crate::block::hash_of(t.value@) == h {
        let t2 = t.with_child(Tree::leaf(v));
        lemma_nonces_upto_prefix(t, t2, n);
        lemma_leaf_nonces(v);
        assert(nonces_upto(t2, n + 1) == nonces_upto(t, n).union(set![v.nonce]));
    } else {
        lemma_insert_from_adds_nonce(t, h, v, 0);
    }
    assert(tree_nonces(t.insert_under(h, v).unwrap()) =~= tree_nonces(t).insert(v.nonce));
}

proof fn lemma_insert_from_adds_nonce(t: Tree<Block>, h: Seq<u8>, v: Block, i: int)
    requires
        0 <= i,
        t.insert_under_from(h, v, i) is Some,
    ensures
        t.insert_under_from(h, v, i).unwrap().value == t.value,
        t.insert_under_from(h, v, i).unwrap().children.len() == t.children.len(),
        nonces_upto(t.insert_under_from(h, v, i).unwrap(), t.children.len() as int) == nonces_upto(
            t,
            t.children.len() as int,
        ).insert(v.nonce),
    decreases t, t.children.len() - i,
{
    match t.children[i].insert_under(h, v) {
        Some(c) => {
            lemma_insert_adds_nonce(t.children[i], h, v);
            let t2 = t.with_child_at(i, c);
            lemma_nonces_upto_changed(t, t2, i, v, t.children.len() as int);
        },
        None => {
            lemma_insert_from_adds_nonce(t, h, v, i + 1);
        },
    }
}

proof fn lemma_nonces_upto_changed(t: Tree<Block>, t2: Tree<Block>, i: int, v: Block, k: int)
    requires
        0 <= i < t.children.len(),
        0 <= k <= t.children.len(),
        t2.children.len() == t.children.len(),
        forall|j: int| 0 <= j < t.children.len() && j != i ==> #[trigger] t2.children[j] == t.children[j],
        tree_nonces(t2.children[i]) == tree_nonces(t.children[i]).insert(v.nonce),
    ensures
        nonces_upto(t2, k) == if k > i {
            nonces_upto(t, k).insert(v.nonce)
        } else {
            nonces_upto(t, k)
        },
    decreases k,
{
    if k > 0 {
        lemma_nonces_upto_changed(t, t2, i, v, k - 1);
        if k - 1 == i {
            assert(nonces_upto(t2, k) =~= nonces_upto(t, k).insert(v.nonce));
        } else if k > i {
            assert(t2.children[k - 1] == t.children[k - 1]);
            assert(nonces_upto(t2, k) =~= nonces_upto(t, k).insert(v.nonce));
        } else {
            assert(t2.children[k - 1] == t.children[k - 1]);
        }
    }
}

/// A pass removes no block from the tree.
proof fn lemma_pass_keeps_nonces(tree: Tree<Block>, seen: Set<u64>, todo: Seq<Block>, k: int)
    ensures
        tree_nonces(tree).subset_of(tree_nonces(pass_upto(tree, seen, todo, k).tree)),
    decreases k,
{
    if k > 0 && k <= todo.len() {
        lemma_pass_keeps_nonces(tree, seen, todo, k - 1);
        let st = pass_upto(tree, seen, todo, k - 1);
        let b = todo[k - 1];
        if !st.seen.contains(b.nonce) && st.tree.insert_under(b.parent_hash@, b) is Some {
            lemma_insert_adds_nonce(st.tree, b.parent_hash@, b);
        }
    }
}

/// Merging never removes a block: every nonce of the tree before is in the
/// tree after.
pub proof fn lemma_merge_keeps_nodes(tree: Tree<Block>, seen: Set<u64>, todo: Seq<Block>)
    ensures
        tree_nonces(tree).subset_of(tree_nonces(merge_passes(tree, seen, todo).0)),
    decreases todo.len(),
{
    if todo.len() > 0 {
        let st = pass(tree, seen, todo);
        lemma_pass_keeps_nonces(tree, seen, todo, todo.len() as int);
        if st.progress {
            lemma_pass_shrinks(tree, seen, todo, todo.len() as int);
            lemma_merge_keeps_nodes(st.tree, st.seen, st.retained);
        }
    }
}

/// Adds the nonce of every block of `node` to `set`.
fn collect_nonces(node: &TreeNode<Block>, set: &mut HashSet<u64>)
    ensures
        final(set)@ == old(set)@.union(tree_nonces(node@)),
    decreases node@.height(),
{
    proof {
        crate::simpletree::lemma_view_children(node);
    }
    set.insert(node.value.nonce);
    let mut i: usize = 0;
    while i < node.children.len()
        invariant
            0 <= i <= node.children@.len(),
            node@ == (Tree {
                value: node.value,
                children: crate::simpletree::views_of(node.children@),
            }),
            set@ == old(set)@.union(set![node.value.nonce]).union(nonces_upto(node@, i as int)),
        decreases node.children@.len() - i,
    {
        proof {
            crate::simpletree::lemma_child_height_bound(node@, i as int);
        }
        collect_nonces(&node.children[i], set);
        i = i + 1;
        assert(set@ =~= old(set)@.union(set![node.value.nonce]).union(
            nonces_upto(node@, i as int),
        ));
    }
    assert(set@ =~= old(set)@.union(tree_nonces(node@)));
}

/// `b` can neither be `x`'s parent nor share its nonce.
pub open spec fn unrelated(b: Block, x: Block) -> bool {
    b.nonce != x.nonce && crate::block::hash_of(b@) != x.parent_hash@
}

/// Through a pass over blocks unrelated to `x`, `x` stays without a parent
/// and with a new nonce, and the blocks kept stay unrelated to `x`.
proof fn lemma_pass_keeps_orphan(tree: Tree<Block>, seen: Set<u64>, todo: Seq<Block>, x: Block, k: int)
    requires
        0 <= k <= todo.len(),
        tree.insert_under(x.parent_hash@, x) is None,
        !seen.contains(x.nonce),
        forall|j: int| 0 <= j < todo.len() ==> unrelated(#[trigger] todo[j], x),
    ensures
        pass_upto(tree, seen, todo, k).tree.insert_under(x.parent_hash@, x) is None,
        !pass_upto(tree, seen, todo, k).seen.contains(x.nonce),
        forall|j: int|
            0 <= j < pass_upto(tree, seen, todo, k).retained.len() ==> unrelated(
                #[trigger] pass_upto(tree, seen, todo, k).retained[j],
                x,
            ),
    decreases k,
{
    if k > 0 {
        lemma_pass_keeps_orphan(tree, seen, todo, x, k - 1);
        let st = pass_upto(tree, seen, todo, k - 1);
        let b = todo[k - 1];
        assert(unrelated(b, x));
        if !st.seen.contains(b.nonce) && st.tree.insert_under(b.parent_hash@, b) is Some {
            crate::simpletree::lemma_insert_keeps_unmatched(
                st.tree,
                x.parent_hash@,
                x,
                b.parent_hash@,
                b,
            );
        }
    }
}

/// Merging, after a batch, a block whose parent is neither in the tree nor
/// in the batch, and whose nonce is new, gives the same tree, and the block
/// comes last among the orphans.
pub proof fn lemma_merge_appended_orphan(tree: Tree<Block>, seen: Set<u64>, todo: Seq<Block>, x: Block)
    requires
        tree.insert_under(x.parent_hash@, x) is None,
        !seen.contains(x.nonce),
        forall|j: int| 0 <= j < todo.len() ==> unrelated(#[trigger] todo[j], x),
    ensures
        merge_passes(tree, seen, todo.push(x)) == (
            merge_passes(tree, seen, todo).0,
            merge_passes(tree, seen, todo).1.push(x),
        ),
    decreases todo.len(),
{
    let n = todo.len() as int;
    lemma_pass_prefix(tree, seen, todo, x, n);
    lemma_pass_keeps_orphan(tree, seen, todo, x, n);
    lemma_pass_shrinks(tree, seen, todo, n);
    let st = pass(tree, seen, todo);
    assert(todo.push(x)[n] == x);
    assert(pass(tree, seen, todo.push(x)) == PassState { retained: st.retained.push(x), ..st });
    if n == 0 {
        assert(todo =~= Seq::<Block>::empty());
        assert(st.retained =~= Seq::<Block>::empty());
    } else if st.progress {
        lemma_merge_appended_orphan(st.tree, st.seen, st.retained, x);
    }
}

/// The contents of a sequence of blocks.
pub open spec fn views(s: Seq<Block>) -> Seq<BlockView> {
    s.map_values(|b: Block| b@)
}

/// The contents of each chain of a sequence of chains.
pub open spec fn chain_views(cs: Seq<Vec<Block>>) -> Seq<Seq<BlockView>> {
    cs.map_values(|c: Vec<Block>| views(c@))
}

/// The chains of `cs`, each after the prefix `p`, by their contents.
pub open spec fn prefixed(p: Seq<BlockView>, cs: Seq<Seq<Block>>) -> Seq<Seq<BlockView>> {
    cs.map_values(|c: Seq<Block>| p + views(c))
}

/// The chains of a tree of blocks, by their contents.
pub open spec fn tree_chains(t: Tree<Block>) -> Seq<Seq<BlockView>> {
    prefixed(Seq::empty(), t.chains())
}

/// The index of the longest chain; among chains of equal length, the last.
pub open spec fn longest_index<A>(s: Seq<Seq<A>>) -> int
    decreases s.len(),
{
    if s.len() <= 1 {
        0
    } else {
        let p = longest_index(s.drop_last());
        if s.last().len() >= s[p].len() {
            s.len() - 1
        } else {
            p
        }
    }
}

/// The longest chain; among chains of equal length, the last; empty when
/// there is none.
pub open spec fn longest<A>(s: Seq<Seq<A>>) -> Seq<A> {
    if s.len() == 0 {
        Seq::empty()
    } else {
        s[longest_index(s)]
    }
}

/// Fork choice: the chain chosen is one of the chains, no chain is longer,
/// and every chain after it is strictly shorter, so that among chains of
/// the greatest length the last one in traversal order wins.
pub proof fn lemma_longest_is_last_maximal<A>(s: Seq<Seq<A>>)
    requires
        s.len() > 0,
    ensures
        0 <= longest_index(s) < s.len(),
        longest(s) == s[longest_index(s)],
        forall|j: int| 0 <= j < s.len() ==> #[trigger] s[j].len() <= longest(s).len(),
        forall|j: int| longest_index(s) < j < s.len() ==> #[trigger] s[j].len() < longest(s).len(),
    decreases s.len(),
{
    if s.len() > 1 {
        let d = s.drop_last();
        lemma_longest_is_last_maximal(d);
        let p = longest_index(d);
        assert forall|j: int| 0 <= j < s.len() implies #[trigger] s[j].len() <= longest(s).len() by {
            if j < s.len() - 1 {
                assert(s[j] == d[j]);
            }
        }
        assert forall|j: int| longest_index(s) < j < s.len() implies #[trigger] s[j].len() < longest(
            s,
        ).len() by {
            if j < s.len() - 1 {
                assert(s[j] == d[j]);
            }
        }
    }
}

/// The longest chain has as many blocks as the tree is high: what `depth`
/// counts is the length of the chain that fork choice picks.
pub proof fn lemma_longest_chain_has_depth_blocks(t: Tree<Block>)
    ensures
        longest(tree_chains(t)).len() == t.height(),
{
    let cs = t.chains();
    let s = tree_chains(t);
    let i = crate::simpletree::lemma_chains_height(t);
    assert forall|j: int| 0 <= j < s.len() implies #[trigger] s[j].len() == cs[j].len() by {
        assert(views(cs[j]).len() == cs[j].len());
        assert(Seq::<BlockView>::empty() + views(cs[j]) =~= views(cs[j]));
    }
    lemma_longest_is_last_maximal(s);
    assert(s[i].len() == t.height());
}

/// A copy of a sequence of blocks, block by block.
fn copy_blocks(c: &Vec<Block>) -> (r: Vec<Block>)
    ensures
        views(r@) == views(c@),
{
    let mut r: Vec<Block> = Vec::new();
    let mut i: usize = 0;
    while i < c.len()
        invariant
            0 <= i <= c@.len(),
            r@.len() == i,
            forall|j: int| 0 <= j < i ==> #[trigger] r@[j]@ == c@[j]@,
        decreases c@.len() - i,
    {
        r.push(c[i].clone());
        i = i + 1;
    }
    assert(views(r@) =~= views(c@));
    r
}

/// Appends to `chains` every chain of `node`, each after `current_chain`.
fn collect_chains(node: &TreeNode<Block>, current_chain: Vec<Block>, chains: &mut Vec<Vec<Block>>)
    ensures
        chain_views(final(chains)@) == chain_views(old(chains)@) + prefixed(
            views(current_chain@),
            node@.chains(),
        ),
    decreases node@.height(),
{
    let mut new_chain = current_chain;
    new_chain.push(node.value().clone());
    let ghost p = views(current_chain@);
    proof {
        crate::simpletree::lemma_view_children(node);
        assert(views(new_chain@) =~= p + seq![node.value@]);
    }
    if node.children().len() == 0 {
        chains.push(new_chain);
        assert(views(seq![node.value]) =~= seq![node.value@]);
        assert(prefixed(p, node@.chains()) =~= seq![views(new_chain@)]);
        assert(chain_views(chains@) =~= chain_views(old(chains)@) + prefixed(p, node@.chains()));
    } else {
        let mut i: usize = 0;
        while i < node.children().len()
            invariant
                0 <= i <= node.children@.len(),
                node@ == (Tree {
                    value: node.value,
                    children: crate::simpletree::views_of(node.children@),
                }),
                views(new_chain@) == p + seq![node.value@],
                chain_views(chains@) == chain_views(old(chains)@) + prefixed(
                    p,
                    node@.chains_upto(i as int),
                ),
            decreases node.children@.len() - i,
        {
            let child = &node.children()[i];
            let branch = copy_blocks(&new_chain);
            proof {
                crate::simpletree::lemma_child_height_bound(node@, i as int);
            }
            let ghost before = chains@;
            collect_chains(child, branch, chains);
            proof {
                let cc = child@.chains();
                let v = node.value;
                let mapped = cc.map_values(|c: Seq<Block>| seq![v] + c);
                assert(prefixed(p, mapped) =~= prefixed(views(new_chain@), cc)) by {
                    assert forall|j: int| 0 <= j < cc.len() implies #[trigger] prefixed(
                        p,
                        mapped,
                    )[j] == prefixed(views(new_chain@), cc)[j] by {
                        assert(views(seq![v] + cc[j]) =~= seq![v@] + views(cc[j]));
                        assert(p + views(seq![v] + cc[j]) =~= views(new_chain@) + views(cc[j]));
                    }
                }
                assert(node@.chains_upto(i + 1) == node@.chains_upto(i as int) + mapped);
                assert(prefixed(p, node@.chains_upto(i + 1)) =~= prefixed(
                    p,
                    node@.chains_upto(i as int),
                ) + prefixed(p, mapped));
                assert(chain_views(chains@) =~= chain_views(old(chains)@) + prefixed(
                    p,
                    node@.chains_upto(i + 1),
                ));
            }
            i = i + 1;
        }
    }
}

/// The decimal digit `d`.
pub open spec fn digit_char(d: nat) -> char {
    if d == 0 {
        '0'
    } else if d == 1 {
        '1'
    } else if d == 2 {
        '2'
    } else if d == 3 {
        '3'
    } else if d == 4 {
        '4'
    } else if d == 5 {
        '5'
    } else if d == 6 {
        '6'
    } else if d == 7 {
        '7'
    } else if d == 8 {
        '8'
    } else {
        '9'
    }
}

/// `n` written in decimal, without leading zeros.
pub open spec fn decimal(n: nat) -> Seq<char>
    decreases n,
{
    if n < 10 {
        seq![digit_char(n)]
    } else {
        decimal(n / 10) + seq![digit_char(n % 10)]
    }
}

/// The vertical lines that lead to a node, one column per ancestor below
/// the root: blank under a last child, a bar otherwise.
pub open spec fn indent(prefixes: Seq<bool>) -> Seq<char>
    decreases prefixes.len(),
{
    if prefixes.len() == 0 {
        Seq::empty()
    } else {
        indent(prefixes.drop_last()) + if prefixes.last() {
            "    "@
        } else {
            "│   "@
        }
    }
}

/// What precedes a node's text: nothing for the root, else the indent and
/// a connector, a corner for a last child.
pub open spec fn connector(prefixes: Seq<bool>) -> Seq<char> {
    if prefixes.len() == 0 {
        Seq::empty()
    } else {
        indent(prefixes.drop_last()) + if prefixes.last() {
            "└── "@
        } else {
            "├── "@
        }
    }
}

/// The line of a block: its miner and its nonce.
pub open spec fn block_line(b: BlockView) -> Seq<char> {
    b.miner + " (nonce: "@ + decimal(b.nonce as nat) + ")\n"@
}

/// The text of a subtree whose position is given by `prefixes`: its line,
/// then those of its children in order.
pub open spec fn render_tree(t: Tree<Block>, prefixes: Seq<bool>) -> Seq<char>
    decreases t, t.children.len() + 1,
{
    connector(prefixes) + block_line(t.value@) + render_children(
        t,
        prefixes,
        t.children.len() as int,
    )
}

/// The text of the first `k` children of `t`.
pub open spec fn render_children(t: Tree<Block>, prefixes: Seq<bool>, k: int) -> Seq<char>
    decreases t, k,
{
    if k <= 0 || k > t.children.len() {
        Seq::empty()
    } else {
        render_children(t, prefixes, k - 1) + render_tree(
            t.children[k - 1],
            prefixes.push(k - 1 == t.children.len() - 1),
        )
    }
}

/// The text of a digit.
fn digit_str(d: u64) -> (r: &'static str)
    requires
        d < 10,
    ensures
        r@ == seq![digit_char(d as nat)],
{
    proof {
        reveal_strlit("0");
        reveal_strlit("1");
        reveal_strlit("2");
        reveal_strlit("3");
        reveal_strlit("4");
        reveal_strlit("5");
        reveal_strlit("6");
        reveal_strlit("7");
        reveal_strlit("8");
        reveal_strlit("9");
    }
    if d == 0 {
        "0"
    } else if d == 1 {
        "1"
    } else if d == 2 {
        "2"
    } else if d == 3 {
        "3"
    } else if d == 4 {
        "4"
    } else if d == 5 {
        "5"
    } else if d == 6 {
        "6"
    } else if d == 7 {
        "7"
    } else if d == 8 {
        "8"
    } else {
        "9"
    }
}

/// Appends `n` in decimal.
fn push_decimal(out: &mut String, n: u64)
    ensures
        final(out)@ == old(out)@ + decimal(n as nat),
    decreases n,
{
    if n >= 10 {
        push_decimal(out, n / 10);
    }
    out.append(digit_str(n % 10));
    assert(out@ =~= old(out)@ + decimal(n as nat));
}

/// Appends the indent for `prefixes[..k]`.
fn push_indent(out: &mut String, prefixes: &Vec<bool>, k: usize)
    requires
        k <= prefixes@.len(),
    ensures
        final(out)@ == old(out)@ + indent(prefixes@.subrange(0, k as int)),
    decreases k,
{
    if k > 0 {
        push_indent(out, prefixes, k - 1);
        if prefixes[k - 1] {
            out.append("    ");
        } else {
            out.append("│   ");
        }
        assert(prefixes@.subrange(0, k as int).drop_last() =~= prefixes@.subrange(0, k - 1));
    } else {
        assert(indent(prefixes@.subrange(0, 0)) =~= Seq::<char>::empty());
    }
    assert(out@ =~= old(out)@ + indent(prefixes@.subrange(0, k as int)));
}

/// The genesis blocks of `blocks` at difficulty `d`, in order.
pub open spec fn genesis_blocks(blocks: Seq<Block>, d: u32) -> Seq<Block>
    decreases blocks.len(),
{
    if blocks.len() == 0 {
        Seq::empty()
    } else if is_genesis_block(blocks.last()@, d) {
        genesis_blocks(blocks.drop_last(), d).push(blocks.last())
    } else {
        genesis_blocks(blocks.drop_last(), d)
    }
}

/// `r` is the ledger grown from a block with the contents of `g` with
/// blocks with the contents of `blocks`, with its orphans.
pub open spec fn ledger_of(r: (Blockchain, Vec<Block>), g: BlockView, blocks: Seq<Block>) -> bool {
    exists|root: Block, bs: Seq<Block>|
        root@ == g && views(bs) == views(blocks) && (r.0.blocks@, r.1@) == merged(root, bs)
}

/// For each genesis block of `blocks` at `difficulty`, in order, the
/// ledger grown from it with all of `blocks`, and its orphans.
pub fn ledgers_by_genesis(blocks: &Vec<Block>, difficulty: u32) -> (r: Vec<(Blockchain, Vec<Block>)>)
    ensures
        r@.len() == genesis_blocks(blocks@, difficulty).len(),
        forall|j: int|
            0 <= j < r@.len() ==> #[trigger] ledger_of(
                r@[j],
                genesis_blocks(blocks@, difficulty)[j]@,
                blocks@,
            ),
{
    let mut r: Vec<(Blockchain, Vec<Block>)> = Vec::new();
    let mut i: usize = 0;
    while i < blocks.len()
        invariant
            0 <= i <= blocks@.len(),
            r@.len() == genesis_blocks(blocks@.subrange(0, i as int), difficulty).len(),
            forall|j: int|
                0 <= j < r@.len() ==> #[trigger] ledger_of(
                    r@[j],
                    genesis_blocks(blocks@.subrange(0, i as int), difficulty)[j]@,
                    blocks@,
                ),
        decreases blocks@.len() - i,
    {
        let ghost gs = genesis_blocks(blocks@.subrange(0, i as int), difficulty);
        assert(blocks@.subrange(0, i + 1).drop_last() =~= blocks@.subrange(0, i as int));
        if blocks[i].is_genesis(difficulty) {
            let g = blocks[i].clone();
            let all = copy_blocks(blocks);
            let ghost (gg, bs) = (g, all@);
            let entry = Blockchain::new_from_genesis_and_vec(g, all);
            assert(ledger_of(entry, blocks@[i as int]@, blocks@)) by {
                assert(gg@ == blocks@[i as int]@ && views(bs) == views(blocks@));
            }
            r.push(entry);
            assert(r@.last() == entry);
        }
        i = i + 1;
    }
    assert(blocks@.subrange(0, i as int) =~= blocks@);
    r
}

/// The ledger: a tree of blocks with no parent pointers.
#[derive(Debug, Default)]
pub struct Blockchain {
    pub blocks: TreeNode<Block>,
}

impl Blockchain {
    /// A ledger that holds only `genesis`; its validity is the caller's
    /// concern.
    pub fn new_from_genesis(genesis: Block) -> (r: Self)
        ensures
            r.blocks@ == Tree::leaf(genesis),
    {
        Blockchain { blocks: TreeNode::new(genesis) }
    }

    /// Grows a ledger from `genesis` with `blocks`, in passes until a pass
    /// takes nothing in. Returns the ledger and the orphans: the blocks
    /// whose parent was never found. A block whose nonce was already taken
    /// in is dropped.
    pub fn new_from_genesis_and_vec(genesis: Block, blocks: Vec<Block>) -> (r: (Self, Vec<Block>))
        ensures
            (r.0.blocks@, r.1@) == merged(genesis, blocks@),
    {
        let ghost g = genesis;
        let mut blockchain = Self::new_from_genesis(genesis);
        proof {
            lemma_leaf_nonces(g);
        }
        let orphans = blockchain.merge(blocks);
        (blockchain, orphans)
    }

    /// Merges `blocks` into the ledger, in passes until a pass takes nothing
    /// in; no node is removed. A block whose nonce is already in the ledger,
    /// or taken in earlier, is dropped. Returns the orphans: the blocks
    /// whose parent was never found.
    pub fn merge(&mut self, blocks: Vec<Block>) -> (r: Vec<Block>)
        ensures
            (final(self).blocks@, r@) == merge_passes(
                old(self).blocks@,
                tree_nonces(old(self).blocks@),
                blocks@,
            ),
            tree_nonces(old(self).blocks@).subset_of(tree_nonces(final(self).blocks@)),
    {
        let ghost start = merge_passes(old(self).blocks@, tree_nonces(old(self).blocks@), blocks@);
        proof {
            lemma_merge_keeps_nodes(old(self).blocks@, tree_nonces(old(self).blocks@), blocks@);
        }
        let mut processed: HashSet<u64> = HashSet::new();
        collect_nonces(&self.blocks, &mut processed);
        assert(processed@ =~= tree_nonces(self.blocks@));
        let mut blocks_to_process = blocks;
        let mut progress_made = true;
        while progress_made && blocks_to_process.len() > 0
            invariant
                progress_made ==> merge_passes(self.blocks@, processed@, blocks_to_process@)
                    == start,
                !progress_made ==> (self.blocks@, blocks_to_process@) == start,
            decreases blocks_to_process@.len() + if progress_made {
                1int
            } else {
                0int
            },
        {
            let ghost tree0 = self.blocks@;
            let ghost seen0 = processed@;
            let ghost todo0 = blocks_to_process@;
            progress_made = false;
            let mut still_to_process: Vec<Block> = Vec::new();
            let mut rest = blocks_to_process;
            let ghost mut k: int = 0;
            while rest.len() > 0
                invariant
                    0 <= k <= todo0.len(),
                    rest@ == todo0.subrange(k, todo0.len() as int),
                    pass_upto(tree0, seen0, todo0, k) == (PassState {
                        tree: self.blocks@,
                        seen: processed@,
                        retained: still_to_process@,
                        progress: progress_made,
                    }),
                decreases rest@.len(),
            {
                let block = rest.remove(0);
                assert(block == todo0[k]);
                let nonce = block.nonce;
                if !processed.contains(&nonce) {
                    let parent_hash = block.parent_hash.clone();
                    assert(parent_hash@ == block.parent_hash@);
                    match self.blocks.insert_under(parent_hash.as_slice(), block) {
                        None => {
                            processed.insert(nonce);
                            progress_made = true;
                        },
                        Some(back) => {
                            still_to_process.push(back);
                        },
                    }
                }
                proof {
                    k = k + 1;
                    assert(rest@ =~= todo0.subrange(k, todo0.len() as int));
                }
            }
            proof {
                lemma_pass_shrinks(tree0, seen0, todo0, todo0.len() as int);
            }
            blocks_to_process = still_to_process;
        }
        blocks_to_process
    }

    /// Appends the text of `node`, placed by `prefixes`: one line per block,
    /// "miner (nonce: n)", indented under its parent with box-drawing
    /// connectors.
    fn print_tree(&self, out: &mut String, node: &TreeNode<Block>, prefixes: &mut Vec<bool>)
        ensures
            final(out)@ == old(out)@ + render_tree(node@, old(prefixes)@),
            final(prefixes)@ == old(prefixes)@,
        decreases node@.height(),
    {
        proof {
            crate::simpletree::lemma_view_children(node);
        }
        if prefixes.len() > 0 {
            let n = prefixes.len() - 1;
            push_indent(out, prefixes, n);
            if prefixes[n] {
                out.append("└── ");
            } else {
                out.append("├── ");
            }
            assert(prefixes@.subrange(0, n as int) =~= prefixes@.drop_last());
        }
        let ghost start = out@;
        let block = node.value();
        out.append(block.miner.as_str());
        out.append(" (nonce: ");
        push_decimal(out, block.nonce);
        out.append(")\n");
        assert(out@ =~= old(out)@ + connector(prefixes@) + block_line(node@.value@));
        let child_count = node.children().len();
        let mut i: usize = 0;
        while i < child_count
            invariant
                0 <= i <= child_count,
                child_count == node.children@.len(),
                node@ == (Tree {
                    value: node.value,
                    children: crate::simpletree::views_of(node.children@),
                }),
                prefixes@ == old(prefixes)@,
                out@ == old(out)@ + connector(old(prefixes)@) + block_line(node@.value@)
                    + render_children(node@, old(prefixes)@, i as int),
            decreases child_count - i,
        {
            let child = &node.children()[i];
            proof {
                crate::simpletree::lemma_child_height_bound(node@, i as int);
            }
            prefixes.push(i == child_count - 1);
            self.print_tree(out, child, prefixes);
            prefixes.pop();
            proof {
                assert(prefixes@ =~= old(prefixes)@);
            }
            i = i + 1;
            assert(out@ =~= old(out)@ + connector(old(prefixes)@) + block_line(node@.value@)
                + render_children(node@, old(prefixes)@, i as int));
        }
    }

    /// The ledger as text, one line per block, each child indented under
    /// its parent.
    pub fn render(&self) -> (r: String)
        ensures
            r@ == render_tree(self.blocks@, Seq::empty()),
    {
        let mut out = String::new();
        let mut prefixes: Vec<bool> = Vec::new();
        self.print_tree(&mut out, &self.blocks, &mut prefixes);
        assert(prefixes@ =~= Seq::<bool>::empty());
        assert(out@ =~= render_tree(self.blocks@, Seq::empty()));
        out
    }

    /// Every chain from the genesis block to a leaf, in depth-first order
    /// with children in insertion order.
    pub fn get_chains(&self) -> (r: Vec<Vec<Block>>)
        ensures
            chain_views(r@) == tree_chains(self.blocks@),
    {
        let mut chains: Vec<Vec<Block>> = Vec::new();
        collect_chains(&self.blocks, Vec::new(), &mut chains);
        assert(views(Seq::<Block>::empty()) =~= Seq::<BlockView>::empty());
        assert(chain_views(chains@) =~= tree_chains(self.blocks@));
        chains
    }

    /// The chain with the most blocks; among chains of equal length, the
    /// last one in depth-first order.
    pub fn get_longest_chain(&self) -> (r: Vec<Block>)
        ensures
            views(r@) == longest(tree_chains(self.blocks@)),
    {
        let mut chains = self.get_chains();
        let ghost cv = chain_views(chains@);
        let mut best: usize = 0;
        let mut found = false;
        let mut i: usize = 0;
        while i < chains.len()
            invariant
                0 <= i <= chains@.len(),
                cv == chain_views(chains@),
                found <==> i > 0,
                found ==> best < i && best == longest_index(cv.subrange(0, i as int)),
            decreases chains@.len() - i,
        {
            let ghost s = cv.subrange(0, i + 1);
            assert(s.drop_last() =~= cv.subrange(0, i as int));
            if !found || chains[i].len() >= chains[best].len() {
                best = i;
                found = true;
            }
            i = i + 1;
        }
        if !found {
            assert(cv.len() == 0);
            return Vec::new();
        }
        assert(cv.subrange(0, i as int) =~= cv);
        chains.swap_remove(best)
    }
}

} // verus!
