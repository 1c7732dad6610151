//! A rooted tree whose nodes each own one value and an ordered list of
//! children, with the search and insertion that a ledger of blocks needs.
use vstd::prelude::*;

verus! {

/// What the tree needs to know of a value: its parent's hash, its own
/// hash, and its nonce.
///
/// The spec functions describe the methods. Their defaults let a type be
/// given the trait without them; the tree's contracts then say nothing
/// useful of such a type, since they are stated through these functions.
pub trait Parenting {
    /// Whether `parent_id` designates this value as a parent.
    closed spec fn spec_is_parent(&self, parent_id: Seq<u8>) -> bool {
        false
    }

    /// The hash of the value's parent.
    closed spec fn spec_parent_hash(&self) -> Seq<u8> {
        Seq::empty()
    }

    /// The value's own hash.
    closed spec fn spec_hash(&self) -> Seq<u8> {
        Seq::empty()
    }

    /// The value's nonce.
    closed spec fn spec_nonce(&self) -> u64 {
        0
    }

    fn is_parent(&self, parent_id: &[u8]) -> (r: bool)
        ensures
            r == self.spec_is_parent(parent_id@),
    ;

    fn parent_hash(&self) -> (r: &[u8])
        ensures
            r@ == self.spec_parent_hash(),
    ;

    fn hash(&self) -> (r: Vec<u8>)
        ensures
            r@ == self.spec_hash(),
    ;

    fn nonce(&self) -> (r: u64)
        ensures
            r == self.spec_nonce(),
    ;
}

/// The mathematical tree: a value and the sequence of its subtrees.
pub struct Tree<T> {
    pub value: T,
    pub children: Seq<Tree<T>>,
}

/// A node of the tree, owning its value and its children in insertion order.
#[derive(Debug, Default)]
pub struct TreeNode<T: Default + Parenting> {
    pub value: T,
    pub children: Vec<TreeNode<T>>,
}

impl<T: Default + Parenting> TreeNode<T> {
    /// The views of the first `k` children.
    pub open spec fn children_view_upto(&self, k: int) -> Seq<Tree<T>>
        decreases self, k,
    {
        if k <= 0 || k > self.children@.len() {
            Seq::empty()
        } else {
            self.children_view_upto(k - 1).push(self.children@[k - 1].view_node())
        }
    }

    /// The tree that the node and its descendants form.
    pub open spec fn view_node(&self) -> Tree<T>
        decreases self, self.children@.len() + 1,
    {
        Tree { value: self.value, children: self.children_view_upto(self.children@.len() as int) }
    }
}

impl<T: Default + Parenting> View for TreeNode<T> {
    type V = Tree<T>;

    open spec fn view(&self) -> Tree<T> {
        self.view_node()
    }
}

impl<T> Tree<T> {
    /// A tree of one node.
    pub open spec fn leaf(v: T) -> Tree<T> {
        Tree { value: v, children: Seq::empty() }
    }

    /// The tree with `c` appended to the root's children.
    pub open spec fn with_child(self, c: Tree<T>) -> Tree<T> {
        Tree { value: self.value, children: self.children.push(c) }
    }

    /// The tree with child `i` of the root replaced by `c`.
    pub open spec fn with_child_at(self, i: int, c: Tree<T>) -> Tree<T> {
        Tree { value: self.value, children: self.children.update(i, c) }
    }

    /// Number of nodes on the longest root-to-leaf path.
    pub open spec fn height(self) -> nat
        decreases self, self.children.len() + 1,
    {
        1 + self.max_child_height(self.children.len() as int)
    }

    /// The greatest height among the first `k` children, 0 if there are none.
    pub open spec fn max_child_height(self, k: int) -> nat
        decreases self, k,
    {
        if k <= 0 || k > self.children.len() {
            0
        } else {
            let rest = self.max_child_height(k - 1);
            let h = self.children[k - 1].height();
            if h > rest {
                h
            } else {
                rest
            }
        }
    }

    /// The subtree reached by following the child indices of `p`.
    pub open spec fn subtree(self, p: Seq<int>) -> Tree<T>
        decreases p.len(),
    {
        if p.len() == 0 {
            self
        } else {
            self.children[p[0]].subtree(p.drop_first())
        }
    }

    /// The tree with the subtree at `p` replaced by `t`.
    pub open spec fn replace(self, p: Seq<int>, t: Tree<T>) -> Tree<T>
        decreases p.len(),
    {
        if p.len() == 0 {
            t
        } else {
            self.with_child_at(p[0], self.children[p[0]].replace(p.drop_first(), t))
        }
    }

    /// Every root-to-leaf path, as the sequence of its values from the root,
    /// in depth-first order, children in insertion order.
    pub open spec fn chains(self) -> Seq<Seq<T>>
        decreases self, self.children.len() + 1,
    {
        if self.children.len() == 0 {
            seq![seq![self.value]]
        } else {
            self.chains_upto(self.children.len() as int)
        }
    }

    /// The chains through the first `k` children, each starting at the root.
    pub open spec fn chains_upto(self, k: int) -> Seq<Seq<T>>
        decreases self, k,
    {
        if k <= 0 || k > self.children.len() {
            Seq::empty()
        } else {
            self.chains_upto(k - 1) + self.children[k - 1].chains().map_values(
                |c: Seq<T>| seq![self.value] + c,
            )
        }
    }
}

impl<T: Parenting> Tree<T> {
    /// The tree with `v` added as the last child of the first node, in
    /// depth-first pre-order, whose hash is `ph`; `None` if no node has it.
    pub open spec fn insert_under(self, ph: Seq<u8>, v: T) -> Option<Tree<T>>
        decreases self, self.children.len() + 1,
    {
        if self.value.spec_hash() == ph {
            Some(self.with_child(Tree::leaf(v)))
        } else {
            self.insert_under_from(ph, v, 0)
        }
    }

    /// `insert_under` tried on the children from index `i` on.
    pub open spec fn insert_under_from(self, ph: Seq<u8>, v: T, i: int) -> Option<Tree<T>>
        decreases self, self.children.len() - i,
    {
        if i < 0 || i >= self.children.len() {
            None
        } else {
            match self.children[i].insert_under(ph, v) {
                Some(c) => Some(self.with_child_at(i, c)),
                None => self.insert_under_from(ph, v, i + 1),
            }
        }
    }

    /// Path to the first node, in depth-first pre-order, whose value
    /// designates itself as the parent named by `id`.
    pub open spec fn parent_path(self, id: Seq<u8>) -> Option<Seq<int>>
        decreases self, self.children.len() + 1,
    {
        if self.value.spec_is_parent(id) {
            Some(Seq::empty())
        } else {
            self.parent_path_from(id, 0)
        }
    }

    /// `parent_path` tried on the children from index `i` on.
    pub open spec fn parent_path_from(self, id: Seq<u8>, i: int) -> Option<Seq<int>>
        decreases self, self.children.len() - i,
    {
        if i < 0 || i >= self.children.len() {
            None
        } else {
            match self.children[i].parent_path(id) {
                Some(p) => Some(seq![i] + p),
                None => self.parent_path_from(id, i + 1),
            }
        }
    }
}

impl<T: PartialEq> Tree<T> {
    /// The tree without the descendants whose value equals `v`, nor any
    /// node below them.
    pub open spec fn pruned(self, v: T) -> Tree<T>
        decreases self, self.children.len() + 1,
    {
        Tree { value: self.value, children: self.pruned_upto(v, self.children.len() as int) }
    }

    /// The first `k` children, pruned, without those whose value equals `v`.
    pub open spec fn pruned_upto(self, v: T, k: int) -> Seq<Tree<T>>
        decreases self, k,
    {
        if k <= 0 || k > self.children.len() {
            Seq::empty()
        } else {
            let rest = self.pruned_upto(v, k - 1);
            if vstd::std_specs::cmp::PartialEqSpec::eq_spec(&self.children[k - 1].value, &v) {
                rest
            } else {
                rest.push(self.children[k - 1].pruned(v))
            }
        }
    }
}

/// The trees of a sequence of nodes.
pub open spec fn views_of<T: Default + Parenting>(s: Seq<TreeNode<T>>) -> Seq<Tree<T>> {
    s.map_values(|n: TreeNode<T>| n@)
}

/// Whether two byte sequences are equal.
pub fn same_bytes(a: &[u8], b: &[u8]) -> (r: bool)
    ensures
        r == (a@ == b@),
{
    if a.len() != b.len() {
        return false;
    }
    let mut i: usize = 0;
    while i < a.len()
        invariant
            a@.len() == b@.len(),
            0 <= i <= a@.len(),
            forall|k: int| 0 <= k < i ==> a@[k] == b@[k],
        decreases a@.len() - i,
    {
        if a[i] != b[i] {
            return false;
        }
        i = i + 1;
    }
    assert(a@ =~= b@);
    true
}

impl<T: Default + Parenting> TreeNode<T> {
    /// Creates a node with the given value and no children.
    pub fn new(value: T) -> (r: Self)
        ensures
            r@ == Tree::leaf(value),
    {
        let r = TreeNode { value, children: Vec::new() };
        assert(r@.children =~= Seq::<Tree<T>>::empty());
        r
    }

    /// Appends a new child node holding `value`.
    pub fn insert(&mut self, value: T)
        ensures
            final(self)@ == old(self)@.with_child(Tree::leaf(value)),
    {
        let node = TreeNode::new(value);
        self.children.push(node);
        proof {
            lemma_view_children(self);
            lemma_view_children(old(self));
        }
        assert(self@.children =~= old(self)@.children.push(Tree::leaf(value)));
    }

    /// Removes, at every level, the children whose value equals `value`,
    /// together with everything below them.
    pub fn remove(&mut self, value: &T)
        where
            T: PartialEq,
        ensures
            final(self).value == old(self).value,
            <T as vstd::std_specs::cmp::PartialEqSpec>::obeys_eq_spec() ==> final(self)@ == old(self)@.pruned(*value),
        decreases old(self)@.height(),
    {
        let mut rest: Vec<TreeNode<T>> = Vec::new();
        core::mem::swap(&mut self.children, &mut rest);
        let ghost all = rest@;
        let mut kept: Vec<TreeNode<T>> = Vec::new();
        let ghost mut j: int = 0;
        proof {
            lemma_view_children(old(self));
        }
        while rest.len() > 0
            invariant
                0 <= j <= all.len(),
                all == old(self).children@,
                rest@ == all.subrange(j, all.len() as int),
                <T as vstd::std_specs::cmp::PartialEqSpec>::obeys_eq_spec() ==> views_of(kept@) == old(self)@.pruned_upto(*value, j),
            decreases rest@.len(),
        {
            let mut c = rest.remove(0);
            proof {
                lemma_view_children(old(self));
                assert(c == all[j]);
                assert(old(self)@.children[j] == c@);
                lemma_child_height_bound(old(self)@, j);
            }
            c.remove(value);
            let drop = c.value == *value;
            if !drop {
                kept.push(c);
            }
            proof {
                j = j + 1;
                assert(rest@ =~= all.subrange(j, all.len() as int));
                if <T as vstd::std_specs::cmp::PartialEqSpec>::obeys_eq_spec() {
                    assert(views_of(kept@) =~= old(self)@.pruned_upto(*value, j));
                }
            }
        }
        self.children = kept;
        proof {
            lemma_view_children(self);
            if <T as vstd::std_specs::cmp::PartialEqSpec>::obeys_eq_spec() {
                assert(self@.children =~= views_of(kept@));
            }
        }
    }

    /// Adds `value` as the last child of the first node, in depth-first
    /// pre-order, whose value hashes to `parent_hash`. Gives `value` back
    /// when no node does.
    pub fn insert_under(&mut self, parent_hash: &[u8], value: T) -> (r: Option<T>)
        ensures
            old(self)@.insert_under(parent_hash@, value) matches Some(t) ==> r is None
                && final(self)@ == t,
            old(self)@.insert_under(parent_hash@, value) is None ==> r == Some(value)
                && final(self)@ == old(self)@,
        decreases old(self)@.height(),
    {
        let h = self.value.hash();
        if same_bytes(h.as_slice(), parent_hash) {
            self.insert(value);
            return None;
        }
        let mut v = value;
        let mut i: usize = 0;
        proof {
            lemma_view_children(self);
        }
        while i < self.children.len()
            invariant
                self@ == old(self)@,
                0 <= i <= self.children@.len(),
                v == value,
                old(self)@.value.spec_hash() != parent_hash@,
                old(self)@.insert_under(parent_hash@, value) == old(self)@.insert_under_from(
                    parent_hash@,
                    value,
                    i as int,
                ),
            decreases self.children@.len() - i,
        {
            proof {
                lemma_view_children(self);
                lemma_child_height_bound(self@, i as int);
            }
            let ghost pre = *self;
            match self.children[i].insert_under(parent_hash, v) {
                None => {
                    proof {
                        lemma_view_children(self);
                        lemma_view_children(&pre);
                        assert(self@.children =~= old(self)@.children.update(
                            i as int,
                            self.children@[i as int]@,
                        ));
                    }
                    return None;
                },
                Some(back) => {
                    proof {
                        lemma_view_children(self);
                        lemma_view_children(&pre);
                        assert(self@.children =~= pre@.children);
                    }
                    v = back;
                },
            }
            i = i + 1;
        }
        proof {
            lemma_view_children(self);
        }
        Some(v)
    }

    /// Inserts a clone of `block` under the first node, in depth-first
    /// pre-order, whose value hashes to the block's parent hash. Returns
    /// whether such a node was found.
    pub fn find_and_insert<H>(&mut self, block: &T, _processed_blocks: &mut H) -> (r: bool)
        where
            T: Clone,
        ensures
            r == (old(self)@.insert_under(block.spec_parent_hash(), *block) is Some),
            r ==> exists|v: T|
                cloned(*block, v) && Some(final(self)@) == old(self)@.insert_under(
                    block.spec_parent_hash(),
                    v,
                ),
            !r ==> final(self)@ == old(self)@,
            *final(_processed_blocks) == *old(_processed_blocks),
    {
        let parent_hash = block.parent_hash();
        let v = block.clone();
        proof {
            lemma_insert_under_found(old(self)@, block.spec_parent_hash(), *block, v);
        }
        assert(cloned(*block, v));
        match self.insert_under(parent_hash, v) {
            None => true,
            Some(_) => false,
        }
    }

    /// Whether some node designates itself as the parent named by `id`.
    fn contains_parent(&self, id: &[u8]) -> (r: bool)
        ensures
            r == (self@.parent_path(id@) is Some),
        decreases self@.height(),
    {
        if self.value.is_parent(id) {
            return true;
        }
        let mut i: usize = 0;
        proof {
            lemma_view_children(self);
        }
        while i < self.children.len()
            invariant
                0 <= i <= self.children@.len(),
                !self.value.spec_is_parent(id@),
                self@.parent_path(id@) is Some <==> self@.parent_path_from(id@, i as int) is Some,
            decreases self.children@.len() - i,
        {
            proof {
                lemma_view_children(self);
                lemma_child_height_bound(self@, i as int);
            }
            if self.children[i].contains_parent(id) {
                return true;
            }
            i = i + 1;
        }
        false
    }

    /// Child `i`, to be changed in place.
    fn child_mut(&mut self, i: usize) -> (r: &mut TreeNode<T>)
        requires
            i < old(self).children@.len(),
        ensures
            *r == old(self).children@[i as int],
            final(self).value == old(self).value,
            final(self).children@ == old(self).children@.update(i as int, *final(r)),
    {
        &mut self.children[i]
    }

    /// Finds, depth-first in pre-order, the first node whose value
    /// designates itself as the parent named by `parent_id`.
    pub fn look_for_parent(&mut self, parent_id: &[u8]) -> (r: Option<&mut TreeNode<T>>)
        ensures
            old(self)@.parent_path(parent_id@) is None ==> r is None && final(self)@ == old(
                self,
            )@,
            old(self)@.parent_path(parent_id@) matches Some(p) ==> r matches Some(n) && n@ == old(
                self,
            )@.subtree(p) && final(self)@ == old(self)@.replace(p, final(n)@),
        decreases old(self)@.height(),
    {
        broadcast use lemma_view_children, lemma_views_of_update;

        if self.value.is_parent(parent_id) {
            return Some(self);
        }
        let mut i: usize = 0;
        proof {
            lemma_view_children(self);
        }
        while i < self.children.len()
            invariant
                *self == *old(self),
                0 <= i <= self.children@.len(),
                !old(self).value.spec_is_parent(parent_id@),
                old(self)@.parent_path(parent_id@) == old(self)@.parent_path_from(
                    parent_id@,
                    i as int,
                ),
            decreases self.children@.len() - i,
        {
            proof {
                lemma_view_children(self);
                lemma_child_height_bound(self@, i as int);
            }
            if self.children[i].contains_parent(parent_id) {
                let ghost q = self@.children[i as int].parent_path(parent_id@).unwrap();
                proof {
                    lemma_view_children(self);
                    assert(old(self)@.parent_path(parent_id@) == Some(seq![i as int] + q));
                    lemma_path_step(old(self)@, i as int, q);
                }
                let ghost fs = *final(self);
                let child = self.child_mut(i);
                let ghost fc = *final(child);
                let r = child.look_for_parent(parent_id);
                proof {
                    assert(fc@ == old(self).children@[i as int]@.replace(q, final(r->Some_0)@));
                    assert(fs.children@ == old(self).children@.update(i as int, fc));
                    assert(fs.value == old(self).value);
                    lemma_view_children(&fs);
                    assert(fs@.children =~= old(self)@.children.update(i as int, fc@));
                    assert(fs@ == old(self)@.replace(seq![i as int] + q, final(r->Some_0)@));
                }
                return r;
            }
            i = i + 1;
        }
        None
    }

    /// The number of nodes on the longest path from this node to a leaf.
    pub fn depth(&self) -> (r: usize)
        requires
            self@.height() <= usize::MAX,
        ensures
            r == self@.height(),
        decreases self,
    {
        let mut max_depth: usize = 0;
        let mut i: usize = 0;
        while i < self.children.len()
            invariant
                0 <= i <= self.children@.len(),
                self@.height() <= usize::MAX,
                max_depth == self@.max_child_height(i as int),
            decreases self.children@.len() - i,
        {
            let child = &self.children[i];
            proof {
                lemma_view_children(self);
                lemma_child_height_bound(self@, i as int);
            }
            let child_depth = child.depth();
            if child_depth > max_depth {
                max_depth = child_depth;
            }
            i = i + 1;
        }
        proof {
            lemma_view_children(self);
            lemma_max_child_height_mono(self@, i as int, i as int);
        }
        max_depth + 1
    }

    /// The value held by the node.
    pub fn value(&self) -> (r: &T)
        ensures
            *r == self.value,
    {
        &self.value
    }

    /// The children of the node, in insertion order.
    pub fn children(&self) -> (r: &Vec<TreeNode<T>>)
        ensures
            *r == self.children,
    {
        &self.children
    }

    /// The children of the node, to be changed in place.
    pub fn children_mut(&mut self) -> (r: &mut Vec<TreeNode<T>>)
        ensures
            *r == old(self).children,
            final(self).children == *final(r),
            final(self).value == old(self).value,
    {
        &mut self.children
    }
}

/// The view of a node: its value, and the views of its children in order.
pub broadcast proof fn lemma_view_children<T: Default + Parenting>(n: &TreeNode<T>)
    ensures
        #[trigger] n.view() == (Tree { value: n.value, children: views_of(n.children@) }),
{
    lemma_children_view_upto(n, n.children@.len() as int);
    assert(n.view_node().children =~= views_of(n.children@));
}

/// Replacing one node of a sequence replaces its tree.
pub broadcast proof fn lemma_views_of_update<T: Default + Parenting>(
    s: Seq<TreeNode<T>>,
    i: int,
    c: TreeNode<T>,
)
    requires
        0 <= i < s.len(),
    ensures
        #[trigger] views_of(s.update(i, c)) == views_of(s).update(i, c@),
{
    assert(views_of(s.update(i, c)) =~= views_of(s).update(i, c@));
}

proof fn lemma_children_view_upto<T: Default + Parenting>(n: &TreeNode<T>, k: int)
    requires
        0 <= k <= n.children@.len(),
    ensures
        n.children_view_upto(k).len() == k,
        forall|i: int| 0 <= i < k ==> #[trigger] n.children_view_upto(k)[i] == n.children@[i]@,
    decreases k,
{
    if k > 0 {
        lemma_children_view_upto(n, k - 1);
    }
}

/// Whether a value finds a place depends on its parent hash only.
pub proof fn lemma_insert_under_found<T: Parenting>(t: Tree<T>, ph: Seq<u8>, a: T, b: T)
    ensures
        t.insert_under(ph, a) is Some <==> t.insert_under(ph, b) is Some,
    decreases t, t.children.len() + 1,
{
    if t.value.spec_hash() != ph {
        lemma_insert_under_from_found(t, ph, a, b, 0);
    }
}

proof fn lemma_insert_under_from_found<T: Parenting>(t: Tree<T>, ph: Seq<u8>, a: T, b: T, i: int)
    requires
        0 <= i,
    ensures
        t.insert_under_from(ph, a, i) is Some <==> t.insert_under_from(ph, b, i) is Some,
    decreases t, t.children.len() - i,
{
    if i < t.children.len() {
        lemma_insert_under_found(t.children[i], ph, a, b);
        lemma_insert_under_from_found(t, ph, a, b, i + 1);
    }
}

/// Following a path that starts with child `i` goes through that child.
pub proof fn lemma_path_step<T>(t: Tree<T>, i: int, q: Seq<int>)
    ensures
        forall|x: Tree<T>| #[trigger]
            t.replace(seq![i] + q, x) == t.with_child_at(i, t.children[i].replace(q, x)),
        t.subtree(seq![i] + q) == t.children[i].subtree(q),
{
    let p = seq![i] + q;
    assert(p.drop_first() =~= q);
    assert(p[0] == i);
}

/// A tree has at least one chain; none has more blocks than the height,
/// and the one at the returned index has exactly as many.
pub proof fn lemma_chains_height<T>(t: Tree<T>) -> (i: int)
    ensures
        0 <= i < t.chains().len(),
        t.chains()[i].len() == t.height(),
        forall|j: int| 0 <= j < t.chains().len() ==> #[trigger] t.chains()[j].len() <= t.height(),
    decreases t, t.children.len() + 1,
{
    if t.children.len() == 0 {
        0
    } else {
        lemma_chains_upto_height(t, t.children.len() as int)
    }
}

/// The chains through the first `k` children are at most one block longer
/// than those children are high, and one of them, when `k > 0`, is exactly so.
pub proof fn lemma_chains_upto_height<T>(t: Tree<T>, k: int) -> (i: int)
    requires
        0 < k <= t.children.len(),
    ensures
        0 <= i < t.chains_upto(k).len(),
        t.chains_upto(k)[i].len() == 1 + t.max_child_height(k),
        forall|j: int|
            0 <= j < t.chains_upto(k).len() ==> #[trigger] t.chains_upto(k)[j].len() <= 1
                + t.max_child_height(k),
    decreases t, k,
{
    let c = t.children[k - 1];
    let ci = lemma_chains_height(c);
    let v = t.value;
    let tail = c.chains().map_values(|x: Seq<T>| seq![v] + x);
    let all = t.chains_upto(k);
    if k == 1 {
        assert(t.chains_upto(0) =~= Seq::<Seq<T>>::empty());
        assert(all =~= tail);
        assert forall|j: int| 0 <= j < all.len() implies #[trigger] all[j].len() <= 1
            + t.max_child_height(k) by {
            assert(all[j] == seq![v] + c.chains()[j]);
        }
        assert(all[ci] == seq![v] + c.chains()[ci]);
        ci
    } else {
        let head = t.chains_upto(k - 1);
        let pi = lemma_chains_upto_height(t, k - 1);
        assert(all == head + tail);
        assert forall|j: int| 0 <= j < all.len() implies #[trigger] all[j].len() <= 1
            + t.max_child_height(k) by {
            if j < head.len() {
                assert(all[j] == head[j]);
            } else {
                assert(all[j] == seq![v] + c.chains()[j - head.len()]);
            }
        }
        if c.height() > t.max_child_height(k - 1) {
            assert(all[head.len() + ci] == seq![v] + c.chains()[ci]);
            head.len() + ci
        } else {
            assert(all[pi] == head[pi]);
            pi
        }
    }
}

/// No node from child `i` on takes `v` exactly when none of those
/// children does.
pub proof fn lemma_insert_under_from_none<T: Parenting>(t: Tree<T>, h: Seq<u8>, v: T, i: int)
    requires
        0 <= i,
    ensures
        t.insert_under_from(h, v, i) is None <==> forall|j: int|
            i <= j < t.children.len() ==> (#[trigger] t.children[j].insert_under(h, v)) is None,
    decreases t.children.len() - i,
{
    if i < t.children.len() {
        lemma_insert_under_from_none(t, h, v, i + 1);
        if t.children[i].insert_under(h, v) is None {
            assert forall|j: int| i <= j < t.children.len() && t.insert_under_from(h, v, i) is None
                implies (#[trigger] t.children[j].insert_under(h, v)) is None by {
                if j > i {
                }
            }
        }
    }
}

/// Adding a value whose hash is not `h` keeps a tree with no node hashed
/// `h` without one.
pub proof fn lemma_insert_keeps_unmatched<T: Parenting>(
    t: Tree<T>,
    h: Seq<u8>,
    x: T,
    h2: Seq<u8>,
    b: T,
)
    requires
        t.insert_under(h, x) is None,
        t.insert_under(h2, b) is Some,
        b.spec_hash() != h,
    ensures
        t.insert_under(h2, b).unwrap().insert_under(h, x) is None,
    decreases t, t.children.len() + 1,
{
    lemma_insert_under_from_none(t, h, x, 0);
    if t.value.spec_hash() == h2 {
        let t2 = t.with_child(Tree::leaf(b));
        let lf = Tree::<T>::leaf(b);
        assert(lf.insert_under(h, x) is None);
        assert forall|j: int| 0 <= j < t2.children.len() implies (
        #[trigger] t2.children[j].insert_under(h, x)) is None by {
            if j < t.children.len() {
                assert(t2.children[j] == t.children[j]);
            }
        }
        lemma_insert_under_from_none(t2, h, x, 0);
    } else {
        lemma_insert_keeps_unmatched_from(t, h, x, h2, b, 0);
    }
}

proof fn lemma_insert_keeps_unmatched_from<T: Parenting>(
    t: Tree<T>,
    h: Seq<u8>,
    x: T,
    h2: Seq<u8>,
    b: T,
    i: int,
)
    requires
        0 <= i,
        t.insert_under(h, x) is None,
        t.insert_under_from(h2, b, i) is Some,
        b.spec_hash() != h,
    ensures
        t.insert_under_from(h2, b, i).unwrap().insert_under(h, x) is None,
    decreases t, t.children.len() - i,
{
    lemma_insert_under_from_none(t, h, x, 0);
    match t.children[i].insert_under(h2, b) {
        Some(c) => {
            lemma_insert_keeps_unmatched(t.children[i], h, x, h2, b);
            let t2 = t.with_child_at(i, c);
            assert forall|j: int| 0 <= j < t2.children.len() implies (
            #[trigger] t2.children[j].insert_under(h, x)) is None by {
                if j != i {
                    assert(t2.children[j] == t.children[j]);
                }
            }
            lemma_insert_under_from_none(t2, h, x, 0);
        },
        None => {
            lemma_insert_keeps_unmatched_from(t, h, x, h2, b, i + 1);
        },
    }
}

/// A child's height is below its parent's.
pub proof fn lemma_child_height_bound<T>(t: Tree<T>, i: int)
    requires
        0 <= i < t.children.len(),
    ensures
        t.children[i].height() < t.height(),
        t.max_child_height(i) < t.height(),
{
    lemma_max_child_height_mono(t, i + 1, t.children.len() as int);
}

/// The greatest height among a prefix of the children grows with the prefix.
pub proof fn lemma_max_child_height_mono<T>(t: Tree<T>, j: int, k: int)
    requires
        0 <= j <= k <= t.children.len(),
    ensures
        t.max_child_height(j) <= t.max_child_height(k),
        j > 0 ==> t.children[j - 1].height() <= t.max_child_height(k),
        j > 0 ==> t.max_child_height(j - 1) <= t.max_child_height(k),
    decreases k - j,
{
    if j < k {
        lemma_max_child_height_mono(t, j, k - 1);
    }
}

} // verus!
