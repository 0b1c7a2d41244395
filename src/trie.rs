use crate::key::{
    divergence, first_difference, lemma_byte_nybbles, lemma_divergence, lemma_same_nybbles, nyb,
    nybble,
};
use crate::sparse::{has_bit, rank, Sparse};
use vstd::prelude::*;

verus! {

broadcast use vstd::std_specs::vec::group_vec_axioms, vstd::array::group_array_axioms;

/// A key with its value: the end of every path through the trie.
pub struct Leaf<V, const N: usize> {
    key: [u8; N],
    val: V,
}

impl<V, const N: usize> Leaf<V, N> {
    /// The key and the value held.
    pub closed spec fn view(&self) -> ([u8; N], V) {
        (self.key, self.val)
    }

    pub fn new(key: [u8; N], val: V) -> (r: Leaf<V, N>)
        ensures
            r@ == (key, val),
    {
        Leaf { key, val }
    }

    pub fn key(&self) -> (r: &[u8; N])
        ensures
            *r == self@.0,
    {
        &self.key
    }

    pub fn val(&self) -> (r: &V)
        ensures
            *r == self@.1,
    {
        &self.val
    }
}

/// A branch: the children, keyed by the nybble at position `index` of the
/// keys below them.
pub struct Internal<V, const N: usize> {
    index: usize,
    nybbles: Sparse<Node<V, N>>,
}

impl<V, const N: usize> Internal<V, N> {
    /// The nybble position this branch discriminates on.
    pub closed spec fn branch(&self) -> nat {
        self.index as nat
    }

    /// The children, by nybble value.
    pub closed spec fn children(&self) -> Map<int, Node<V, N>> {
        self.nybbles@
    }

    pub closed spec fn inv(&self) -> bool {
        self.nybbles.wf()
    }

    pub fn new(index: usize) -> (r: Internal<V, N>)
        ensures
            r.inv(),
            r.branch() == index,
            r.children() == Map::<int, Node<V, N>>::empty(),
    {
        Internal { index, nybbles: Sparse::new() }
    }

    /// The nybble position this branch discriminates on.
    pub fn index(&self) -> (r: usize)
        ensures
            r == self.branch(),
    {
        self.index
    }

    /// The child in slot `nybble`, if any.
    pub fn child(&self, nybble: usize) -> (r: Option<&Node<V, N>>)
        requires
            self.inv(),
            nybble < 16,
        ensures
            r is Some <==> self.children().contains_key(nybble as int),
            r matches Some(c) ==> *c == self.children()[nybble as int],
    {
        self.nybbles.get(nybble)
    }

    /// Puts `leaf` in the slot that its key's nybble at the branch position
    /// selects, which must be free.
    pub fn insert_fresh_leaf(&mut self, leaf: Leaf<V, N>)
        requires
            old(self).inv(),
            old(self).branch() < 2 * N,
            !old(self).children().contains_key(nyb(leaf@.0@, old(self).branch() as int) as int),
        ensures
            final(self).inv(),
            final(self).branch() == old(self).branch(),
            final(self).children() == old(self).children().insert(
                nyb(leaf@.0@, old(self).branch() as int) as int,
                Node::Leaf(leaf),
            ),
    {
        let slot = nybble(self.index, &leaf.key);
        self.nybbles.insert_fresh(slot as usize, Node::Leaf(leaf));
    }
}

/// A node of the trie: a leaf, or a branch over the next nybble.
pub enum Node<V, const N: usize> {
    Leaf(Leaf<V, N>),
    Internal(Internal<V, N>),
}

impl<V, const N: usize> Node<V, N> {
    /// The entries below this node held by the children in slots `j..16`
    /// (the whole entry, for a leaf).
    closed spec fn map_from(self, j: int) -> Map<[u8; N], V>
        decreases self, 16 - j,
    {
        match self {
            Node::Leaf(l) => map![l.key => l.val],
            Node::Internal(n) => {
                if 0 <= j < 16 {
                    let rest = self.map_from(j + 1);
                    let p = rank(n.nybbles.index, j as nat);
                    if has_bit(n.nybbles.index, j as u32) && p < n.nybbles.data.len() {
                        n.nybbles.data[p as int].map_from(0).union_prefer_right(rest)
                    } else {
                        rest
                    }
                } else {
                    Map::empty()
                }
            },
        }
    }

    /// The entries held below this node.
    pub closed spec fn view(self) -> Map<[u8; N], V> {
        self.map_from(0)
    }

    /// What a branch must keep, apart from its children's own invariants.
    closed spec fn branch_ok(self) -> bool {
        match self {
            Node::Leaf(_) => true,
            Node::Internal(n) => {
                &&& n.nybbles.wf()
                &&& exists|a: int, b: int|
                    a != b && #[trigger] n.nybbles@.contains_key(a) && #[trigger] n.nybbles@.contains_key(b)
                &&& n.index < 2 * N
                &&& forall|k1: [u8; N], k2: [u8; N], i: int|
                    #![trigger self@.contains_key(k1), self@.contains_key(k2), nyb(k1@, i)]
                    self@.contains_key(k1) && self@.contains_key(k2) && 0 <= i < n.index ==> nyb(
                        k1@,
                        i,
                    ) == nyb(k2@, i)
            },
        }
    }

    /// What a child in slot `j` of a branch over position `index` must keep.
    closed spec fn child_ok(self, j: int, index: usize) -> bool {
        &&& forall|k: [u8; N]| #[trigger] self@.contains_key(k) ==> nyb(k@, index as int) == j
        &&& self is Internal ==> self->Internal_0.index > index
    }

    closed spec fn wf_from(self, j: int) -> bool
        decreases self, 16 - j,
    {
        match self {
            Node::Leaf(_) => true,
            Node::Internal(n) => {
                if 0 <= j < 16 {
                    let p = rank(n.nybbles.index, j as nat);
                    &&& self.wf_from(j + 1)
                    &&& (has_bit(n.nybbles.index, j as u32) && p < n.nybbles.data.len()) ==> {
                        &&& n.nybbles.data[p as int].wf_from(0)
                        &&& n.nybbles.data[p as int].child_ok(j, n.index)
                    }
                } else {
                    self.branch_ok()
                }
            },
        }
    }

    /// The node's invariant, down to its leaves.
    pub closed spec fn wf(self) -> bool {
        self.wf_from(0)
    }
}

impl<V, const N: usize> Node<V, N> {
    proof fn lemma_map_from(self, j: int)
        requires
            self is Internal,
            self->Internal_0.nybbles.wf(),
            self->Internal_0.index < 2 * N,
            forall|s: int| #[trigger]
                self->Internal_0.nybbles@.contains_key(s) ==> self->Internal_0.nybbles@[s].child_ok(
                    s,
                    self->Internal_0.index,
                ),
            0 <= j <= 16,
        ensures
            forall|k: [u8; N]| {
                let s = nyb(k@, self->Internal_0.index as int) as int;
                &&& #[trigger] self.map_from(j).contains_key(k) <==> (j <= s
                    && self->Internal_0.nybbles@.contains_key(s)
                    && self->Internal_0.nybbles@[s]@.contains_key(k))
                &&& self.map_from(j).contains_key(k) ==> self.map_from(j)[k]
                    == self->Internal_0.nybbles@[s]@[k]
            },
        decreases 16 - j,
    {
        let n = self->Internal_0;
        n.nybbles.lemma_view();
        if j < 16 {
            self.lemma_map_from(j + 1);
            assert forall|k: [u8; N]| {
                let s = nyb(k@, n.index as int) as int;
                &&& #[trigger] self.map_from(j).contains_key(k) <==> (j <= s
                    && n.nybbles@.contains_key(s) && n.nybbles@[s]@.contains_key(k))
                &&& self.map_from(j).contains_key(k) ==> self.map_from(j)[k] == n.nybbles@[s]@[k]
            } by {
                let s = nyb(k@, n.index as int) as int;
                let p = rank(n.nybbles.index, j as nat);
                assert(n.nybbles@.contains_key(j) <==> has_bit(n.nybbles.index, j as u32));
                if has_bit(n.nybbles.index, j as u32) {
                    assert(n.nybbles@[j] == n.nybbles.data[p as int]);
                    assert(self.map_from(j) == n.nybbles.data[p as int]@.union_prefer_right(
                        self.map_from(j + 1),
                    ));
                    if n.nybbles@[j]@.contains_key(k) {
                        assert(n.nybbles@[j].child_ok(j, n.index));
                        assert(s == j);
                    }
                } else {
                    assert(self.map_from(j) == self.map_from(j + 1));
                }
            }
        } else {
            assert forall|k: [u8; N]| !(#[trigger] self.map_from(j).contains_key(k)) by {}
        }
    }

    /// The entries of a branch are those of its children, each in the slot
    /// of its key's nybble.
    proof fn lemma_members(self)
        requires
            self is Internal,
            self->Internal_0.nybbles.wf(),
            self->Internal_0.index < 2 * N,
            forall|s: int| #[trigger]
                self->Internal_0.nybbles@.contains_key(s) ==> self->Internal_0.nybbles@[s].child_ok(
                    s,
                    self->Internal_0.index,
                ),
        ensures
            forall|k: [u8; N]| {
                let s = nyb(k@, self->Internal_0.index as int) as int;
                &&& #[trigger] self@.contains_key(k) <==> (self->Internal_0.nybbles@.contains_key(s)
                    && self->Internal_0.nybbles@[s]@.contains_key(k))
                &&& self@.contains_key(k) ==> self@[k] == self->Internal_0.nybbles@[s]@[k]
            },
    {
        self.lemma_map_from(0);
        assert forall|k: [u8; N]| #[trigger] self@.contains_key(k) implies 0 <= nyb(
            k@,
            self->Internal_0.index as int,
        ) by {}
    }

    proof fn lemma_wf_branch(self, j: int)
        requires
            self is Internal,
            0 <= j <= 16,
            self.wf_from(j),
        ensures
            self.branch_ok(),
        decreases 16 - j,
    {
        if j < 16 {
            self.lemma_wf_branch(j + 1);
        }
    }

    proof fn lemma_wf_child(self, j: int, s: int)
        requires
            self is Internal,
            0 <= j <= s < 16,
            self.wf_from(j),
            has_bit(self->Internal_0.nybbles.index, s as u32),
            rank(self->Internal_0.nybbles.index, s as nat) < self->Internal_0.nybbles.data.len(),
        ensures
            self->Internal_0.nybbles.data[rank(
                self->Internal_0.nybbles.index,
                s as nat,
            ) as int].wf(),
            self->Internal_0.nybbles.data[rank(
                self->Internal_0.nybbles.index,
                s as nat,
            ) as int].child_ok(s, self->Internal_0.index),
        decreases s - j,
    {
        if j < s {
            self.lemma_wf_child(j + 1, s);
        }
    }

    /// What the invariant of a branch gives.
    proof fn lemma_wf_elim(self)
        requires
            self is Internal,
            self.wf(),
        ensures
            self.branch_ok(),
            self->Internal_0.nybbles.wf(),
            self->Internal_0.index < 2 * N,
            forall|s: int| #[trigger]
                self->Internal_0.nybbles@.contains_key(s) ==> {
                    &&& self->Internal_0.nybbles@[s].wf()
                    &&& self->Internal_0.nybbles@[s].child_ok(s, self->Internal_0.index)
                },
            forall|k: [u8; N]| {
                let s = nyb(k@, self->Internal_0.index as int) as int;
                &&& #[trigger] self@.contains_key(k) <==> (self->Internal_0.nybbles@.contains_key(s)
                    && self->Internal_0.nybbles@[s]@.contains_key(k))
                &&& self@.contains_key(k) ==> self@[k] == self->Internal_0.nybbles@[s]@[k]
            },
    {
        let n = self->Internal_0;
        self.lemma_wf_branch(0);
        n.nybbles.lemma_view();
        assert forall|s: int| #[trigger] n.nybbles@.contains_key(s) implies {
            &&& n.nybbles@[s].wf()
            &&& n.nybbles@[s].child_ok(s, n.index)
        } by {
            assert(n.nybbles@[s] == n.nybbles.data[rank(n.nybbles.index, s as nat) as int]);
            self.lemma_wf_child(0, s);
        }
        self.lemma_members();
    }

    proof fn lemma_wf_intro_from(self, j: int)
        requires
            self is Internal,
            0 <= j <= 16,
            self.branch_ok(),
            forall|s: int| #[trigger]
                self->Internal_0.nybbles@.contains_key(s) ==> {
                    &&& self->Internal_0.nybbles@[s].wf()
                    &&& self->Internal_0.nybbles@[s].child_ok(s, self->Internal_0.index)
                },
        ensures
            self.wf_from(j),
        decreases 16 - j,
    {
        let n = self->Internal_0;
        n.nybbles.lemma_view();
        if j < 16 {
            self.lemma_wf_intro_from(j + 1);
            if has_bit(n.nybbles.index, j as u32) {
                assert(n.nybbles@.contains_key(j));
            }
        }
    }

    /// A branch whose parts keep their invariants keeps its own.
    proof fn lemma_wf_intro(self)
        requires
            self is Internal,
            self.branch_ok(),
            forall|s: int| #[trigger]
                self->Internal_0.nybbles@.contains_key(s) ==> {
                    &&& self->Internal_0.nybbles@[s].wf()
                    &&& self->Internal_0.nybbles@[s].child_ok(s, self->Internal_0.index)
                },
        ensures
            self.wf(),
    {
        self.lemma_wf_intro_from(0);
    }
}

impl<V, const N: usize> Node<V, N> {
    /// The value stored under `key` below this node, if any.
    pub fn get(&self, key: &[u8; N]) -> (r: Option<&V>)
        requires
            self.wf(),
            2 * N <= usize::MAX,
        ensures
            r is Some <==> self@.contains_key(*key),
            r matches Some(v) ==> *v == self@[*key],
        decreases self,
    {
        match self {
            Node::Leaf(leaf) => {
                let d = first_difference(key, &leaf.key, 0, 2 * N);
                if d == 2 * N {
                    proof {
                        lemma_same_nybbles(*key, leaf.key);
                    }
                    Some(&leaf.val)
                } else {
                    None
                }
            },
            Node::Internal(internal) => {
                proof {
                    self.lemma_wf_elim();
                    internal.nybbles.lemma_view();
                }
                let s = nybble(internal.index, key);
                match internal.nybbles.get(s as usize) {
                    Some(child) => {
                        proof {
                            let p = rank(internal.nybbles.index, s as nat) as int;
                            assert(internal.nybbles@[s as int] == internal.nybbles.data[p]);
                        }
                        child.get(key)
                    },
                    None => None,
                }
            },
        }
    }

    /// The key of some entry below this node.
    fn first_key(&self) -> (r: [u8; N])
        requires
            self.wf(),
        ensures
            self@.contains_key(r),
        decreases self,
    {
        match self {
            Node::Leaf(leaf) => leaf.key,
            Node::Internal(internal) => {
                proof {
                    self.lemma_wf_elim();
                    internal.nybbles.lemma_view();
                }
                let mut j: usize = 0;
                loop
                    invariant
                        self.wf(),
                        self is Internal,
                        self->Internal_0 == *internal,
                        j < 16,
                        internal.nybbles.wf(),
                        forall|i: int| 0 <= i < j ==> !internal.nybbles@.contains_key(i),
                        exists|a: int| #[trigger] internal.nybbles@.contains_key(a),
                    decreases 16 - j,
                {
                    proof {
                        self.lemma_wf_elim();
                        internal.nybbles.lemma_view();
                    }
                    match internal.nybbles.get(j) {
                        Some(child) => {
                            proof {
                                let p = rank(internal.nybbles.index, j as nat) as int;
                                assert(internal.nybbles@[j as int] == internal.nybbles.data[p]);
                                assert(internal.nybbles@[j as int].wf());
                            }
                            let r = child.first_key();
                            proof {
                                assert(internal.nybbles@[j as int]@.contains_key(r));
                                assert(internal.nybbles@[j as int].child_ok(j as int, internal.index));
                            }
                            return r;
                        },
                        None => {},
                    }
                    proof {
                        if j == 15 {
                            let a = choose|a: int| #[trigger] internal.nybbles@.contains_key(a);
                            assert(0 <= a < 16);
                        }
                    }
                    j = j + 1;
                }
            },
        }
    }
}

impl<V, const N: usize> Node<V, N> {
    /// The keys below this node agree with `key` on every nybble before `lo`.
    closed spec fn agrees_below(self, key: [u8; N], lo: int) -> bool {
        forall|k: [u8; N], i: int|
            #![trigger self@.contains_key(k), nyb(k@, i)]
            self@.contains_key(k) && 0 <= i < lo ==> nyb(k@, i) == nyb(key@, i)
    }

    /// Inserts `key` below this node, whose keys all agree with it before
    /// nybble `lo`; returns the value it displaced.
    fn insert_at(&mut self, key: [u8; N], val: V, lo: usize) -> (r: Option<V>)
        requires
            old(self).wf(),
            2 * N <= usize::MAX,
            lo <= 2 * N,
            *old(self) is Internal ==> lo <= old(self)->Internal_0.index,
            old(self).agrees_below(key, lo as int),
        ensures
            final(self).wf(),
            final(self)@ == old(self)@.insert(key, val),
            r is Some <==> old(self)@.contains_key(key),
            r matches Some(v) ==> v == old(self)@[key],
            *final(self) is Internal ==> final(self)->Internal_0.index >= lo,
            *old(self) is Leaf && !old(self)@.contains_key(key) ==> (*final(self) is Internal
                && final(self)->Internal_0.index == divergence(old(self)->Leaf_0.key@, key@)),
        decreases *old(self),
    {
        let ghost old_node = *self;
        let ghost old_map = self@;
        proof {
            if *self is Internal {
                self.lemma_wf_elim();
            }
        }
        let rep = self.first_key();
        let hi: usize = match self {
            Node::Leaf(_) => 2 * N,
            Node::Internal(internal) => internal.index,
        };
        let d = first_difference(&key, &rep, lo, hi);
        if d == hi {
            match self {
                Node::Leaf(leaf) => {
                    proof {
                        lemma_same_nybbles(key, leaf.key);
                        assert(old_map == map![leaf.key => leaf.val]);
                        assert(old_map.insert(key, val) =~= map![key => val]);
                        assert(old_map.contains_key(key) && old_map[key] == leaf.val);
                    }
                    let mut displaced = val;
                    std::mem::swap(&mut leaf.val, &mut displaced);
                    return Some(displaced);
                },
                Node::Internal(internal) => {
                    let ghost old_internal = *internal;
                    let s = nybble(internal.index, &key);
                    let next = internal.index + 1;
                    proof {
                        old_internal.nybbles.lemma_view();
                    }
                    match internal.nybbles.get_mut(s as usize) {
                        Some(child) => {
                            let ghost old_child = *child;
                            proof {
                                assert(old_internal.nybbles@[s as int].child_ok(
                                    s as int,
                                    old_internal.index,
                                ));
                                assert forall|k: [u8; N], i: int|
                                    #![trigger old_child@.contains_key(k), nyb(k@, i)]
                                    old_child@.contains_key(k) && 0 <= i < next implies nyb(
                                    k@,
                                    i,
                                ) == nyb(key@, i) by {
                                    assert(old_map.contains_key(k));
                                    if i < old_internal.index {
                                        assert(nyb(k@, i) == nyb(rep@, i));
                                    }
                                }
                                let p = rank(old_internal.nybbles.index, s as nat) as int;
                                assert(old_internal.nybbles@[s as int]
                                    == old_internal.nybbles.data[p]);
                            }
                            let r = child.insert_at(key, val, next);
                            let ghost new_child = *child;
                            proof {
                                let new_node = Node::Internal(*internal);
                                assert(new_node->Internal_0.nybbles@ == old_internal.nybbles@.insert(
                                    s as int,
                                    new_child,
                                ));
                                assert(new_child.child_ok(s as int, old_internal.index));
                                assert forall|j: int| #[trigger]
                                    new_node->Internal_0.nybbles@.contains_key(j) implies {
                                    &&& new_node->Internal_0.nybbles@[j].wf()
                                    &&& new_node->Internal_0.nybbles@[j].child_ok(
                                        j,
                                        new_node->Internal_0.index,
                                    )
                                } by {
                                    if j != s {
                                        assert(old_internal.nybbles@.contains_key(j));
                                    }
                                }
                                assert(new_node->Internal_0.nybbles@.remove(s as int)
                                    =~= old_internal.nybbles@.remove(s as int));
                                lemma_child_gains(old_node, new_node, key, val);
                                lemma_insert_prefix(new_node, old_node, rep, key, val);
                                let a = choose|a: int, b: int|
                                    a != b && #[trigger] old_internal.nybbles@.contains_key(a)
                                        && #[trigger] old_internal.nybbles@.contains_key(b);
                                new_node.lemma_wf_intro();
                            }
                            r
                        },
                        None => {
                            internal.insert_fresh_leaf(Leaf::new(key, val));
                            proof {
                                let new_node = Node::Internal(*internal);
                                let leaf_node = Node::Leaf(Leaf { key, val });
                                assert(leaf_node@ == map![key => val]);
                                assert(leaf_node.child_ok(s as int, old_internal.index));
                                assert forall|j: int| #[trigger]
                                    new_node->Internal_0.nybbles@.contains_key(j) implies {
                                    &&& new_node->Internal_0.nybbles@[j].wf()
                                    &&& new_node->Internal_0.nybbles@[j].child_ok(
                                        j,
                                        new_node->Internal_0.index,
                                    )
                                } by {
                                    if j != s {
                                        assert(old_internal.nybbles@.contains_key(j));
                                    }
                                }
                                assert(new_node->Internal_0.nybbles@.remove(s as int)
                                    =~= old_internal.nybbles@.remove(s as int));
                                assert(leaf_node@ =~= Map::<[u8; N], V>::empty().insert(key, val));
                                lemma_child_gains(old_node, new_node, key, val);
                                lemma_insert_prefix(new_node, old_node, rep, key, val);
                                new_node.lemma_wf_intro();
                            }
                            None
                        },
                    }
                },
            }
        } else {
            let rep_slot = nybble(d, &rep);
            let key_slot = nybble(d, &key);
            let mut displaced = Node::Internal(Internal::new(d));
            std::mem::swap(self, &mut displaced);
            let mut split = Internal::new(d);
            split.insert_fresh_leaf(Leaf::new(key, val));
            split.nybbles.insert_fresh(rep_slot as usize, displaced);
            *self = Node::Internal(split);
            proof {
                assert(displaced == old_node);
                lemma_split(*self, old_node, rep, key, val, lo as int);
                if old_node is Leaf {
                    let lk = old_node->Leaf_0.key;
                    assert(old_map == map![lk => old_node->Leaf_0.val]);
                    assert(rep == lk);
                    assert forall|i: int| 0 <= i < d implies nyb(lk@, i) == nyb(key@, i) by {
                        if i < lo {
                            assert(old_node.agrees_below(key, lo as int));
                            assert(old_map.contains_key(lk));
                        }
                    }
                    lemma_divergence(lk, key, d as int);
                }
            }
            None
        }
    }
}

/// A branch whose child in the slot of `key` gained `key` gained it too.
proof fn lemma_child_gains<V, const N: usize>(
    old_node: Node<V, N>,
    new_node: Node<V, N>,
    key: [u8; N],
    val: V,
)
    requires
        old_node is Internal,
        new_node is Internal,
        old_node.wf(),
        new_node->Internal_0.index == old_node->Internal_0.index,
        new_node->Internal_0.nybbles.wf(),
        forall|j: int| #[trigger]
            new_node->Internal_0.nybbles@.contains_key(j) ==> new_node->Internal_0.nybbles@[j].child_ok(
                j,
                new_node->Internal_0.index,
            ),
        ({
            let s = nyb(key@, old_node->Internal_0.index as int) as int;
            let olds = old_node->Internal_0.nybbles@;
            let news = new_node->Internal_0.nybbles@;
            &&& news.contains_key(s)
            &&& news[s]@ == (if olds.contains_key(s) {
                olds[s]@
            } else {
                Map::empty()
            }).insert(key, val)
            &&& news.remove(s) == olds.remove(s)
        }),
    ensures
        new_node@ == old_node@.insert(key, val),
{
    old_node.lemma_wf_elim();
    new_node.lemma_members();
    let s = nyb(key@, old_node->Internal_0.index as int) as int;
    let idx = old_node->Internal_0.index as int;
    let olds = old_node->Internal_0.nybbles@;
    let news = new_node->Internal_0.nybbles@;
    assert forall|k: [u8; N]| #[trigger] new_node@.contains_key(k) <==> old_node@.insert(
        key,
        val,
    ).contains_key(k) by {
        let t = nyb(k@, idx) as int;
        if t != s {
            assert(news.remove(s).contains_key(t) == olds.remove(s).contains_key(t));
            if news.contains_key(t) {
                assert(news[t] == news.remove(s)[t]);
            }
            if olds.contains_key(t) {
                assert(olds[t] == olds.remove(s)[t]);
            }
        }
    }
    assert forall|k: [u8; N]| #[trigger] new_node@.contains_key(k) implies new_node@[k]
        == old_node@.insert(key, val)[k] by {
        let t = nyb(k@, idx) as int;
        if t != s {
            assert(news.remove(s).contains_key(t));
            assert(news[t] == news.remove(s)[t]);
            assert(olds[t] == olds.remove(s)[t]);
        }
    }
    assert(new_node@ =~= old_node@.insert(key, val));
}

/// Every key below a node agrees with any one of them on the nybbles before
/// the node's branch position (on all of them, for a leaf).
proof fn lemma_agree_rep<V, const N: usize>(node: Node<V, N>, rep: [u8; N], k: [u8; N], i: int)
    requires
        node.wf(),
        node@.contains_key(rep),
        node@.contains_key(k),
        0 <= i,
        node is Internal ==> i < node->Internal_0.index,
    ensures
        nyb(k@, i) == nyb(rep@, i),
{
    match node {
        Node::Leaf(l) => {
            assert(node@ == map![l.key => l.val]);
        },
        Node::Internal(n) => {
            node.lemma_wf_elim();
        },
    }
}

/// A branch that gained one key, which agrees with its other keys before the
/// branch position, still has one common prefix.
proof fn lemma_insert_prefix<V, const N: usize>(
    new_node: Node<V, N>,
    old_node: Node<V, N>,
    rep: [u8; N],
    key: [u8; N],
    val: V,
)
    requires
        old_node is Internal,
        old_node.wf(),
        old_node@.contains_key(rep),
        new_node is Internal,
        new_node->Internal_0.index == old_node->Internal_0.index,
        new_node->Internal_0.nybbles.wf(),
        forall|j: int| #[trigger]
            old_node->Internal_0.nybbles@.contains_key(j) ==> new_node->Internal_0.nybbles@.contains_key(j),
        new_node@ == old_node@.insert(key, val),
        forall|i: int| 0 <= i < old_node->Internal_0.index ==> nyb(key@, i) == nyb(rep@, i),
    ensures
        new_node.branch_ok(),
{
    old_node.lemma_wf_elim();
    let idx = old_node->Internal_0.index as int;
    assert forall|k1: [u8; N], k2: [u8; N], i: int|
        new_node@.contains_key(k1) && new_node@.contains_key(k2) && 0 <= i < idx implies nyb(
        k1@,
        i,
    ) == nyb(k2@, i) by {
        if k1 != key {
            lemma_agree_rep(old_node, rep, k1, i);
        }
        if k2 != key {
            lemma_agree_rep(old_node, rep, k2, i);
        }
    }
    let (a, b) = choose|a: int, b: int|
        a != b && #[trigger] old_node->Internal_0.nybbles@.contains_key(a)
            && #[trigger] old_node->Internal_0.nybbles@.contains_key(b);
    assert(new_node->Internal_0.nybbles@.contains_key(a));
    assert(new_node->Internal_0.nybbles@.contains_key(b));
}

/// A new branch at the first nybble `d` where `key` leaves the keys of
/// `old_node`, over `old_node` and a leaf for `key`, keeps the invariant and
/// holds both.
proof fn lemma_split<V, const N: usize>(
    new_node: Node<V, N>,
    old_node: Node<V, N>,
    rep: [u8; N],
    key: [u8; N],
    val: V,
    lo: int,
)
    requires
        old_node.wf(),
        old_node@.contains_key(rep),
        old_node.agrees_below(key, lo),
        new_node is Internal,
        ({
            let d = new_node->Internal_0.index as int;
            &&& 0 <= lo <= d < 2 * N
            &&& forall|i: int| lo <= i < d ==> nyb(key@, i) == nyb(rep@, i)
            &&& nyb(key@, d) != nyb(rep@, d)
            &&& old_node is Internal ==> d < old_node->Internal_0.index
            &&& new_node->Internal_0.nybbles.wf()
            &&& new_node->Internal_0.nybbles@ == Map::<int, Node<V, N>>::empty().insert(
                nyb(key@, d) as int,
                Node::Leaf(Leaf { key, val }),
            ).insert(nyb(rep@, d) as int, old_node)
        }),
    ensures
        new_node.wf(),
        new_node@ == old_node@.insert(key, val),
        !old_node@.contains_key(key),
        new_node->Internal_0.index >= lo,
{
    let n = new_node->Internal_0;
    let d = n.index as int;
    let leaf_node = Node::Leaf(Leaf { key, val });
    assert(leaf_node@ == map![key => val]);
    assert forall|k: [u8; N]| #[trigger] old_node@.contains_key(k) implies nyb(k@, d) == nyb(
        rep@,
        d,
    ) by {
        lemma_agree_rep(old_node, rep, k, d);
    }
    let ks = nyb(key@, d) as int;
    let rs = nyb(rep@, d) as int;
    assert(n.nybbles@.contains_key(ks) && n.nybbles@[ks] == leaf_node);
    assert(n.nybbles@.contains_key(rs) && n.nybbles@[rs] == old_node);
    assert(leaf_node.child_ok(ks, n.index));
    assert(old_node.child_ok(rs, n.index));
    assert forall|j: int| #[trigger] n.nybbles@.contains_key(j) implies {
        &&& n.nybbles@[j].wf()
        &&& n.nybbles@[j].child_ok(j, n.index)
    } by {}
    proof_nyb_bound(key@, d);
    proof_nyb_bound(rep@, d);
    new_node.lemma_members();
    assert(!old_node@.contains_key(key));
    assert(new_node@ =~= old_node@.insert(key, val));
    assert forall|k1: [u8; N], k2: [u8; N], i: int|
        new_node@.contains_key(k1) && new_node@.contains_key(k2) && 0 <= i < d implies nyb(
        k1@,
        i,
    ) == nyb(k2@, i) by {
        if i < lo {
            assert(nyb(rep@, i) == nyb(key@, i));
        }
        if k1 != key {
            lemma_agree_rep(old_node, rep, k1, i);
        }
        if k2 != key {
            lemma_agree_rep(old_node, rep, k2, i);
        }
    }
    assert(new_node.branch_ok());
    new_node.lemma_wf_intro();
}

proof fn proof_nyb_bound(key: Seq<u8>, i: int)
    requires
        0 <= i < 2 * key.len(),
    ensures
        0 <= nyb(key, i) < 16,
{
    lemma_byte_nybbles(key[i / 2], key[i / 2]);
}

/// A node holds at least one entry; a branch holds at least two.
proof fn lemma_nonempty<V, const N: usize>(node: Node<V, N>)
    requires
        node.wf(),
    ensures
        exists|k: [u8; N]| #[trigger] node@.contains_key(k),
        node is Internal ==> exists|k1: [u8; N], k2: [u8; N]|
            k1 != k2 && #[trigger] node@.contains_key(k1) && #[trigger] node@.contains_key(k2),
    decreases node,
{
    match node {
        Node::Leaf(l) => {
            assert(node@ == map![l.key => l.val]);
            assert(node@.contains_key(l.key));
        },
        Node::Internal(n) => {
            node.lemma_wf_elim();
            n.nybbles.lemma_view();
            let (a, b) = choose|a: int, b: int|
                a != b && #[trigger] n.nybbles@.contains_key(a) && #[trigger] n.nybbles@.contains_key(b);
            let ca = n.nybbles@[a];
            let cb = n.nybbles@[b];
            assert(ca == n.nybbles.data[rank(n.nybbles.index, a as nat) as int]);
            assert(cb == n.nybbles.data[rank(n.nybbles.index, b as nat) as int]);
            lemma_nonempty(ca);
            lemma_nonempty(cb);
            let ka = choose|k: [u8; N]| #[trigger] ca@.contains_key(k);
            let kb = choose|k: [u8; N]| #[trigger] cb@.contains_key(k);
            assert(ca.child_ok(a, n.index));
            assert(cb.child_ok(b, n.index));
            assert(node@.contains_key(ka));
            assert(node@.contains_key(kb));
        },
    }
}

impl<V, const N: usize> Node<V, N> {
    /// The two nodes have the same shape from slot `j` on: leaves with the
    /// same key, or branches at the same position whose children in each slot
    /// have the same shape.
    closed spec fn same_shape_from(self, other: Node<V, N>, j: int) -> bool
        decreases self, 16 - j,
    {
        match (self, other) {
            (Node::Leaf(a), Node::Leaf(b)) => a.key == b.key,
            (Node::Internal(a), Node::Internal(b)) => {
                if 0 <= j < 16 {
                    let pa = rank(a.nybbles.index, j as nat);
                    let pb = rank(b.nybbles.index, j as nat);
                    &&& self.same_shape_from(other, j + 1)
                    &&& has_bit(a.nybbles.index, j as u32) == has_bit(b.nybbles.index, j as u32)
                    &&& (has_bit(a.nybbles.index, j as u32) && pa < a.nybbles.data.len() && pb
                        < b.nybbles.data.len()) ==> a.nybbles.data[pa as int].same_shape_from(
                        b.nybbles.data[pb as int],
                        0,
                    )
                } else {
                    a.index == b.index
                }
            },
            _ => false,
        }
    }

    /// The two trees have the same shape: the same branches at the same
    /// positions, down to leaves with the same keys.
    pub closed spec fn same_shape(self, other: Node<V, N>) -> bool {
        self.same_shape_from(other, 0)
    }
}

/// A branch has two keys that differ at its branch position.
proof fn lemma_branch_witness<V, const N: usize>(node: Node<V, N>) -> (r: ([u8; N], [u8; N]))
    requires
        node is Internal,
        node.wf(),
    ensures
        node@.contains_key(r.0),
        node@.contains_key(r.1),
        nyb(r.0@, node->Internal_0.index as int) != nyb(r.1@, node->Internal_0.index as int),
{
    let n = node->Internal_0;
    node.lemma_wf_elim();
    n.nybbles.lemma_view();
    let (a, b) = choose|a: int, b: int|
        a != b && #[trigger] n.nybbles@.contains_key(a) && #[trigger] n.nybbles@.contains_key(b);
    let ca = n.nybbles@[a];
    let cb = n.nybbles@[b];
    lemma_nonempty(ca);
    lemma_nonempty(cb);
    let ka = choose|k: [u8; N]| #[trigger] ca@.contains_key(k);
    let kb = choose|k: [u8; N]| #[trigger] cb@.contains_key(k);
    assert(ca.child_ok(a, n.index));
    assert(cb.child_ok(b, n.index));
    (ka, kb)
}

proof fn lemma_same_shape<V, const N: usize>(x: Node<V, N>, y: Node<V, N>)
    requires
        x.wf(),
        y.wf(),
        x@ == y@,
    ensures
        x.same_shape(y),
    decreases x, 17int,
{
    lemma_nonempty(x);
    lemma_nonempty(y);
    match (x, y) {
        (Node::Leaf(a), Node::Leaf(b)) => {
            assert(x@ == map![a.key => a.val]);
            assert(y@ == map![b.key => b.val]);
            assert(x@.contains_key(a.key));
        },
        (Node::Internal(a), Node::Internal(b)) => {
            x.lemma_wf_elim();
            y.lemma_wf_elim();
            let (ka, kb) = lemma_branch_witness(x);
            let (la, lb) = lemma_branch_witness(y);
            if a.index < b.index {
                assert(nyb(ka@, a.index as int) == nyb(kb@, a.index as int));
            }
            if b.index < a.index {
                assert(nyb(la@, b.index as int) == nyb(lb@, b.index as int));
            }
            lemma_same_shape_from(x, y, 0);
        },
        (Node::Leaf(a), Node::Internal(b)) => {
            assert(x@ == map![a.key => a.val]);
            let (la, lb) = lemma_branch_witness(y);
        },
        (Node::Internal(a), Node::Leaf(b)) => {
            assert(y@ == map![b.key => b.val]);
            let (ka, kb) = lemma_branch_witness(x);
        },
    }
}

proof fn lemma_same_shape_from<V, const N: usize>(x: Node<V, N>, y: Node<V, N>, j: int)
    requires
        x.wf(),
        y.wf(),
        x@ == y@,
        x is Internal,
        y is Internal,
        x->Internal_0.index == y->Internal_0.index,
        0 <= j <= 16,
    ensures
        x.same_shape_from(y, j),
    decreases x, 16 - j,
{
    if j < 16 {
        let a = x->Internal_0;
        let b = y->Internal_0;
        x.lemma_wf_elim();
        y.lemma_wf_elim();
        a.nybbles.lemma_view();
        b.nybbles.lemma_view();
        lemma_same_shape_from(x, y, j + 1);
        if a.nybbles@.contains_key(j) {
            let c = a.nybbles@[j];
            lemma_nonempty(c);
            let k = choose|k: [u8; N]| #[trigger] c@.contains_key(k);
            assert(c.child_ok(j, a.index));
            assert(x@.contains_key(k));
        }
        if b.nybbles@.contains_key(j) {
            let c = b.nybbles@[j];
            lemma_nonempty(c);
            let k = choose|k: [u8; N]| #[trigger] c@.contains_key(k);
            assert(c.child_ok(j, b.index));
            assert(y@.contains_key(k));
        }
        if a.nybbles@.contains_key(j) {
            let cx = a.nybbles@[j];
            let cy = b.nybbles@[j];
            assert(cx.child_ok(j, a.index));
            assert(cy.child_ok(j, b.index));
            assert forall|k: [u8; N]| #[trigger] cx@.contains_key(k) implies cy@.contains_key(k) && cx@[k] == cy@[k] by {
                assert(x@.contains_key(k));
            }
            assert forall|k: [u8; N]| #[trigger] cy@.contains_key(k) implies cx@.contains_key(k) by {
                assert(y@.contains_key(k));
            }
            assert(cx@ =~= cy@);
            assert(cx == a.nybbles.data[rank(a.nybbles.index, j as nat) as int]);
            lemma_same_shape(cx, cy);
        }
    }
}

/// A node that holds a single key is a leaf with that key.
proof fn lemma_single_key<V, const N: usize>(node: Node<V, N>, k1: [u8; N])
    requires
        node.wf(),
        node@.dom() == set![k1],
    ensures
        node is Leaf,
        node->Leaf_0.key == k1,
{
    lemma_nonempty(node);
    if node is Internal {
        let (a, b) = choose|a: [u8; N], b: [u8; N]|
            a != b && #[trigger] node@.contains_key(a) && #[trigger] node@.contains_key(b);
        assert(node@.dom().contains(a) && node@.dom().contains(b));
    } else {
        assert(node@ == map![node->Leaf_0.key => node->Leaf_0.val]);
        assert(node@.dom().contains(node->Leaf_0.key));
    }
}

/// An associative container keyed by `N`-byte keys.
pub struct Trie<V, const N: usize> {
    root: Option<Node<V, N>>,
}

impl<V, const N: usize> Trie<V, N> {
    /// The entries held.
    pub closed spec fn view(&self) -> Map<[u8; N], V> {
        match self.root {
            Some(node) => node@,
            None => Map::empty(),
        }
    }

    pub closed spec fn wf(&self) -> bool {
        match self.root {
            Some(node) => node.wf(),
            None => true,
        }
    }

    pub fn new() -> (r: Trie<V, N>)
        ensures
            r.wf(),
            r@ == Map::<[u8; N], V>::empty(),
    {
        Trie { root: None }
    }

    /// The branch position of the root, when the root is a branch.
    pub closed spec fn root_branch(&self) -> Option<nat> {
        match self.root {
            Some(Node::Internal(n)) => Some(n.index as nat),
            _ => None,
        }
    }

    /// The two tries have the same shape: both empty, or roots of the same
    /// shape.
    pub closed spec fn same_shape(&self, other: &Trie<V, N>) -> bool {
        match (self.root, other.root) {
            (None, None) => true,
            (Some(a), Some(b)) => a.same_shape(b),
            _ => false,
        }
    }

    pub(crate) proof fn lemma_shape_determined(&self, other: &Trie<V, N>)
        requires
            self.wf(),
            other.wf(),
            self@ == other@,
        ensures
            self.same_shape(other),
    {
        match (self.root, other.root) {
            (Some(a), Some(b)) => lemma_same_shape(a, b),
            (Some(a), None) => lemma_nonempty(a),
            (None, Some(b)) => lemma_nonempty(b),
            (None, None) => {},
        }
    }

    /// The root node, when the trie is not empty.
    pub closed spec fn root_spec(&self) -> Option<Node<V, N>> {
        self.root
    }

    pub fn root(&self) -> (r: Option<&Node<V, N>>)
        ensures
            r is Some <==> self.root_spec() is Some,
            r matches Some(n) ==> *n == self.root_spec()->0,
            self.root_spec() is None ==> self@ == Map::<[u8; N], V>::empty(),
    {
        match &self.root {
            Some(node) => Some(node),
            None => None,
        }
    }

    /// Stores `val` under `key`; returns the value it replaced, if any.
    pub fn insert(&mut self, key: [u8; N], val: V) -> (r: Option<V>)
        requires
            old(self).wf(),
            2 * N <= usize::MAX,
        ensures
            final(self).wf(),
            final(self)@ == old(self)@.insert(key, val),
            r is Some <==> old(self)@.contains_key(key),
            r matches Some(v) ==> v == old(self)@[key],
            forall|k1: [u8; N]|
                old(self)@.dom() == set![k1] && k1 != key ==> final(self).root_branch() == Some(
                    #[trigger] divergence(k1@, key@) as nat,
                ),
    {
        let mut root: Option<Node<V, N>> = None;
        std::mem::swap(&mut self.root, &mut root);
        match root {
            Some(mut node) => {
                proof {
                    assert forall|k1: [u8; N]|
                        #[trigger] divergence(k1@, key@) == divergence(k1@, key@) && node@.dom()
                            == set![k1] && k1 != key implies node is Leaf && node->Leaf_0.key
                        == k1 by {
                        lemma_single_key(node, k1);
                    }
                }
                let r = node.insert_at(key, val, 0);
                self.root = Some(node);
                r
            },
            None => {
                let leaf = Node::Leaf(Leaf::new(key, val));
                proof {
                    assert(leaf@ =~= Map::<[u8; N], V>::empty().insert(key, val));
                    assert forall|k1: [u8; N]| #[trigger]
                        divergence(k1@, key@) == divergence(k1@, key@) implies Map::<
                        [u8; N],
                        V,
                    >::empty().dom() != set![k1] by {
                        assert(set![k1].contains(k1));
                    }
                }
                self.root = Some(leaf);
                None
            },
        }
    }

    /// The value stored under `key`, if any.
    pub fn get(&self, key: &[u8; N]) -> (r: Option<&V>)
        requires
            self.wf(),
            2 * N <= usize::MAX,
        ensures
            r is Some <==> self@.contains_key(*key),
            r matches Some(v) ==> *v == self@[*key],
    {
        match &self.root {
            Some(node) => node.get(key),
            None => None,
        }
    }
}

} // verus!
