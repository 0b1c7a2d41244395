use vstd::prelude::*;

verus! {

/// Whether bit `i` of `bits` is set.
pub open spec fn has_bit(bits: u32, i: u32) -> bool {
    (bits >> i) & 1u32 == 1u32
}

/// The number of set bits of `bits` below position `i`.
pub open spec fn rank(bits: u32, i: nat) -> nat
    decreases i,
{
    if i == 0 {
        0
    } else {
        rank(bits, (i - 1) as nat) + if has_bit(bits, (i - 1) as u32) {
            1nat
        } else {
            0nat
        }
    }
}

proof fn lemma_rank_mono(bits: u32, a: nat, b: nat)
    requires
        a <= b,
    ensures
        rank(bits, a) <= rank(bits, b),
    decreases b - a,
{
    if a < b {
        lemma_rank_mono(bits, a, (b - 1) as nat);
    }
}

proof fn lemma_rank_set(bits: u32, a: nat, b: nat)
    requires
        a < b,
        has_bit(bits, a as u32),
    ensures
        rank(bits, a) < rank(bits, b),
{
    lemma_rank_mono(bits, a + 1, b);
}

proof fn lemma_rank_or(bits: u32, s: u32, j: nat)
    requires
        s < 16,
        j <= 16,
        !has_bit(bits, s),
    ensures
        j <= s ==> rank(bits | (1u32 << s), j) == rank(bits, j),
        j > s ==> rank(bits | (1u32 << s), j) == rank(bits, j) + 1,
    decreases j,
{
    if j > 0 {
        let i = (j - 1) as u32;
        lemma_rank_or(bits, s, (j - 1) as nat);
        assert(has_bit(bits | (1u32 << s), i) <==> (has_bit(bits, i) || i == s)) by (bit_vector)
            requires
                s < 16,
                i < 16,
        ;
    }
}

/// A partial map from the indices `0..16` to elements, stored as a presence
/// bitmap and a dense vector of the present elements in ascending index order.
pub struct Sparse<T> {
    pub(crate) index: u32,
    pub(crate) data: Vec<T>,
}

impl<T> Sparse<T> {
    /// The bitmap and the vector agree: one element per set bit among the
    /// sixteen slots.
    pub closed spec fn wf(&self) -> bool {
        &&& self.index < 0x10000
        &&& self.data.len() == rank(self.index, 16)
    }

    /// The slots that hold an element, each with its element.
    pub closed spec fn view(&self) -> Map<int, T> {
        Map::new(
            |j: int| 0 <= j < 16 && has_bit(self.index, j as u32),
            |j: int| self.data@[rank(self.index, j as nat) as int],
        )
    }

    /// Where the element of a present slot lies in the dense vector.
    pub(crate) proof fn lemma_slot(&self, j: int)
        requires
            self.wf(),
            0 <= j < 16,
            has_bit(self.index, j as u32),
        ensures
            rank(self.index, j as nat) < self.data.len(),
    {
        lemma_rank_set(self.index, j as nat, 16);
    }

    /// The view through the bitmap and the dense vector.
    pub(crate) proof fn lemma_view(&self)
        requires
            self.wf(),
        ensures
            forall|j: int| #[trigger]
                self@.contains_key(j) <==> (0 <= j < 16 && has_bit(self.index, j as u32)),
            forall|j: int|
                self@.contains_key(j) ==> rank(self.index, j as nat) < self.data.len() && #[trigger] self@[j]
                    == self.data[rank(self.index, j as nat) as int],
    {
        assert forall|j: int| self@.contains_key(j) implies rank(self.index, j as nat)
            < self.data.len() by {
            self.lemma_slot(j);
        }
    }

    pub fn new() -> (r: Sparse<T>)
        ensures
            r.wf(),
            r@ == Map::<int, T>::empty(),
    {
        let r = Sparse { index: 0, data: Vec::new() };
        proof {
            assert forall|i: u32| i < 16 implies !has_bit(0u32, i) by {
                assert((0u32 >> i) & 1u32 == 0u32) by (bit_vector);
            }
            lemma_rank_none(0u32, 16);
            assert(r@ =~= Map::<int, T>::empty());
        }
        r
    }

    pub fn contains(&self, idx: usize) -> (r: bool)
        requires
            idx < 16,
        ensures
            r == self@.contains_key(idx as int),
    {
        (self.index >> (idx as u32)) & 1 == 1
    }

    /// Position in the dense vector of the element for slot `idx`: the number
    /// of present slots below it.
    fn actual(&self, idx: usize) -> (r: usize)
        requires
            self.wf(),
            idx < 16,
        ensures
            r == rank(self.index, idx as nat),
            r <= self.data.len(),
    {
        let mut count: usize = 0;
        let mut j: u32 = 0;
        while j < idx as u32
            invariant
                j <= idx < 16,
                count == rank(self.index, j as nat),
                count <= j,
            decreases idx - j,
        {
            if (self.index >> j) & 1 == 1 {
                count = count + 1;
            }
            j = j + 1;
        }
        proof {
            lemma_rank_mono(self.index, idx as nat, 16);
        }
        count
    }

    pub fn get(&self, idx: usize) -> (r: Option<&T>)
        requires
            self.wf(),
            idx < 16,
        ensures
            r is Some <==> self@.contains_key(idx as int),
            r matches Some(v) ==> *v == self@[idx as int],
    {
        if self.contains(idx) {
            proof {
                self.lemma_slot(idx as int);
            }
            Some(&self.data[self.actual(idx)])
        } else {
            None
        }
    }

    pub fn get_mut(&mut self, idx: usize) -> (r: Option<&mut T>)
        requires
            old(self).wf(),
            idx < 16,
        ensures
            r is Some <==> old(self)@.contains_key(idx as int),
            r matches Some(v) ==> {
                &&& *v == old(self)@[idx as int]
                &&& final(self).wf()
                &&& final(self)@ == old(self)@.insert(idx as int, *final(v))
            },
            r is None ==> *final(self) == *old(self),
    {
        if self.contains(idx) {
            proof {
                self.lemma_slot(idx as int);
            }
            let actual = self.actual(idx);
            proof {
                let ghost old_self = *self;
                assert forall|s: Sparse<T>|
                    s.index == old_self.index && s.data@.len() == old_self.data@.len() && s.data@
                        =~= old_self.data@.update(actual as int, s.data@[actual as int]) implies (
                    s.wf() && #[trigger] s@ =~= old_self@.insert(
                        idx as int,
                        s.data@[actual as int],
                    )) by {
                    assert forall|j: int| 0 <= j < 16 && has_bit(old_self.index, j as u32) implies
                        #[trigger] s@[j] == old_self@.insert(
                        idx as int,
                        s.data@[actual as int],
                    )[j] by {
                        if j != idx {
                            old_self.lemma_slot(j);
                            if j < idx {
                                lemma_rank_set(old_self.index, j as nat, idx as nat);
                            } else {
                                lemma_rank_set(old_self.index, idx as nat, j as nat);
                            }
                        }
                    }
                }
            }
            let v = &mut self.data[actual];
            Some(v)
        } else {
            None
        }
    }

    /// Puts `elt` in the free slot `idx`.
    pub fn insert_fresh(&mut self, idx: usize, elt: T)
        requires
            old(self).wf(),
            idx < 16,
            !old(self)@.contains_key(idx as int),
        ensures
            final(self).wf(),
            final(self)@ == old(self)@.insert(idx as int, elt),
    {
        let actual = self.actual(idx);
        let ghost old_self = *self;
        self.data.insert(actual, elt);
        self.index = self.index | (1u32 << (idx as u32));
        proof {
            let s = idx as u32;
            let b = old_self.index;
            lemma_rank_or(b, s, 16);
            assert(b | (1u32 << s) < 0x10000) by (bit_vector)
                requires
                    b < 0x10000,
                    s < 16,
            ;
            assert forall|j: int| 0 <= j < 16 implies (#[trigger] has_bit(self.index, j as u32) <==> (has_bit(
                b,
                j as u32,
            ) || j == idx)) by {
                let i = j as u32;
                assert(has_bit(b | (1u32 << s), i) <==> (has_bit(b, i) || i == s)) by (bit_vector)
                    requires
                        s < 16,
                        i < 16,
                ;
            }
            assert forall|j: int|
                0 <= j < 16 && has_bit(self.index, j as u32) implies self.data@[rank(
                self.index,
                j as nat,
            ) as int] == old_self@.insert(idx as int, elt)[j] by {
                lemma_rank_or(b, s, j as nat);
                if j < idx {
                    lemma_rank_set(b, j as nat, idx as nat);
                } else if j > idx {
                    lemma_rank_mono(b, idx as nat, j as nat);
                    old_self.lemma_slot(j);
                }
            }
            assert(self@ =~= old_self@.insert(idx as int, elt));
        }
    }
}

proof fn lemma_rank_none(bits: u32, j: nat)
    requires
        forall|i: u32| i < j ==> !has_bit(bits, i),
    ensures
        rank(bits, j) == 0,
    decreases j,
{
    if j > 0 {
        lemma_rank_none(bits, (j - 1) as nat);
    }
}

} // verus!
