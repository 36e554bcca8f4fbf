use vstd::prelude::*;

verus! {

/// True when every element of `s` is smaller than every element after it.
pub open spec fn strictly_ascending(s: Seq<u32>) -> bool {
    forall|i: int, j: int| 0 <= i < j < s.len() ==> s[i] < s[j]
}

/// A set of 32-bit unsigned integers, kept as its elements in ascending order.
pub struct Bitmap {
    vals: Vec<u32>,
}

impl View for Bitmap {
    type V = Set<u32>;

    /// The logical contents of the set.
    closed spec fn view(&self) -> Set<u32> {
        self.vals@.to_set()
    }
}

impl Bitmap {
    /// The elements of the set in the order a cursor visits them.
    pub closed spec fn elements(&self) -> Seq<u32> {
        self.vals@
    }

    /// Well-formedness: the stored elements are strictly ascending.
    pub open spec fn wf(&self) -> bool {
        strictly_ascending(self.elements())
    }

    /// A full traversal visits each element of the set exactly once: the
    /// visited values are pairwise distinct, they are exactly the contents,
    /// and there are as many of them as the set has elements.
    pub proof fn lemma_traversal_complete(&self)
        requires
            self.wf(),
        ensures
            self.elements().no_duplicates(),
            self.elements().to_set() == self@,
            self.elements().len() == self@.len(),
    {
        assert forall|i: int, j: int|
            0 <= i < self.elements().len() && 0 <= j < self.elements().len() && i != j implies
            self.elements()[i] != self.elements()[j] by {
            if i < j {
                assert(self.elements()[i] < self.elements()[j]);
            } else {
                assert(self.elements()[j] < self.elements()[i]);
            }
        }
        self.elements().unique_seq_to_set();
    }

    /// A set with no elements gives a traversal that ends at once.
    pub proof fn lemma_empty_traversal(&self)
        requires
            self.wf(),
            self@ == Set::<u32>::empty(),
        ensures
            self.elements().len() == 0,
    {
        self.lemma_traversal_complete();
    }

    /// An empty set.
    pub fn create() -> (r: Bitmap)
        ensures
            r.wf(),
            r@ == Set::<u32>::empty(),
            r.elements() == Seq::<u32>::empty(),
    {
        let r = Bitmap { vals: Vec::new() };
        assert(r.vals@.to_set() =~= Set::<u32>::empty());
        r
    }

    /// Builds a set holding exactly the distinct values of `values`, in any
    /// order and with any number of repetitions.
    pub fn of(values: &[u32]) -> (r: Bitmap)
        ensures
            r.wf(),
            r@ == values@.to_set(),
    {
        let mut vals: Vec<u32> = Vec::new();
        let mut k: usize = 0;
        while k < values.len()
            invariant
                k <= values@.len(),
                strictly_ascending(vals@),
                forall|x: u32| vals@.contains(x) <==> values@.take(k as int).contains(x),
            decreases values@.len() - k,
        {
            let v = values[k];
            let p = position_for(&vals, v);
            let ghost before = vals@;
            assert(forall|x: u32| before.contains(x) <==> values@.take(k as int).contains(x));
            if p == vals.len() || vals[p] != v {
                vals.insert(p, v);
                proof {
                    lemma_insert_ascending(before, p as int, v);
                    lemma_insert_contains(before, p as int, v);
                }
            }
            proof {
                assert(values@.take(k + 1) =~= values@.take(k as int).push(v));
                assert forall|x: u32|
                    values@.take(k + 1).contains(x) <==> (values@.take(k as int).contains(x)
                        || x == v) by {
                    if x == v {
                        assert(values@.take(k + 1)[k as int] == v);
                    }
                    if values@.take(k as int).contains(x) {
                        let i = choose|i: int|
                            0 <= i < k && values@.take(k as int)[i] == x;
                        assert(values@.take(k + 1)[i] == x);
                    }
                }
                if p < before.len() && before[p as int] == v {
                    assert(before.contains(v));
                    assert(vals@ == before);
                }
                assert forall|x: u32| vals@.contains(x) <==> (before.contains(x) || x == v) by {}
                assert forall|x: u32|
                    vals@.contains(x) <==> values@.take(k + 1).contains(x) by {
                    assert(before.contains(x) <==> values@.take(k as int).contains(x));
                    assert(vals@.contains(x) <==> (before.contains(x) || x == v));
                    assert(values@.take(k + 1).contains(x) <==> (values@.take(k as int).contains(
                        x,
                    ) || x == v));
                }
            }
            k = k + 1;
        }
        assert(values@.take(values@.len() as int) =~= values@);
        let r = Bitmap { vals };
        assert(r@ =~= values@.to_set());
        r
    }

    /// Number of elements in the set.
    pub(crate) fn len(&self) -> (r: usize)
        ensures
            r == self.elements().len(),
    {
        self.vals.len()
    }

    /// The element at rank `i` in ascending order.
    pub(crate) fn get(&self, i: usize) -> (r: u32)
        requires
            i < self.elements().len(),
        ensures
            r == self.elements()[i as int],
    {
        self.vals[i]
    }
}

/// The first index of `vals` whose element is not below `v`.
fn position_for(vals: &Vec<u32>, v: u32) -> (p: usize)
    requires
        strictly_ascending(vals@),
    ensures
        p <= vals@.len(),
        forall|i: int| 0 <= i < p ==> vals@[i] < v,
        p < vals@.len() ==> v <= vals@[p as int],
{
    let mut p: usize = 0;
    while p < vals.len() && vals[p] < v
        invariant
            p <= vals@.len(),
            forall|i: int| 0 <= i < p ==> vals@[i] < v,
        decreases vals@.len() - p,
    {
        p = p + 1;
    }
    p
}

proof fn lemma_insert_ascending(s: Seq<u32>, p: int, v: u32)
    requires
        strictly_ascending(s),
        0 <= p <= s.len(),
        forall|i: int| 0 <= i < p ==> s[i] < v,
        p < s.len() ==> v < s[p],
    ensures
        strictly_ascending(s.insert(p, v)),
{
    let t = s.insert(p, v);
    assert forall|i: int, j: int| 0 <= i < j < t.len() implies t[i] < t[j] by {
        if j < p {
        } else if j == p {
        } else if i < p {
            assert(s[i] < s[j - 1] || j - 1 == i);
        } else if i == p {
            assert(v < s[p]);
            assert(s[p] <= s[j - 1]);
        } else {
        }
    }
}

proof fn lemma_insert_contains(s: Seq<u32>, p: int, v: u32)
    requires
        0 <= p <= s.len(),
    ensures
        forall|x: u32| s.insert(p, v).contains(x) <==> (s.contains(x) || x == v),
{
    let t = s.insert(p, v);
    assert forall|x: u32| t.contains(x) <==> (s.contains(x) || x == v) by {
        if t.contains(x) {
            let i = choose|i: int| 0 <= i < t.len() && t[i] == x;
            if i < p {
                assert(s[i] == x);
            } else if i > p {
                assert(s[i - 1] == x);
            }
        }
        if s.contains(x) {
            let i = choose|i: int| 0 <= i < s.len() && s[i] == x;
            if i < p {
                assert(t[i] == x);
            } else {
                assert(t[i + 1] == x);
            }
        }
        if x == v {
            assert(t[p] == v);
        }
    }
}

} // verus!
