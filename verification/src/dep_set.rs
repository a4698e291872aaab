//! The dependency set: path strings with the duplicates collapsed.
//!
//! The set remembers the order in which its members first arrived, so a
//! caller that fills it step by step has an exact description of the result:
//! the view is the sequence of members, each one kept once.

use vstd::prelude::*;

verus! {

/// Inserting `x` into the member sequence `acc`: a no-op when `x` is already
/// a member, else appended at the end.
pub open spec fn insert_one(acc: Seq<Seq<char>>, x: Seq<char>) -> Seq<Seq<char>> {
    if acc.contains(x) {
        acc
    } else {
        acc.push(x)
    }
}

/// Inserting every element of `xs`, in order, into the member sequence `acc`.
pub open spec fn insert_all(acc: Seq<Seq<char>>, xs: Seq<Seq<char>>) -> Seq<Seq<char>>
    decreases xs.len(),
{
    if xs.len() == 0 {
        acc
    } else {
        insert_all(insert_one(acc, xs[0]), xs.drop_first())
    }
}

/// Inserting a concatenation inserts the two parts one after the other.
pub proof fn lemma_insert_all_concat(acc: Seq<Seq<char>>, xs: Seq<Seq<char>>, ys: Seq<Seq<char>>)
    ensures
        insert_all(acc, xs + ys) == insert_all(insert_all(acc, xs), ys),
    decreases xs.len(),
{
    if xs.len() == 0 {
        assert(xs + ys =~= ys);
    } else {
        assert((xs + ys).drop_first() =~= xs.drop_first() + ys);
        lemma_insert_all_concat(insert_one(acc, xs[0]), xs.drop_first(), ys);
    }
}

/// Inserting a single element is one insertion.
pub proof fn lemma_insert_all_singleton(acc: Seq<Seq<char>>, x: Seq<char>)
    ensures
        insert_all(acc, seq![x]) == insert_one(acc, x),
{
    reveal_with_fuel(insert_all, 2);
    assert(seq![x].drop_first() =~= Seq::<Seq<char>>::empty());
}

/// A member of the result is an element of `xs` or a member of `acc`, and
/// the other way round: insertion collapses duplicates and loses nothing.
pub proof fn lemma_insert_all_membership(acc: Seq<Seq<char>>, xs: Seq<Seq<char>>, x: Seq<char>)
    ensures
        insert_all(acc, xs).contains(x) <==> (acc.contains(x) || xs.contains(x)),
    decreases xs.len(),
{
    if xs.len() > 0 {
        lemma_insert_all_membership(insert_one(acc, xs[0]), xs.drop_first(), x);
        assert(insert_one(acc, xs[0]).contains(x) <==> (acc.contains(x) || x == xs[0])) by {
            if !acc.contains(x) && x == xs[0] {
                assert(acc.push(xs[0])[acc.len() as int] == x);
            }
            if acc.contains(x) && !acc.contains(xs[0]) {
                let i = choose|i: int| 0 <= i < acc.len() && acc[i] == x;
                assert(acc.push(xs[0])[i] == x);
            }
        }
        assert(xs.contains(x) <==> (x == xs[0] || xs.drop_first().contains(x))) by {
            if xs.drop_first().contains(x) {
                let i = choose|i: int| 0 <= i < xs.drop_first().len() && xs.drop_first()[i] == x;
                assert(xs[i + 1] == x);
            }
            if xs.contains(x) {
                let i = choose|i: int| 0 <= i < xs.len() && xs[i] == x;
                if i > 0 {
                    assert(xs.drop_first()[i - 1] == x);
                }
            }
        }
    }
}

/// A set of path strings, deduplicated, in order of first insertion.
#[derive(Debug, PartialEq, Eq)]
pub struct DepSet {
    items: Vec<String>,
}

impl View for DepSet {
    type V = Seq<Seq<char>>;

    closed spec fn view(&self) -> Seq<Seq<char>> {
        self.items@.map_values(|s: String| s@)
    }
}

impl DepSet {
    /// The set holds each member once.
    pub closed spec fn wf(&self) -> bool {
        self@.no_duplicates()
    }

    /// The empty set.
    pub fn new() -> (r: DepSet)
        ensures
            r@ == Seq::<Seq<char>>::empty(),
            r.wf(),
    {
        let r = DepSet { items: Vec::new() };
        proof {
            assert(r@ =~= Seq::<Seq<char>>::empty());
        }
        r
    }

    /// How many members the set has.
    pub fn len(&self) -> (n: usize)
        ensures
            n == self@.len(),
    {
        self.items.len()
    }

    /// Whether `x` is a member.
    pub fn contains(&self, x: &String) -> (b: bool)
        ensures
            b == self@.contains(x@),
    {
        let n = self.items.len();
        for i in 0..n
            invariant
                n == self.items.len(),
                forall|m: int| 0 <= m < i ==> self@[m] != x@,
        {
            if self.items[i] == *x {
                proof {
                    assert(self@[i as int] == x@);
                }
                return true;
            }
            proof {
                assert(self@[i as int] == self.items@[i as int]@);
            }
        }
        false
    }

    /// Inserts `x`: a no-op when it is already a member.
    pub fn insert(&mut self, x: String)
        requires
            old(self).wf(),
        ensures
            final(self)@ == insert_one(old(self)@, x@),
            final(self).wf(),
    {
        if !self.contains(&x) {
            let ghost pre = self@;
            let ghost xv = x@;
            self.items.push(x);
            proof {
                assert(self@ =~= pre.push(xv));
                assert(self@.no_duplicates()) by {
                    assert(forall|m: int| 0 <= m < pre.len() ==> self@[m] == pre[m]);
                    assert(self@[pre.len() as int] == xv);
                }
            }
        }
    }

    /// The member at position `i`, in order of first insertion.
    pub fn get(&self, i: usize) -> (r: &String)
        requires
            i < self@.len(),
        ensures
            r@ == self@[i as int],
    {
        &self.items[i]
    }
}

} // verus!
