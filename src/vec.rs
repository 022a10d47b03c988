//! Small helpers on vectors: front insertion and removal, and counting.
use vstd::prelude::*;

verus! {

/// Number of `true` entries of `bs`.
pub open spec fn count_true(bs: Seq<bool>) -> nat
    decreases bs.len(),
{
    if bs.len() == 0 {
        0
    } else {
        count_true(bs.drop_last()) + if bs.last() { 1nat } else { 0nat }
    }
}

/// Whether `bs` holds, for each item of `items`, a result that `f` may give
/// for it.
pub open spec fn results_of<T, F: Fn(&T) -> bool>(f: F, items: Seq<T>, bs: Seq<bool>) -> bool {
    &&& bs.len() == items.len()
    &&& forall|k: int| 0 <= k < items.len() ==> f.ensures((&#[trigger] items[k],), bs[k])
}

/// Front insertion and removal, and counting with a predicate.
pub trait VecUtils<T> {
    /// The items, front first.
    spec fn items(&self) -> Seq<T>;

    /// Puts `v` in front.
    fn unshift(&mut self, v: T)
        ensures
            final(self).items() == seq![v] + old(self).items(),
    ;

    /// Takes the front item out.
    fn shift(&mut self) -> (r: T)
        requires
            old(self).items().len() > 0,
        ensures
            r == old(self).items()[0],
            final(self).items() == old(self).items().drop_first(),
    ;

    /// Number of items on which `f` returns `true`.
    fn count<F: Fn(&T) -> bool>(&self, f: &F) -> (r: usize)
        requires
            forall|x: &T| f.requires((x,)),
        ensures
            exists|bs: Seq<bool>| results_of(*f, self.items(), bs) && r == count_true(bs),
    ;
}

impl<T> VecUtils<T> for Vec<T> {
    open spec fn items(&self) -> Seq<T> {
        self@
    }

    fn unshift(&mut self, v: T) {
        self.insert(0, v);
        assert(self@ =~= seq![v] + old(self)@);
    }

    fn shift(&mut self) -> (r: T) {
        let r = self.remove(0);
        assert(self@ =~= old(self)@.drop_first());
        r
    }

    fn count<F: Fn(&T) -> bool>(&self, f: &F) -> (r: usize) {
        let mut count: usize = 0;
        let mut i: usize = 0;
        let ghost mut bs: Seq<bool> = Seq::empty();
        while i < self.len()
            invariant
                i <= self@.len(),
                bs.len() == i,
                forall|x: &T| f.requires((x,)),
                forall|k: int| 0 <= k < i ==> f.ensures((&#[trigger] self@[k],), bs[k]),
                count == count_true(bs),
                count <= i,
            decreases self@.len() - i,
        {
            let b = f(&self[i]);
            proof {
                assert(bs.push(b).drop_last() =~= bs);
                bs = bs.push(b);
            }
            if b {
                count = count + 1;
            }
            i = i + 1;
        }
        assert(results_of(*f, self@, bs));
        count
    }
}

} // verus!
