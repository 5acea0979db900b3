//! The set of addresses already claimed for fetching in one crawl run.
use vstd::prelude::*;

use crate::bucket::views;
use crate::order::str_equal;

verus! {

/// Canonical addresses claimed so far. The set only grows, and a claim
/// tests and records in one step.
pub struct VisitedSet {
    claimed: Vec<String>,
}

impl View for VisitedSet {
    type V = Set<Seq<char>>;

    closed spec fn view(&self) -> Set<Seq<char>> {
        views(self.claimed@).to_set()
    }
}

impl VisitedSet {
    /// An empty set.
    pub fn new() -> (r: VisitedSet)
        ensures
            r@ == Set::<Seq<char>>::empty(),
    {
        let r = VisitedSet { claimed: Vec::new() };
        assert(views(r.claimed@) =~= Seq::<Seq<char>>::empty());
        assert(r@ =~= Set::<Seq<char>>::empty());
        r
    }

    /// Whether `address` has been claimed.
    pub fn contains(&self, address: &str) -> (r: bool)
        ensures
            r == self@.contains(address@),
    {
        let n = self.claimed.len();
        let mut i: usize = 0;
        while i < n
            invariant
                n == self.claimed@.len(),
                i <= n,
                forall|k: int| 0 <= k < i ==> self.claimed@[k]@ != address@,
            decreases n - i,
        {
            if str_equal(self.claimed[i].as_str(), address) {
                assert(views(self.claimed@)[i as int] == address@);
                return true;
            }
            i += 1;
        }
        assert(!views(self.claimed@).contains(address@)) by {
            if views(self.claimed@).contains(address@) {
                let k = choose|k: int|
                    0 <= k < n && #[trigger] views(self.claimed@)[k] == address@;
                assert(self.claimed@[k]@ == address@);
            }
        }
        false
    }

    /// Claims `address`: true exactly when nobody had claimed it before.
    /// Either way it is claimed afterwards.
    pub fn try_claim(&mut self, address: &str) -> (r: bool)
        ensures
            r == !old(self)@.contains(address@),
            final(self)@ == old(self)@.insert(address@),
    {
        if self.contains(address) {
            assert(self@.insert(address@) =~= self@);
            false
        } else {
            let ghost before = views(self.claimed@);
            self.claimed.push(address.to_owned());
            assert(views(self.claimed@) =~= before.push(address@));
            assert(self@ =~= before.to_set().insert(address@)) by {
                assert forall|x: Seq<char>| before.push(address@).contains(x) <==> (
                before.contains(x) || x == address@) by {
                    if before.push(address@).contains(x) {
                        let k = choose|k: int|
                            0 <= k < before.len() + 1 && before.push(address@)[k] == x;
                        if k < before.len() {
                            assert(before[k] == x);
                        }
                    }
                    if before.contains(x) {
                        let k = choose|k: int| 0 <= k < before.len() && before[k] == x;
                        assert(before.push(address@)[k] == x);
                    }
                    if x == address@ {
                        assert(before.push(address@)[before.len() as int] == x);
                    }
                }
            }
            true
        }
    }
}

} // verus!
