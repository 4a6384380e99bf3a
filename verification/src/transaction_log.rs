//! A first-in-first-out transaction log.

use vstd::prelude::*;

verus! {

/// An append-only transaction log replayed first-in-first-out:
/// `append` adds at the tail, `pop` takes from the head.
pub struct TransactionLog {
    pub entries: Vec<String>,
    pub length: u64,
}

impl View for TransactionLog {
    type V = Seq<Seq<char>>;

    closed spec fn view(&self) -> Seq<Seq<char>> {
        self.entries@.map_values(|s: String| s@)
    }
}

impl TransactionLog {
    /// The public counter agrees with the stored entries.
    pub closed spec fn inv(&self) -> bool {
        self.length == self.entries@.len()
    }

    pub fn new_empty() -> (r: Self)
        ensures
            r.inv(),
            r.length == 0,
            r@ == Seq::<Seq<char>>::empty(),
    {
        let r = TransactionLog { entries: Vec::new(), length: 0 };
        proof {
            assert(r@ =~= Seq::<Seq<char>>::empty());
        }
        r
    }

    /// Add a value at the tail of the log.
    pub fn append(&mut self, value: String)
        requires
            old(self).inv(),
            old(self).length < u64::MAX,
        ensures
            final(self).inv(),
            final(self).length == old(self).length + 1,
            final(self)@ == old(self)@.push(value@),
    {
        let ghost before = self.entries@;
        self.entries.push(value);
        self.length = self.length + 1;
        proof {
            assert(self@ =~= before.map_values(|s: String| s@).push(value@));
        }
    }

    /// Take the oldest value off the head of the log, if any.
    pub fn pop(&mut self) -> (r: Option<String>)
        requires
            old(self).inv(),
        ensures
            final(self).inv(),
            old(self)@.len() == 0 ==> r.is_none() && final(self)@ == old(self)@ && final(self).length == old(self).length,
            old(self)@.len() > 0 ==> (r matches Some(s) && s@ == old(self)@[0]) && final(self)@
                == old(self)@.subrange(1, old(self)@.len() as int) && final(self).length == old(self).length - 1,
    {
        if self.entries.len() == 0 {
            None
        } else {
            let ghost before = self.entries@;
            let s = self.entries.remove(0);
            self.length = self.length - 1;
            proof {
                assert(self.entries@ =~= before.subrange(1, before.len() as int));
                assert(self@ =~= before.map_values(|s: String| s@).subrange(
                    1,
                    before.len() as int,
                ));
            }
            Some(s)
        }
    }
}

} // verus!
