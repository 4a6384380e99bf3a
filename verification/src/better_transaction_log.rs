//! A transaction log that can also be iterated from either end.

use vstd::prelude::*;

verus! {

/// A cursor over a snapshot of the log, able to run forward from the
/// head or backward from the tail.
pub struct ListIterator {
    pub items: Vec<String>,
    pub current: Option<usize>,
}

impl ListIterator {
    /// The cursor, when set, points at a real entry.
    pub closed spec fn inv(&self) -> bool {
        self.current matches Some(i) ==> i < self.items@.len()
    }

    /// The entries the iterator ranges over.
    pub closed spec fn item_views(&self) -> Seq<Seq<char>> {
        self.items@.map_values(|s: String| s@)
    }

    /// The current position, if the iterator is not exhausted.
    pub closed spec fn cursor(&self) -> Option<int> {
        match self.current {
            Some(i) => Some(i as int),
            None => None,
        }
    }

    fn new(items: Vec<String>, current: Option<usize>) -> (r: Self)
        requires
            current matches Some(i) ==> i < items@.len(),
        ensures
            r.inv(),
            r.items == items,
            r.current == current,
    {
        ListIterator { items, current }
    }

    /// Yield the current entry and step toward the tail.
    pub fn next(&mut self) -> (r: Option<String>)
        requires
            old(self).inv(),
        ensures
            final(self).inv(),
            final(self).item_views() == old(self).item_views(),
            (match old(self).cursor() {
                Some(i) => (r matches Some(s) && s@ == old(self).item_views()[i]) && final(self).cursor() == (if i + 1 < old(self).item_views().len() {
                    Some(i + 1)
                } else {
                    None::<int>
                }),
                None => r.is_none() && final(self).cursor() == None::<int>,
            }),
    {
        match self.current {
            Some(i) => {
                proof {
                    assert(i < self.items@.len());
                }
                let n = self.items.len();
                let s = self.items[i].clone();
                self.current = if i + 1 < n {
                    Some(i + 1)
                } else {
                    None
                };
                Some(s)
            },
            None => None,
        }
    }

    /// Yield the current entry and step toward the head.
    pub fn next_back(&mut self) -> (r: Option<String>)
        requires
            old(self).inv(),
        ensures
            final(self).inv(),
            final(self).item_views() == old(self).item_views(),
            (match old(self).cursor() {
                Some(i) => (r matches Some(s) && s@ == old(self).item_views()[i]) && final(self).cursor() == (if i > 0 {
                    Some(i - 1)
                } else {
                    None::<int>
                }),
                None => r.is_none() && final(self).cursor() == None::<int>,
            }),
    {
        match self.current {
            Some(i) => {
                proof {
                    assert(i < self.items@.len());
                }
                let s = self.items[i].clone();
                self.current = if i > 0 {
                    Some(i - 1)
                } else {
                    None
                };
                Some(s)
            },
            None => None,
        }
    }
}

/// The transaction log extended with iteration in both directions.
#[derive(Clone)]
pub struct BetterTransactionLog {
    pub entries: Vec<String>,
    pub length: u64,
}

impl View for BetterTransactionLog {
    type V = Seq<Seq<char>>;

    closed spec fn view(&self) -> Seq<Seq<char>> {
        self.entries@.map_values(|s: String| s@)
    }
}

impl BetterTransactionLog {
    /// The public counter agrees with the stored entries.
    pub closed spec fn inv(&self) -> bool {
        self.length == self.entries@.len()
    }

    pub fn new_empty() -> (r: Self)
        ensures
            r.inv(),
            r.length == 0,
            r@ == Seq::<Seq<char>>::empty(),
    {
        let r = BetterTransactionLog { entries: Vec::new(), length: 0 };
        proof {
            assert(r@ =~= Seq::<Seq<char>>::empty());
        }
        r
    }

    /// Add a value at the tail of the log.
    pub fn append(&mut self, value: String)
        requires
            old(self).inv(),
            old(self).length < u64::MAX,
        ensures
            final(self).inv(),
            final(self).length == old(self).length + 1,
            final(self)@ == old(self)@.push(value@),
    {
        let ghost before = self.entries@;
        self.entries.push(value);
        self.length = self.length + 1;
        proof {
            assert(self@ =~= before.map_values(|s: String| s@).push(value@));
        }
    }

    /// Take the oldest value off the head of the log, if any.
    pub fn pop(&mut self) -> (r: Option<String>)
        requires
            old(self).inv(),
        ensures
            final(self).inv(),
            old(self)@.len() == 0 ==> r.is_none() && final(self)@ == old(self)@ && final(self).length == old(self).length,
            old(self)@.len() > 0 ==> (r matches Some(s) && s@ == old(self)@[0]) && final(self)@
                == old(self)@.subrange(1, old(self)@.len() as int) && final(self).length == old(self).length - 1,
    {
        if self.entries.len() == 0 {
            None
        } else {
            let ghost before = self.entries@;
            let s = self.entries.remove(0);
            self.length = self.length - 1;
            proof {
                assert(self.entries@ =~= before.subrange(1, before.len() as int));
                assert(self@ =~= before.map_values(|s: String| s@).subrange(
                    1,
                    before.len() as int,
                ));
            }
            Some(s)
        }
    }

    /// A copy of the log's entries, in log order.
    fn snapshot(&self) -> (r: Vec<String>)
        ensures
            r@ == self.entries@,
    {
        let mut items: Vec<String> = Vec::new();
        let mut i: usize = 0;
        while i < self.entries.len()
            invariant
                i <= self.entries@.len(),
                items@.len() == i,
                forall|j: int| 0 <= j < i ==> items@[j] == self.entries@[j],
            decreases self.entries@.len() - i,
        {
            items.push(self.entries[i].clone());
            i = i + 1;
        }
        proof {
            assert(items@ =~= self.entries@);
        }
        items
    }

    /// An iterator set to run backward from the tail.
    pub fn back_iter(self) -> (r: ListIterator)
        ensures
            r.inv(),
            r.item_views() == self@,
            r.cursor() == (if self@.len() > 0 {
                Some(self@.len() - 1)
            } else {
                None::<int>
            }),
    {
        let start = if self.entries.len() > 0 {
            Some(self.entries.len() - 1)
        } else {
            None
        };
        ListIterator::new(self.entries, start)
    }

    /// An iterator set to run forward from the head.
    pub fn iter(&self) -> (r: ListIterator)
        ensures
            r.inv(),
            r.item_views() == self@,
            r.cursor() == (if self@.len() > 0 {
                Some(0int)
            } else {
                None::<int>
            }),
    {
        let items = self.snapshot();
        let start = if items.len() > 0 {
            Some(0usize)
        } else {
            None
        };
        ListIterator::new(items, start)
    }

    /// An iterator set to run forward from the head, consuming the log.
    pub fn into_iter(self) -> (r: ListIterator)
        ensures
            r.inv(),
            r.item_views() == self@,
            r.cursor() == (if self@.len() > 0 {
                Some(0int)
            } else {
                None::<int>
            }),
    {
        let start = if self.entries.len() > 0 {
            Some(0usize)
        } else {
            None
        };
        ListIterator::new(self.entries, start)
    }
}

} // verus!
