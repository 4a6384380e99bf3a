//! A growable array of timestamps over a fixed-size slot buffer.

use vstd::prelude::*;

verus! {

/// Smallest capacity the array starts with.
const MIN_SIZE: usize = 10;

/// A growable array of timestamps backed by a fixed buffer of optional
/// slots; the first `length` slots are filled, the rest are empty.
pub struct TimestampSaver {
    pub buf: Vec<Option<u64>>,
    pub cap: usize,
    pub length: usize,
}

impl View for TimestampSaver {
    type V = Seq<u64>;

    closed spec fn view(&self) -> Seq<u64> {
        Seq::new(self.length as nat, |i: int| self.buf@[i].unwrap())
    }
}

impl TimestampSaver {
    /// The buffer fills its capacity, and every slot below `length`
    /// holds a value.
    pub closed spec fn inv(&self) -> bool {
        &&& self.buf@.len() == self.cap
        &&& self.length <= self.cap
        &&& forall|i: int| 0 <= i < self.length ==> self.buf@[i].is_some()
    }

    pub fn new_empty() -> (r: Self)
        ensures
            r.inv(),
            r.length == 0,
            r@ == Seq::<u64>::empty(),
    {
        let mut buf: Vec<Option<u64>> = Vec::new();
        let mut i: usize = 0;
        while i < MIN_SIZE
            invariant
                i <= MIN_SIZE,
                buf@.len() == i,
            decreases MIN_SIZE - i,
        {
            buf.push(None);
            i = i + 1;
        }
        let r = TimestampSaver { buf, cap: MIN_SIZE, length: 0 };
        proof {
            assert(r@ =~= Seq::<u64>::empty());
        }
        r
    }

    /// Enlarge the buffer to at least `min_cap` slots, by half the old
    /// capacity when that is enough; the stored values stay put.
    fn grow(&mut self, min_cap: usize)
        requires
            old(self).inv(),
        ensures
            final(self).inv(),
            final(self).cap >= min_cap,
            final(self).cap >= old(self).cap,
            final(self).length == old(self).length,
            final(self)@ == old(self)@,
    {
        let old_cap = self.buf.len();
        let half = old_cap >> 1;
        proof {
            assert(half <= old_cap) by (bit_vector)
                requires
                    half == old_cap >> 1,
            ;
        }
        let grown = if old_cap > usize::MAX - half {
            usize::MAX
        } else {
            old_cap + half
        };
        let new_cap = if grown < min_cap {
            min_cap
        } else {
            grown
        };
        let ghost before = self.buf@;
        let mut new_buf: Vec<Option<u64>> = Vec::new();
        let mut i: usize = 0;
        while i < new_cap
            invariant
                i <= new_cap,
                new_buf@.len() == i,
                before == old(self).buf@,
                self.buf@ == before,
                forall|j: int|
                    0 <= j < i ==> new_buf@[j] == (if j < before.len() {
                        before[j]
                    } else {
                        None::<u64>
                    }),
            decreases new_cap - i,
        {
            let slot = if i < self.buf.len() {
                self.buf[i]
            } else {
                None
            };
            new_buf.push(slot);
            i = i + 1;
        }
        self.cap = new_cap;
        self.buf = new_buf;
        proof {
            assert(final(self)@ =~= old(self)@);
        }
    }

    /// Add a value at the end, growing the buffer when it is full.
    pub fn append(&mut self, value: u64)
        requires
            old(self).inv(),
            old(self).length < usize::MAX,
        ensures
            final(self).inv(),
            final(self).length == old(self).length + 1,
            final(self)@ == old(self)@.push(value),
    {
        if self.length == self.cap {
            self.grow(self.length + 1);
        }
        let ghost mid = *self;
        self.buf[self.length] = Some(value);
        self.length = self.length + 1;
        proof {
            assert(final(self)@ =~= mid@.push(value));
        }
    }

    /// The value at `index`, or nothing past the end.
    pub fn at(&mut self, index: usize) -> (r: Option<u64>)
        requires
            old(self).inv(),
        ensures
            *final(self) == *old(self),
            index < old(self).length ==> r == Some(old(self)@[index as int]),
            index >= old(self).length ==> r.is_none(),
    {
        if self.length > index {
            self.buf[index]
        } else {
            None
        }
    }

    /// An iterator over the whole buffer, starting at the first slot.
    pub fn into_iter(self) -> (r: ListIterator)
        ensures
            r.current == 0,
            r.data == self.buf,
    {
        ListIterator::new(0, self.buf)
    }
}

/// A cursor over the raw buffer; an empty slot also ends the run.
pub struct ListIterator {
    pub current: usize,
    pub data: Vec<Option<u64>>,
}

impl ListIterator {
    pub fn new(index: usize, buf: Vec<Option<u64>>) -> (r: Self)
        ensures
            r.current == index,
            r.data == buf,
    {
        ListIterator { current: index, data: buf }
    }

    /// Yield the current slot and step forward.
    pub fn next(&mut self) -> (r: Option<u64>)
        ensures
            final(self).data == old(self).data,
            old(self).current < old(self).data@.len() ==> r == old(self).data@[old(self).current as int] && final(self).current == old(self).current + 1,
            old(self).current >= old(self).data@.len() ==> r.is_none() && final(self).current
                == old(self).current,
    {
        if self.current < self.data.len() {
            let item = self.data[self.current];
            self.current = self.current + 1;
            item
        } else {
            None
        }
    }

    /// Yield the current slot and step backward, wrapping from the
    /// first slot to the last.
    pub fn next_back(&mut self) -> (r: Option<u64>)
        ensures
            final(self).data == old(self).data,
            old(self).current < old(self).data@.len() ==> r == old(self).data@[old(self).current as int] && final(self).current == (if old(self).current == 0 {
                (old(self).data@.len() - 1) as usize
            } else {
                (old(self).current - 1) as usize
            }),
            old(self).current >= old(self).data@.len() ==> r.is_none() && final(self).current
                == old(self).current,
    {
        if self.current < self.data.len() {
            let item = self.data[self.current];
            if self.current == 0 {
                self.current = self.data.len() - 1;
            } else {
                self.current = self.current - 1;
            }
            item
        } else {
            None
        }
    }
}

} // verus!
