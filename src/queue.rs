use vstd::prelude::*;

verus! {

/// A read cursor over a borrowed slice.
pub struct Queue<'a, T> {
    pub data: &'a [T],
    pub cursor: usize,
}

impl<'a, T> Queue<'a, T> {
    pub fn new(data: &'a [T]) -> (r: Queue<'a, T>)
        ensures
            r.data@ == data@,
            r.cursor == 0,
    {
        Queue { data, cursor: 0 }
    }

    pub fn len(&self) -> (r: usize)
        ensures
            r == self.data@.len(),
    {
        self.data.len()
    }

    pub fn empty(&self) -> (r: bool)
        ensures
            r == (self.cursor >= self.data@.len()),
    {
        self.cursor >= self.data.len()
    }

    pub fn head(&self) -> (r: &'a T)
        requires
            self.cursor < self.data@.len(),
        ensures
            *r == self.data@[self.cursor as int],
    {
        &self.data[self.cursor]
    }

    pub fn back(&self, back: usize) -> (r: &'a T)
        requires
            back <= self.cursor,
            self.cursor - back < self.data@.len(),
        ensures
            *r == self.data@[self.cursor - back],
    {
        &self.data[self.cursor - back]
    }

    pub fn peak(&self) -> (r: Option<&'a T>)
        ensures
            self.cursor < self.data@.len() ==> r == Some(&self.data@[self.cursor as int]),
            self.cursor >= self.data@.len() ==> r is None,
    {
        if self.cursor < self.data.len() {
            Some(&self.data[self.cursor])
        } else {
            None
        }
    }

    pub fn pop(&mut self) -> (r: Option<&'a T>)
        ensures
            final(self).data == old(self).data,
            old(self).cursor < old(self).data@.len() ==> {
                &&& r == Some(&old(self).data@[old(self).cursor as int])
                &&& final(self).cursor == old(self).cursor + 1
            },
            old(self).cursor >= old(self).data@.len() ==> {
                &&& r is None
                &&& final(self).cursor == old(self).cursor
            },
    {
        if self.cursor < self.data.len() {
            let t = &self.data[self.cursor];
            self.cursor = self.cursor + 1;
            Some(t)
        } else {
            None
        }
    }
    /// Takes items while `f` accepts them and returns the slice taken: every
    /// item taken was accepted, and the item that stopped the run (if any) was
    /// refused.
    pub fn pop_while(&mut self, f: impl Fn(&T) -> bool) -> (r: &'a [T])
        requires
            forall|t: &T| #[trigger] f.requires((t,)),
            old(self).cursor <= old(self).data@.len(),
        ensures
            final(self).data == old(self).data,
            old(self).cursor <= final(self).cursor <= old(self).data@.len(),
            r@ == old(self).data@.subrange(old(self).cursor as int, final(self).cursor as int),
            forall|i: int|
                old(self).cursor <= i < final(self).cursor ==> f.ensures(
                    (&#[trigger] old(self).data@[i],),
                    true,
                ),
            final(self).cursor < old(self).data@.len() ==> f.ensures(
                (&old(self).data@[final(self).cursor as int],),
                false,
            ),
    {
        let start = self.cursor;
        while self.cursor < self.data.len() && f(&self.data[self.cursor])
            invariant
                forall|t: &T| #[trigger] f.requires((t,)),
                self.data == old(self).data,
                start == old(self).cursor,
                start <= self.cursor <= self.data@.len(),
                forall|i: int| start <= i < self.cursor ==> f.ensures((&#[trigger] self.data@[i],), true),
            decreases self.data@.len() - self.cursor,
        {
            self.cursor = self.cursor + 1;
        }
        &self.data[start..self.cursor]
    }
}

} // verus!
