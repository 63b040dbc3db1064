//! A singly linked list built from boxed nodes, viewed as the sequence of
//! its values front to back. Popping and pushing move the whole list by
//! value; reading walks it by reference.

use vstd::prelude::*;

verus! {

pub struct Item<T> {
    value: T,
    rest: Box<MyType<T>>,
}

pub struct MyType<T> {
    data: Option<Item<T>>,
}

impl<T> MyType<T> {
    /// The values of the list, head first.
    pub closed spec fn seq(&self) -> Seq<T>
        decreases self,
    {
        match self.data {
            Some(item) => seq![item.value] + item.rest.seq(),
            None => Seq::empty(),
        }
    }

    /// An empty list.
    pub fn empty() -> (r: Self)
        ensures
            r.seq() == Seq::<T>::empty(),
    {
        MyType { data: None }
    }

    /// The number of values, counted by walking the nodes. The count must
    /// fit the machine's word, as it does for any list that fits memory.
    pub fn len(&self) -> (n: usize)
        requires
            self.seq().len() <= usize::MAX,
        ensures
            n == self.seq().len(),
    {
        let mut count: usize = 0;
        let mut node = self;
        loop
            invariant
                count + node.seq().len() == self.seq().len(),
                count <= self.seq().len(),
                self.seq().len() <= usize::MAX,
            ensures
                count == self.seq().len(),
            decreases node.seq().len(),
        {
            match &node.data {
                Some(data) => {
                    node = &data.rest;
                },
                None => {
                    break ;
                },
            };
            count += 1;
        }
        count
    }

    /// The first value, if any.
    pub fn head(&self) -> (r: Option<&T>)
        ensures
            match r {
                Some(v) => self.seq().len() > 0 && *v == self.seq()[0],
                None => self.seq().len() == 0,
            },
    {
        match &self.data {
            Some(item) => Some(&item.value),
            None => None,
        }
    }

    /// The first value and the rest of the list; an empty list hands
    /// itself back unchanged.
    pub fn pop(self) -> (r: (Option<T>, Self))
        ensures
            match r.0 {
                Some(v) => self.seq().len() > 0 && v == self.seq()[0] && r.1.seq()
                    == self.seq().drop_first(),
                None => self.seq().len() == 0 && r.1.seq() == self.seq(),
            },
    {
        match self.data {
            Some(item) => {
                proof {
                    assert((seq![item.value] + item.rest.seq()).drop_first() =~= item.rest.seq());
                }
                (Some(item.value), *item.rest)
            },
            None => (None, self),
        }
    }

    /// The list with one more value in front.
    pub fn push(self, elem: T) -> (r: Self)
        ensures
            r.seq() == seq![elem] + self.seq(),
    {
        MyType { data: Some(Item { value: elem, rest: Box::new(self) }) }
    }

    /// The value at an index, if the list is that long.
    pub fn get(&self, index: usize) -> (r: Option<&T>)
        ensures
            match r {
                Some(v) => index < self.seq().len() && *v == self.seq()[index as int],
                None => index >= self.seq().len(),
            },
    {
        let mut node = self;
        let mut i: usize = 0;
        while i < index
            invariant
                i <= index,
                node.seq() == self.seq().skip(i as int),
                i <= self.seq().len(),
            decreases index - i,
        {
            match &node.data {
                Some(item) => {
                    proof {
                        assert(node.seq().drop_first() =~= item.rest.seq());
                        assert(self.seq().skip(i as int).drop_first() =~= self.seq().skip(i + 1));
                    }
                    node = &item.rest;
                },
                None => {
                    return None;
                },
            };
            i += 1;
        }
        match &node.data {
            Some(item) => {
                proof {
                    assert(node.seq()[0] == item.value);
                    assert(self.seq().skip(index as int)[0] == self.seq()[index as int]);
                }
                Some(&item.value)
            },
            None => None,
        }
    }
}

} // verus!
