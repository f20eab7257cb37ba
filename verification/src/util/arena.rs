use vstd::prelude::*;
use std::marker::PhantomData;

verus! {

/// The place of an item in the arena that holds items of its kind.
pub struct ID<T> {
    pub index: usize,
    pub _phantom: PhantomData<T>,
}

impl<T> ID<T> {
    fn new(index: usize) -> (r: Self)
        ensures
            r.index == index,
    {
        Self { index, _phantom: PhantomData }
    }
}

impl<T> Clone for ID<T> {
    fn clone(&self) -> (r: Self)
        ensures
            r.index == self.index,
    {
        ID { index: self.index, _phantom: PhantomData }
    }
}

impl<T> Copy for ID<T> {

}

impl<T> PartialEq for ID<T> {
    fn eq(&self, other: &Self) -> (r: bool) {
        self.index == other.index
    }
}

impl<T> vstd::std_specs::cmp::PartialEqSpecImpl for ID<T> {
    open spec fn obeys_eq_spec() -> bool {
        true
    }

    open spec fn eq_spec(&self, other: &Self) -> bool {
        self.index == other.index
    }
}

impl<T> Eq for ID<T> {

}

/// Items of one kind, each at a place that stays its own.
pub struct Arena<T> {
    pub items: Vec<T>,
}

impl<T> View for Arena<T> {
    type V = Seq<T>;

    open spec fn view(&self) -> Seq<T> {
        self.items@
    }
}

impl<T> Arena<T> {
    pub fn new() -> (r: Self)
        ensures
            r@ == Seq::<T>::empty(),
    {
        Self { items: Vec::new() }
    }

    pub fn len(&self) -> (n: usize)
        ensures
            n == self@.len(),
    {
        self.items.len()
    }

    /// Adds an item and gives its place.
    pub fn push(&mut self, item: T) -> (id: ID<T>)
        ensures
            id.index == old(self)@.len(),
            final(self)@ == old(self)@.push(item),
    {
        let id = ID::new(self.len());
        self.items.push(item);
        id
    }

    /// The place that the next item will stand at.
    pub fn next_id(&self) -> (id: ID<T>)
        ensures
            id.index == self@.len(),
    {
        ID::new(self.len())
    }

    pub fn get(&self, id: ID<T>) -> (r: Option<&T>)
        ensures
            match r {
                Some(item) => id.index < self@.len() && *item == self@[id.index as int],
                None => id.index >= self@.len(),
            },
    {
        if id.index < self.items.len() {
            Some(&self.items[id.index])
        } else {
            None
        }
    }

    pub fn get_mut(&mut self, id: ID<T>) -> (r: Option<&mut T>)
        ensures
            match r {
                Some(item) => {
                    &&& id.index < old(self)@.len()
                    &&& *item == old(self)@[id.index as int]
                    &&& final(self)@ == old(self)@.update(id.index as int, *final(item))
                },
                None => id.index >= old(self)@.len() && final(self)@ == old(self)@,
            },
    {
        if id.index < self.items.len() {
            Some(&mut self.items[id.index])
        } else {
            None
        }
    }

    /// The items in the order of their places.
    pub fn iter(&self) -> (r: &[T])
        ensures
            r@ == self@,
    {
        self.items.as_slice()
    }

    /// The items in the order of their places, to be changed in place.
    pub fn iter_mut(&mut self) -> (r: &mut [T])
        ensures
            r@ == old(self)@,
            final(self)@ == final(r)@,
    {
        self.items.as_mut_slice()
    }

    /// The place of the first item that `f` holds of.
    pub fn find<F>(&self, f: F) -> (r: Option<ID<T>>) where F: Fn(&T) -> bool
        requires
            forall|k: int| 0 <= k < self@.len() ==> call_requires(f, (&#[trigger] self@[k],)),
        ensures
            match r {
                Some(id) => {
                    &&& id.index < self@.len()
                    &&& call_ensures(f, (&self@[id.index as int],), true)
                    &&& forall|k: int|
                        0 <= k < id.index ==> call_ensures(f, (&#[trigger] self@[k],), false)
                },
                None => forall|k: int|
                    0 <= k < self@.len() ==> call_ensures(f, (&#[trigger] self@[k],), false),
            },
    {
        let mut i: usize = 0;
        while i < self.items.len()
            invariant
                i <= self.items.len(),
                forall|k: int| 0 <= k < self@.len() ==> call_requires(f, (&#[trigger] self@[k],)),
                forall|k: int| 0 <= k < i ==> call_ensures(f, (&#[trigger] self@[k],), false),
            decreases self.items.len() - i,
        {
            let item = &self.items[i];
            assert(*item == self@[i as int]);
            assert(call_requires(f, (&self@[i as int],)));
            if f(item) {
                return Some(ID::new(i));
            }
            i += 1;
        }
        None
    }
}

} // verus!
