//! An ordered, owned collection of drawable objects. Insertion order is paint
//! order: later objects are painted over earlier ones.
use vstd::prelude::*;

verus! {

/// An ordered collection; its view is the items in insertion order.
#[derive(Clone, Debug)]
pub struct GraphicObjects<T> {
    items: Vec<T>,
}

impl<T> View for GraphicObjects<T> {
    type V = Seq<T>;

    closed spec fn view(&self) -> Seq<T> {
        self.items@
    }
}

impl<T> GraphicObjects<T> {
    /// A collection holding `items`, in their order.
    pub fn new(items: Vec<T>) -> (r: GraphicObjects<T>)
        ensures
            r@ == items@,
    {
        GraphicObjects { items }
    }

    /// An empty collection.
    pub fn empty() -> (r: GraphicObjects<T>)
        ensures
            r@ == Seq::<T>::empty(),
    {
        GraphicObjects { items: Vec::new() }
    }

    pub fn len(&self) -> (r: usize)
        ensures
            r == self@.len(),
    {
        self.items.len()
    }

    pub fn is_empty(&self) -> (r: bool)
        ensures
            r <==> self@.len() == 0,
    {
        self.items.len() == 0
    }

    /// The item at position `i` in insertion order.
    pub fn get(&self, i: usize) -> (r: &T)
        requires
            i < self@.len(),
        ensures
            *r == self@[i as int],
    {
        &self.items[i]
    }

    /// Appends `element` after every item already held.
    pub fn push(&mut self, element: T)
        ensures
            final(self)@ == old(self)@.push(element),
    {
        self.items.push(element);
    }

    /// Appends every item of `other`, in its order.
    pub fn extend(&mut self, other: GraphicObjects<T>)
        ensures
            final(self)@ == old(self)@ + other@,
    {
        let mut o = other.items;
        self.items.append(&mut o);
    }

    /// Takes out the item inserted last, if any; draining a collection this
    /// way yields its items in reverse insertion order.
    pub fn pop(&mut self) -> (r: Option<T>)
        ensures
            old(self)@.len() == 0 ==> r is None && final(self)@ == old(self)@,
            old(self)@.len() > 0 ==> r == Some(old(self)@.last()) && final(self)@ == old(
                self,
            )@.drop_last(),
    {
        self.items.pop()
    }

    /// The items in the order in which consuming the collection yields them:
    /// the last inserted first.
    pub fn into_reversed(self) -> (r: Vec<T>)
        ensures
            r@ == self@.reverse(),
    {
        let mut items = self.items;
        let ghost orig = items@;
        let mut out: Vec<T> = Vec::new();
        while items.len() > 0
            invariant
                items@ == orig.take(items@.len() as int),
                items@.len() <= orig.len(),
                out@ == orig.skip(items@.len() as int).reverse(),
            decreases items@.len(),
        {
            let ghost before = out@;
            let ghost n = items@.len();
            let x = items.pop().unwrap();
            out.push(x);
            proof {
                assert(items@ =~= orig.take(n - 1));
                assert(orig.skip(n - 1).reverse() =~= orig.skip(n as int).reverse().push(orig[n - 1]));
            }
        }
        proof {
            assert(orig.skip(0) =~= orig);
        }
        out
    }

    /// A new collection holding `f` of each item, in the same order; `self`
    /// is left as it was.
    pub fn map<U, F: Fn(&T) -> U>(&self, f: F) -> (r: GraphicObjects<U>)
        requires
            forall|i: int| 0 <= i < self@.len() ==> f.requires((&self@[i],)),
        ensures
            r@.len() == self@.len(),
            forall|i: int| 0 <= i < self@.len() ==> f.ensures((&self@[i],), #[trigger] r@[i]),
    {
        let mut out: Vec<U> = Vec::new();
        let mut i: usize = 0;
        while i < self.items.len()
            invariant
                i <= self@.len(),
                out@.len() == i,
                forall|j: int| 0 <= j < self@.len() ==> f.requires((&self@[j],)),
                forall|j: int| 0 <= j < i ==> f.ensures((&self@[j],), #[trigger] out@[j]),
            decreases self@.len() - i,
        {
            let y = f(&self.items[i]);
            out.push(y);
            i = i + 1;
        }
        GraphicObjects { items: out }
    }

    /// The items in insertion order.
    pub fn into_vec(self) -> (r: Vec<T>)
        ensures
            r@ == self@,
    {
        self.items
    }
}

} // verus!
