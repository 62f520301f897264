use vstd::prelude::*;

use super::TreeError;

verus! {

/// Cells allocated one after the other and never freed; an [`ArenaIndex`] names one.
pub struct Arena<T> {
    cells: Vec<T>,
    live_count: usize,
}

/// The position of a cell in an [`Arena`].
#[derive(Clone, Copy, Debug, PartialEq, Eq, Structural)]
pub struct ArenaIndex(pub usize);

impl<T> View for Arena<T> {
    type V = Seq<T>;

    closed spec fn view(&self) -> Seq<T> {
        self.cells@
    }
}

impl<T> Arena<T> {
    /// The count of live cells is the number of cells allocated.
    pub closed spec fn wf(&self) -> bool {
        self.live_count == self.cells@.len()
    }

    pub fn new() -> (r: Arena<T>)
        ensures
            r.wf(),
            r@ == Seq::<T>::empty(),
    {
        Arena { cells: Vec::new(), live_count: 0 }
    }

    pub fn live_count(&self) -> (r: usize)
        requires
            self.wf(),
        ensures
            r == self@.len(),
    {
        self.live_count
    }

    /// Stores `value` in a new cell and returns its index.
    pub fn allocate(&mut self, value: T) -> (r: ArenaIndex)
        requires
            old(self).wf(),
            old(self)@.len() < usize::MAX,
        ensures
            final(self).wf(),
            final(self)@ == old(self)@.push(value),
            r.0 == old(self)@.len(),
    {
        let result = self.cells.len();
        self.cells.push(value);
        self.live_count = self.live_count + 1;
        ArenaIndex(result)
    }

    /// The value in the cell `index`.
    pub fn value(&self, index: ArenaIndex) -> (r: Result<&T, TreeError>)
        ensures
            index.0 < self@.len() ==> r == Ok::<&T, TreeError>(&self@[index.0 as int]),
            index.0 >= self@.len() ==> r == Err::<&T, TreeError>(TreeError::IndexOutOfRange(index.0)),
    {
        if index.0 < self.cells.len() {
            Ok(&self.cells[index.0])
        } else {
            Err(TreeError::IndexOutOfRange(index.0))
        }
    }

    /// The cell `index`, to be changed in place.
    pub fn value_mut(&mut self, index: ArenaIndex) -> (r: Result<&mut T, TreeError>)
        requires
            old(self).wf(),
        ensures
            final(self).wf(),
            index.0 < old(self)@.len() <==> r is Ok,
            index.0 >= old(self)@.len() ==> r == Err::<&mut T, TreeError>(TreeError::IndexOutOfRange(index.0)) && final(self)@ == old(self)@,
            r matches Ok(v) ==> *v == old(self)@[index.0 as int] && final(self)@ == old(self)@.update(index.0 as int, *final(v)),
    {
        if index.0 < self.cells.len() {
            Ok(&mut self.cells[index.0])
        } else {
            Err(TreeError::IndexOutOfRange(index.0))
        }
    }
}

} // verus!
