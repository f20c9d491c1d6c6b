//! Write-once cells.
//!
//! The cells are `once_cell::race::OnceBox`. Each kind of cell used here has a
//! name for what it holds, an empty sequence before the first write and a
//! sequence of the one written value after it. The library only ever writes to
//! a cell that it borrows mutably.
use once_cell::race::OnceBox;
use vstd::prelude::*;

verus! {

/// `once_cell::race::OnceBox`, an opaque write-once cell.
#[verifier::external_type_specification]
#[verifier::external_body]
#[verifier::reject_recursive_types(T)]
pub struct ExOnceBox<T>(OnceBox<T>);

/// What a cell for a mask holds.
pub uninterp spec fn mask_cell_contents(cell: OnceBox<Vec<bool>>) -> Seq<Seq<bool>>;

/// `OnceBox::new`: the cell starts out empty.
#[verifier::external_body]
pub(crate) fn mask_cell_new() -> (r: OnceBox<Vec<bool>>)
    ensures
        mask_cell_contents(r) == Seq::<Seq<bool>>::empty(),
{
    OnceBox::new()
}

/// `OnceBox::get`: a reference to the written value, or `None` while the cell
/// is empty.
#[verifier::external_body]
pub(crate) fn mask_cell_get(cell: &OnceBox<Vec<bool>>) -> (r: Option<&Vec<bool>>)
    ensures
        match r {
            Some(mask) => mask_cell_contents(*cell) == seq![mask@],
            None => mask_cell_contents(*cell) == Seq::<Seq<bool>>::empty(),
        },
{
    cell.get()
}

/// `OnceBox::set`: writes an empty cell and leaves a written one as it is;
/// the result tells which of the two happened.
#[verifier::external_body]
pub(crate) fn mask_cell_set(cell: &mut OnceBox<Vec<bool>>, mask: Vec<bool>) -> (r: bool)
    ensures
        r == (mask_cell_contents(*old(cell)).len() == 0),
        mask_cell_contents(*final(cell)) == if mask_cell_contents(*old(cell)).len() == 0 {
            seq![mask@]
        } else {
            mask_cell_contents(*old(cell))
        },
{
    cell.set(Box::new(mask)).is_ok()
}

/// What a cell for category weights holds.
pub uninterp spec fn weights_cell_contents(cell: OnceBox<[u64; 20]>) -> Seq<Seq<u64>>;

/// `OnceBox::new`: the cell starts out empty.
#[verifier::external_body]
fn weights_cell_new() -> (r: OnceBox<[u64; 20]>)
    ensures
        weights_cell_contents(r) == Seq::<Seq<u64>>::empty(),
{
    OnceBox::new()
}

/// `OnceBox::get`: a copy of the written value, or `None` while the cell is
/// empty.
#[verifier::external_body]
fn weights_cell_get(cell: &OnceBox<[u64; 20]>) -> (r: Option<[u64; 20]>)
    ensures
        match r {
            Some(weights) => weights_cell_contents(*cell) == seq![weights@],
            None => weights_cell_contents(*cell) == Seq::<Seq<u64>>::empty(),
        },
{
    cell.get().copied()
}

/// `OnceBox::set`: writes an empty cell and leaves a written one as it is;
/// the result tells which of the two happened.
#[verifier::external_body]
fn weights_cell_set(
    cell: &mut OnceBox<[u64; 20]>,
    weights: [u64; 20],
) -> (r: bool)
    ensures
        r == (weights_cell_contents(*old(cell)).len() == 0),
        weights_cell_contents(*final(cell)) == if weights_cell_contents(*old(cell)).len() == 0 {
            seq![weights@]
        } else {
            weights_cell_contents(*old(cell))
        },
{
    cell.set(Box::new(weights)).is_ok()
}

/// Category weights that are written at most once, by whoever has the cell to
/// itself.
pub struct WeightsCell {
    cell: OnceBox<[u64; 20]>,
}

impl View for WeightsCell {
    type V = Seq<Seq<u64>>;

    closed spec fn view(&self) -> Seq<Seq<u64>> {
        weights_cell_contents(self.cell)
    }
}

impl WeightsCell {
    /// An empty cell.
    pub fn new() -> (r: Self)
        ensures
            r@ == Seq::<Seq<u64>>::empty(),
    {
        WeightsCell { cell: weights_cell_new() }
    }

    /// The weights, once they are written.
    pub fn get(&self) -> (r: Option<[u64; 20]>)
        ensures
            match r {
                Some(weights) => self@ == seq![weights@],
                None => self@ == Seq::<Seq<u64>>::empty(),
            },
    {
        weights_cell_get(&self.cell)
    }

    /// Writes an empty cell and leaves a written one as it is. The answer is
    /// whether it was empty.
    pub fn set(&mut self, weights: [u64; 20]) -> (r: bool)
        ensures
            r == (old(self)@.len() == 0),
            final(self)@ == if old(self)@.len() == 0 {
                seq![weights@]
            } else {
                old(self)@
            },
    {
        weights_cell_set(&mut self.cell, weights)
    }
}

} // verus!
