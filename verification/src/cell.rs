//! The write-once cell that holds a store's configuration.
//!
//! The cell is `once_cell::sync::OnceCell`. Nothing here is proved: each
//! contract says what the cell's documentation promises.

use vstd::prelude::*;
use once_cell::sync::OnceCell;
use crate::config::Config;
use crate::config::ConfigView;

verus! {

/// `once_cell::sync::OnceCell`, carried as it is: nothing inside it is seen
/// by the proofs.
#[verifier::external_type_specification]
#[verifier::external_body]
#[verifier::reject_recursive_types(T)]
pub struct ExOnceCell<T>(once_cell::sync::OnceCell<T>);

/// What the cell holds: the configuration it was set to, or nothing.
pub uninterp spec fn cell_contents(cell: once_cell::sync::OnceCell<Config>) -> Option<ConfigView>;

/// `OnceCell::new`: a cell that holds nothing.
#[verifier::external_body]
pub(crate) fn cell_new() -> (cell: OnceCell<Config>)
    ensures
        cell_contents(cell) is None,
{
    OnceCell::new()
}

/// `OnceCell::get`: a reference to what the cell holds, `None` for an empty cell.
#[verifier::external_body]
pub(crate) fn cell_get(cell: &OnceCell<Config>) -> (held: Option<&Config>)
    ensures
        match held {
            Some(config) => cell_contents(*cell) == Some(config@),
            None => cell_contents(*cell) is None,
        },
{
    cell.get()
}

/// `OnceCell::set`: an empty cell takes the value and answers `Ok`; a full
/// cell keeps what it holds and hands the value back in `Err`.
#[verifier::external_body]
pub(crate) fn cell_set(cell: &mut OnceCell<Config>, value: Config) -> (outcome: Result<(), Config>)
    ensures
        match outcome {
            Ok(_) => cell_contents(*old(cell)) is None && cell_contents(*final(cell)) == Some(
                value@,
            ),
            Err(back) => cell_contents(*old(cell)) is Some && back@ == value@ && cell_contents(
                *final(cell),
            ) == cell_contents(*old(cell)),
        },
{
    cell.set(value)
}

} // verus!
