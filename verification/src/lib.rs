//! Bill splitting: who paid what for whom, and who owes whom in the end.
pub mod text;
pub mod who;
pub mod error;
pub mod bill;
pub mod amount;
pub mod calc;
pub mod display;
pub mod sheet;
pub mod edit;
pub mod complete;
pub mod io_error;
pub mod readback;
pub mod add_args;
