//! What the library promises, stated from the outside: what a result must be
//! like for the input at hand, in terms of the characters, numbers and places
//! involved.

pub mod batches;
pub mod discovery;
pub mod exchange;
pub mod forms;
pub mod layout;
pub mod lines;
pub mod patching;
pub mod planning;
pub mod reading;
pub mod registries;
pub mod reporting;
pub mod requirements;
pub mod selection;
pub mod text_forms;
pub mod writing;
