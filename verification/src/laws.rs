//! What the operations promise, stated of calls: what came out of a call, or how the
//! results of several calls relate.

pub mod addresses;
pub mod answers;
pub mod launch;
pub mod lifetime;
pub mod order;
pub mod output;
pub mod settings;
pub mod shown;
pub mod texts;
pub mod trace;
