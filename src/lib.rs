//! A persistent list of text items, each identified by a fingerprint of its
//! text, kept as a flat line-oriented file.
pub mod codec;
pub mod fingerprint;
pub mod listfile;
pub mod store;
pub mod task;
pub mod text;

pub use codec::{encode_line, task_from_taskline};
pub use fingerprint::generate_id;
pub use listfile::{parse_list, render_list};
pub use store::TaskList;
pub use task::Task;
