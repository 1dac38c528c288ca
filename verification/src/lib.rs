pub mod codec;
pub mod store;
pub mod task;

pub use codec::ParseError;
pub use store::{add_task, append_task, get_data_path, load_tasks, run_add, save_tasks};
pub use task::Task;
