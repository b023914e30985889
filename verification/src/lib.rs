//! Fine-grained work distribution: balanced splitting of index ranges,
//! a segmented flat-index view over disjoint ranges, reconstruction of
//! trailing sub-ranges of an exact size, and the cursor-stealing step a
//! pool of workers uses to rebalance unfinished work.

pub mod get_remain;
pub mod get_remain_range;
pub mod message;
pub mod split_task;
pub mod steal_task;
pub mod task;
pub mod task_list;
pub mod total;
pub mod worker;

pub use get_remain::GetRemain;
pub use get_remain_range::GetRemainRange;
pub use message::Message;
pub use split_task::SplitTask;
pub use steal_task::StealTask;
pub use task::Task;
pub use task::TaskGroup;
pub use task::Tasks;
pub use task_list::TaskList;
pub use total::Total;
pub use worker::Worker;
