pub mod channel;
pub mod context;
pub mod digits;
pub mod dispatch;
pub mod layout;
pub mod levels;
pub mod notices;
pub mod render;
pub mod u32map;
pub mod worker;

pub use context::ContextLevels;
pub use digits::count_digits_base_10;
pub use dispatch::{dispatch, Dispatch};
pub use render::{do_write, do_write_color, do_write_nocolor};
pub use u32map::U32Map;
