pub mod codec;
pub mod matcher;
pub mod pump;
pub mod select;
