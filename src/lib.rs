pub mod decimal;
pub mod history;
pub mod pipeline;
pub mod presenter;
