pub mod consolidate;
pub mod json;
pub mod key;
pub mod outside;
pub mod select;
pub mod selector;
pub mod statement;
pub mod traits;
