pub mod data;
pub mod error;
pub mod options;
pub mod fio;
pub mod sys;
pub mod naming;
pub mod segment;
pub mod index;
pub mod db;
pub mod recovery;
pub mod reopen;
