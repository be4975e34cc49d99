pub mod date_time;
pub mod string_helper;
