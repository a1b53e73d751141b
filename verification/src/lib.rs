pub mod input_checker;
pub mod simple_regex;
pub mod util;
