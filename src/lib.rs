pub mod dom;
pub mod parser;
pub mod parser_css;
pub mod lemmas;
