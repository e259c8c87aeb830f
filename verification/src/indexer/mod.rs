pub mod code_parser;
pub mod declarations;
pub mod normalize;
pub mod syntax;
pub mod text;
