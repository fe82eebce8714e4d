pub mod character_offsets;
pub mod highlighting_laws;
pub mod name_laws;
pub mod print_styles;
pub mod syntax_highlighting;
