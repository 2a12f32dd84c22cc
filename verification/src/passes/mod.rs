pub mod util;
pub mod global_removal;
pub mod typedef;
pub mod include_pass;
pub mod header_removal;
pub mod enum_struct_removal;
pub mod struct_member_removal;
pub mod dead_function;
pub mod dead_code;
pub mod clangd;
pub mod argument_removal;
pub mod statement_merge;
pub mod statement;
pub mod expression;
pub mod unused_variable;
