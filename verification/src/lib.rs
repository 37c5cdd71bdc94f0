//! A sudoers-style authorization policy evaluator.
//!
//! Policy lines are parsed into rule values under strict token-acceptance,
//! length and escaping rules, and a request (invoking user, target user,
//! target group, host, command line) is decided against them with
//! last-applicable-entry-wins semantics.

pub mod ast;
pub mod eval;
pub mod laws;
pub mod parse;
pub mod tokens;

pub use eval::UserInfo;
pub use eval::check_permission;
pub use eval::exact;
pub use eval::find_item;
pub use eval::in_group;
pub use eval::match_token;
pub use eval::match_user;
pub use parse::parse_line;
pub use ast::CmdSpec;
pub use ast::Clause;
pub use ast::Qualified;
pub use ast::Rule;
pub use ast::RunAs;
pub use ast::Tag;
pub use tokens::Username;
pub use tokens::Decimal;
pub use tokens::Hostname;
pub use tokens::UserSpecifier;
pub use tokens::All;
pub use tokens::Upper;
pub use tokens::Command;
