//! The core of a small interactive shell: splitting a command line into
//! words with shell quoting rules, looking commands up along the search
//! path, the builtin command names, and logical working-directory
//! arithmetic for `cd`.
pub mod builtins;
pub mod paths;
pub mod search;
pub mod text;
pub mod tokenizer;
