//! The interactive shell: command line parsing, expansion and execution order.
pub mod builtins;
pub mod cwd;
pub mod exec;
pub mod glob;
pub mod info;
pub mod jobs;
pub mod laws_commands;
pub mod laws_jobs;
pub mod laws_keys;
pub mod laws_lines;
pub mod laws_paths;
pub mod laws_pipes;
pub mod laws_script;
pub mod laws_words;
pub mod line;
pub mod load;
pub mod parser;
pub mod pipeline;
pub mod redirect;
pub mod run;
pub mod show;
