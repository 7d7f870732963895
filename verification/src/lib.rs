pub mod builtin;
pub mod cmd;
pub mod cmds;
pub mod complete;
pub mod editor;
pub mod history;
pub mod solution;
pub mod text;
