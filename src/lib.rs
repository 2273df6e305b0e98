//! Model layer of a desktop text editor: a project navigation tree kept as a
//! flat, indent-encoded sequence, a registry of open tabs, and the command
//! reducer that ties both together and derives window titles.
pub mod names;
pub mod node;
pub mod tree;
pub mod tabs;
pub mod shell;
