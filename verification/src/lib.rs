//! A terminal user interface for git: the logic under it. The text of git's
//! answers goes in, and the rows, the patches and the commands to run come
//! out. The program around it reads the repository and draws the screen.
pub mod app;
pub mod event;
pub mod git;
pub mod keys;
pub mod text;
pub mod ui;
pub mod sort;
pub mod tree;
