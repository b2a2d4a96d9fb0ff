pub mod text;
pub mod table_nav;
pub mod settings;
pub mod editor;
pub mod table_guides;
pub mod code_execution;
pub mod git_graph;
pub mod video;
pub mod flowchart;
pub mod session;
pub mod tabs;
pub mod shortcuts;
