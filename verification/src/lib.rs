pub mod app;
pub mod cleanup;
pub mod clock;
pub mod finder;
pub mod flywheel;
pub mod paths;
pub mod scanner;
pub mod sorting;
pub mod state;
pub mod text;
pub mod treemap;
pub mod ui;
