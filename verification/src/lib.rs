pub mod text;
pub mod time;
pub mod age;
pub mod path;
pub mod sort;
pub mod ignore;
pub mod scanner;
pub mod display;
pub mod fuzzy;
pub mod cache;
pub mod report;
pub mod profiles;
pub mod tui;
