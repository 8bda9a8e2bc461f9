pub mod clock;
pub mod text;
pub mod markdown;
pub mod editing;
pub mod note;
pub mod app;
pub mod layout;
