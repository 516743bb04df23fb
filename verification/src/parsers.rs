pub mod markdown;
pub mod metadata;
