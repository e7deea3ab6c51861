//! A diary backend core: entries, tags, and their many-to-many links,
//! with find-or-create tag resolution, atomic entry-plus-tags creation,
//! and paginated, ordered read paths.

pub mod clock;
pub mod diary_repository;
pub mod diary_service;
pub mod models;
pub mod order;
pub mod pagination;
pub mod store;
pub mod tag_repository;
pub mod tag_service;
pub mod text;
