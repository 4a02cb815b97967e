//! The rules of a small search engine: crawling, scoring and serving.

pub mod batch;
pub mod dates;
pub mod document;
pub mod frontier;
pub mod html;
pub mod language;
pub mod links;
pub mod numbers;
pub mod page;
pub mod quality;
pub mod rank;
pub mod records;
pub mod search;
pub mod seeds;
pub mod suggest;
pub mod text;
pub mod urls;
