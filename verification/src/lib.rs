pub mod error;
pub mod hashing;
pub mod sparse;
pub mod text;
pub mod planner;
pub mod index;
pub mod builder;
pub mod roundtrip;
pub mod overlay;
pub mod filters;
pub mod search;
pub mod candidates;
pub mod selection;
pub mod completeness;
pub mod engine;
pub mod paths;
pub mod hotcache;
pub mod scanning;
pub mod protocol;
pub mod corpus;
pub mod regexcache;
