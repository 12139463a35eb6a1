//! Verified core of an APK/DEX inspection and class-mapping toolkit.

pub mod apk;
pub mod audit;
pub mod candidates;
pub mod chars;
pub mod chunks;
pub mod cli;
pub mod dex;
pub mod error;
pub mod fingerprint;
pub mod input;
pub mod labels;
pub mod mapping;
pub mod markup;
pub mod members;
pub mod memory;
pub mod inspect;
pub mod model;
pub mod order;
pub mod patterns;
pub mod pipeline;
pub mod progress;
pub mod proguard;
pub mod remap;
pub mod sets;
pub mod sorting;
pub mod summary;
pub mod table;
pub mod anchors;
