//! Typed semantic code graph: the graph model, its deterministic analytics,
//! enrichment overlays, health detectors, knowledge-index queries, community
//! detection, per-artifact fragments, and the builder state that assembles it.

pub mod text;
pub mod model;
pub mod sorting;
pub mod strmap;
pub mod encoding;
pub mod fragment;
pub mod index;
pub mod enrichment;
pub mod health;
pub mod communities;
pub mod leiden;
pub mod analytics;
pub mod builder;
pub mod decisions;
pub mod clone_tokens;
pub mod imports;
pub mod dispatch;
pub mod definitions;
pub mod infra;
pub mod clones;
pub mod manifests;
pub mod markdown;
pub mod candidates;
