//! Verified core of a local network traffic monitor: packet metadata parsing,
//! direction inference, bidirectional flow aggregation, dashboard summaries,
//! heuristic anomaly cues, enrichment bookkeeping and CSV export.
pub mod aggregator;
pub mod anomaly;
pub mod capture;
pub mod direction;
pub mod enrich;
pub mod export;
pub mod ip;
pub mod ip_round_trip;
pub mod key;
pub mod parse;
pub mod ranking;
pub mod snapshot;
pub mod summary;
pub mod text;
pub mod types;

pub use types::{
    AnomalyRuleSettings, Direction, FlowAnomaly, FlowAnomalySeverity, FlowRecord, InterfaceInfo,
    PacketEvent, Protocol,
};
