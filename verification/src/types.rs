//! Data records shared by the capture, aggregation and presentation layers.
use vstd::prelude::*;

use crate::text::clone_opt_string;

verus! {

/// Which way a packet travels relative to the capturing host.
#[derive(Debug, Clone, Copy, PartialEq, Eq, Structural, Hash)]
pub enum Direction {
    Inbound,
    Outbound,
    Unknown,
}

/// Transport protocol of a packet or flow.
#[derive(Debug, Clone, Copy, PartialEq, Eq, Structural, Hash)]
pub enum Protocol {
    Tcp,
    Udp,
    Icmp,
    Other,
}

/// A network interface as offered to the user.
#[derive(Debug)]
pub struct InterfaceInfo {
    pub id: String,
    pub name: String,
    pub description: Option<String>,
    pub usable: bool,
}

/// One parsed packet flowing through the capture pipeline.
/// Payload bytes are intentionally never captured.
#[derive(Debug)]
pub struct PacketEvent {
    /// Unix epoch milliseconds.
    pub timestamp: i64,
    pub src_ip: String,
    pub dst_ip: String,
    pub src_port: Option<u16>,
    pub dst_port: Option<u16>,
    pub protocol: Protocol,
    pub packet_length: u32,
    pub direction: Direction,
}

/// Aggregated bidirectional flow keyed by (protocol, endpoints).
#[derive(Debug)]
pub struct FlowRecord {
    pub id: String,
    pub src_ip: String,
    pub dst_ip: String,
    pub hostname: Option<String>,
    pub country: Option<String>,
    pub src_port: Option<u16>,
    pub dst_port: Option<u16>,
    pub protocol: Protocol,
    pub bytes_up: u64,
    pub bytes_down: u64,
    pub packets_up: u64,
    pub packets_down: u64,
    /// Unix epoch milliseconds.
    pub first_seen: i64,
    pub last_seen: i64,
}

impl Clone for PacketEvent {
    fn clone(&self) -> (res: Self)
        ensures
            res == *self,
    {
        PacketEvent {
            timestamp: self.timestamp,
            src_ip: self.src_ip.clone(),
            dst_ip: self.dst_ip.clone(),
            src_port: self.src_port,
            dst_port: self.dst_port,
            protocol: self.protocol,
            packet_length: self.packet_length,
            direction: self.direction,
        }
    }
}

impl Clone for FlowRecord {
    fn clone(&self) -> (res: Self)
        ensures
            res == *self,
    {
        FlowRecord {
            id: self.id.clone(),
            src_ip: self.src_ip.clone(),
            dst_ip: self.dst_ip.clone(),
            hostname: clone_opt_string(&self.hostname),
            country: clone_opt_string(&self.country),
            src_port: self.src_port,
            dst_port: self.dst_port,
            protocol: self.protocol,
            bytes_up: self.bytes_up,
            bytes_down: self.bytes_down,
            packets_up: self.packets_up,
            packets_down: self.packets_down,
            first_seen: self.first_seen,
            last_seen: self.last_seen,
        }
    }
}

impl Clone for InterfaceInfo {
    fn clone(&self) -> (res: Self)
        ensures
            res == *self,
    {
        InterfaceInfo {
            id: self.id.clone(),
            name: self.name.clone(),
            description: clone_opt_string(&self.description),
            usable: self.usable,
        }
    }
}

/// Parts per million: the scale of `AnomalyRuleSettings::upload_ratio_threshold_ppm`.
pub const PPM_SCALE: u64 = 1_000_000;

/// Rule toggles of the anomaly heuristics (transparent cues, not antivirus verdicts).
///
/// The upload-share threshold is held as parts per million of the flow's total bytes,
/// so that the rule compares integers exactly.
#[derive(Debug)]
pub struct AnomalyRuleSettings {
    pub rare_port_enabled: bool,
    pub high_upload_enabled: bool,
    pub geo_notice_enabled: bool,
    pub session_new_remote_enabled: bool,
    /// Bytes-up / total (in parts per million) at or above which an upload-heavy
    /// flow is reported, when total >= 512 bytes (TCP/UDP only).
    pub upload_ratio_threshold_ppm: u64,
    /// Ports never flagged as rare (merged with the builtin common list).
    pub rare_extra_allowlist: Vec<u16>,
}

impl Default for AnomalyRuleSettings {
    fn default() -> (res: Self)
        ensures
            res.rare_port_enabled,
            res.high_upload_enabled,
            !res.geo_notice_enabled,
            res.session_new_remote_enabled,
            res.upload_ratio_threshold_ppm == 880_000,
            res.rare_extra_allowlist@ == Seq::<u16>::empty(),
    {
        AnomalyRuleSettings {
            rare_port_enabled: true,
            high_upload_enabled: true,
            geo_notice_enabled: false,
            session_new_remote_enabled: true,
            upload_ratio_threshold_ppm: 880_000,
            rare_extra_allowlist: Vec::new(),
        }
    }
}

/// How strongly an anomaly is surfaced.
#[derive(Debug, Clone, Copy, PartialEq, Eq, Structural)]
pub enum FlowAnomalySeverity {
    Info,
    Notice,
    Warn,
}

/// One surfaced heuristic finding tied to an aggregated flow.
#[derive(Debug)]
pub struct FlowAnomaly {
    pub id: String,
    pub rule_id: String,
    pub severity: FlowAnomalySeverity,
    pub flow_id: String,
    pub message: String,
}

/// The value of a [`FlowAnomaly`]: its texts as character sequences.
pub struct AnomalyView {
    pub id: Seq<char>,
    pub rule_id: Seq<char>,
    pub severity: FlowAnomalySeverity,
    pub flow_id: Seq<char>,
    pub message: Seq<char>,
}

impl View for FlowAnomaly {
    type V = AnomalyView;

    open spec fn view(&self) -> AnomalyView {
        AnomalyView {
            id: self.id@,
            rule_id: self.rule_id@,
            severity: self.severity,
            flow_id: self.flow_id@,
            message: self.message@,
        }
    }
}

impl Clone for FlowAnomaly {
    fn clone(&self) -> (res: Self)
        ensures
            res == *self,
    {
        FlowAnomaly {
            id: self.id.clone(),
            rule_id: self.rule_id.clone(),
            severity: self.severity,
            flow_id: self.flow_id.clone(),
            message: self.message.clone(),
        }
    }
}

} // verus!
