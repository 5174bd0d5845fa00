//! What the command surface reports and exports: status records, the export format
//! choice, the CSV rendering of a session, and the settings with their defaults.
use vstd::prelude::*;

use crate::capture::CaptureStatsSnapshot;
use crate::enrich::{opt_text, EnrichmentSnapshot};
use crate::text::{
    decimal, push_char, push_decimal, push_signed_decimal, push_text, signed_decimal,
};
use crate::types::{AnomalyRuleSettings, FlowRecord, Protocol};

verus! {

/// State of the capture as the user interface shows it.
#[derive(Debug)]
pub struct CaptureStatus {
    pub running: bool,
    pub paused: bool,
    pub interface: Option<String>,
    pub stats: Option<CaptureStatsSnapshot>,
    pub flow_count: usize,
}

/// The capture status, given the running session's interface and counters (if a
/// session runs), the pause switch and the number of flows in the table. Without a
/// session nothing counts as paused.
pub fn capture_status_of(
    session: Option<(String, CaptureStatsSnapshot)>,
    paused: bool,
    flow_count: usize,
) -> (res: CaptureStatus)
    ensures
        res.running == session is Some,
        res.paused == (session is Some && paused),
        res.interface == (match session {
            Some((name, _)) => Some(name),
            None => None,
        }),
        res.stats == (match session {
            Some((_, stats)) => Some(stats),
            None => None,
        }),
        res.flow_count == flow_count,
{
    match session {
        Some((name, stats)) => CaptureStatus {
            running: true,
            paused,
            interface: Some(name),
            stats: Some(stats),
            flow_count,
        },
        None => CaptureStatus {
            running: false,
            paused: false,
            interface: None,
            stats: None,
            flow_count,
        },
    }
}

/// State of the enrichment service as the user interface shows it.
#[derive(Debug, Clone, Copy)]
pub struct EnrichmentStatus {
    pub cached_entries: usize,
    pub queue_depth: usize,
    pub geoip_loaded: bool,
    pub rdns_enabled: bool,
}

/// The enrichment status of the given counters.
pub fn enrichment_status_of(s: EnrichmentSnapshot) -> (res: EnrichmentStatus)
    ensures
        res.cached_entries == s.cached_entries,
        res.queue_depth == s.queue_depth,
        res.geoip_loaded == s.geoip_loaded,
        res.rdns_enabled == s.rdns_enabled,
{
    EnrichmentStatus {
        cached_entries: s.cached_entries,
        queue_depth: s.queue_depth,
        geoip_loaded: s.geoip_loaded,
        rdns_enabled: s.rdns_enabled,
    }
}

/// What an export wrote.
#[derive(Debug)]
pub struct ExportResult {
    pub path: String,
    pub flow_count: usize,
    pub format: String,
}

/// File formats of a session export.
#[derive(Debug, Clone, Copy, PartialEq, Eq, Structural)]
pub enum ExportFormat {
    Json,
    Csv,
}

/// What `str::to_lowercase` gives for a text: its full Unicode lowercase mapping.
pub uninterp spec fn lowercase(s: Seq<char>) -> Seq<char>;

/// `str::to_lowercase`. Claimed of std: the result is a function of the text alone,
/// named [`lowercase`].
#[verifier::external_body]
fn to_lowercase(s: &str) -> (res: String)
    ensures
        res@ == lowercase(s@),
{
    s.to_lowercase()
}

/// The export format named by a lowercased format name, or the error message.
pub open spec fn format_of(lower: Seq<char>) -> Result<ExportFormat, Seq<char>> {
    if lower == "json"@ {
        Ok(ExportFormat::Json)
    } else if lower == "csv"@ {
        Ok(ExportFormat::Csv)
    } else {
        Err("unsupported format: "@ + lower)
    }
}

/// The texts of a format choice.
pub open spec fn format_choice_view(r: Result<ExportFormat, String>) -> Result<ExportFormat, Seq<char>> {
    match r {
        Ok(f) => Ok(f),
        Err(m) => Err(m@),
    }
}

/// The export format named by `lower`, a format name already in lowercase.
pub fn format_from_lowercase(lower: &str) -> (res: Result<ExportFormat, String>)
    ensures
        format_choice_view(res) == format_of(lower@),
{
    let (_, json) = crate::text::compare_text(lower, "json");
    if json {
        return Ok(ExportFormat::Json);
    }
    let (_, csv) = crate::text::compare_text(lower, "csv");
    if csv {
        return Ok(ExportFormat::Csv);
    }
    let mut m = String::from_str("unsupported format: ");
    push_text(&mut m, lower);
    Err(m)
}

/// The export format named by `format`, compared case-insensitively ("JSON" and "json"
/// both name JSON); any other name gives the error message that names it in lowercase.
pub fn export_format(format: &str) -> (res: Result<ExportFormat, String>)
    ensures
        format_choice_view(res) == format_of(lowercase(format@)),
{
    let lower = to_lowercase(format);
    format_from_lowercase(lower.as_str())
}

/// Whether a CSV field must be quoted: it holds a comma, a double quote or a newline.
pub open spec fn needs_quotes(s: Seq<char>) -> bool {
    s.contains(',') || s.contains('"') || s.contains('\n')
}

/// `s` with every double quote doubled.
pub open spec fn double_quotes(s: Seq<char>) -> Seq<char>
    decreases s.len(),
{
    if s.len() == 0 {
        seq![]
    } else {
        double_quotes(s.drop_last()) + (if s.last() == '"' {
            seq!['"', '"']
        } else {
            seq![s.last()]
        })
    }
}

/// A CSV field holding `s`: quoted, with inner quotes doubled, when needed.
pub open spec fn csv_field(s: Seq<char>) -> Seq<char> {
    if needs_quotes(s) {
        "\""@ + double_quotes(s) + "\""@
    } else {
        s
    }
}

/// A CSV field holding `s`.
pub fn csv_escape(s: &str) -> (res: String)
    ensures
        res@ == csv_field(s@),
{
    if crate::text::contains_char(s, ',') || crate::text::contains_char(s, '"')
        || crate::text::contains_char(s, '\n') {
        let mut out = String::from_str("\"");
        let n = s.unicode_len();
        let mut i: usize = 0;
        while i < n
            invariant
                n == s@.len(),
                i <= n,
                out@ == "\""@ + double_quotes(s@.take(i as int)),
            decreases n - i,
        {
            let c = s.get_char(i);
            let ghost before = out@;
            proof {
                assert(s@.take(i + 1).drop_last() =~= s@.take(i as int));
                assert(s@.take(i + 1).last() == c);
            }
            if c == '"' {
                push_char(&mut out, '"');
                push_char(&mut out, '"');
                assert(out@ =~= "\""@ + double_quotes(s@.take(i + 1)));
            } else {
                push_char(&mut out, c);
                assert(out@ =~= "\""@ + double_quotes(s@.take(i + 1)));
            }
            i = i + 1;
        }
        assert(s@.take(n as int) =~= s@);
        push_text(&mut out, "\"");
        out
    } else {
        String::from_str(s)
    }
}

/// Upper-case protocol label used in exports.
pub open spec fn protocol_label(p: Protocol) -> Seq<char> {
    match p {
        Protocol::Tcp => "TCP"@,
        Protocol::Udp => "UDP"@,
        Protocol::Icmp => "ICMP"@,
        Protocol::Other => "OTHER"@,
    }
}

/// Upper-case protocol label used in exports.
pub fn protocol_to_str(p: Protocol) -> (res: &'static str)
    ensures
        res@ == protocol_label(p),
{
    match p {
        Protocol::Tcp => "TCP",
        Protocol::Udp => "UDP",
        Protocol::Icmp => "ICMP",
        Protocol::Other => "OTHER",
    }
}

/// The header line of a CSV export.
pub open spec fn csv_header() -> Seq<char> {
    "id,src_ip,src_port,dst_ip,dst_port,protocol,bytes_up,bytes_down,packets_up,packets_down,hostname,country,first_seen,last_seen\n"@
}

/// A port in an export: its decimal form, or nothing.
pub open spec fn port_field(p: Option<u16>) -> Seq<char> {
    match p {
        Some(x) => decimal(x as nat),
        None => seq![],
    }
}

/// The text of an optional string, empty when there is none.
pub open spec fn text_or_empty(o: Option<String>) -> Seq<char> {
    match opt_text(o) {
        Some(t) => t,
        None => seq![],
    }
}

/// The CSV line of one flow, with its line break.
pub open spec fn csv_line(f: FlowRecord) -> Seq<char> {
    csv_field(f.id@) + ","@ + csv_field(f.src_ip@) + ","@ + port_field(f.src_port) + ","@
        + csv_field(f.dst_ip@) + ","@ + port_field(f.dst_port) + ","@ + protocol_label(f.protocol)
        + ","@ + decimal(f.bytes_up as nat) + ","@ + decimal(f.bytes_down as nat) + ","@ + decimal(
        f.packets_up as nat,
    ) + ","@ + decimal(f.packets_down as nat) + ","@ + csv_field(text_or_empty(f.hostname))
        + ","@ + csv_field(text_or_empty(f.country)) + ","@ + signed_decimal(f.first_seen as int)
        + ","@ + signed_decimal(f.last_seen as int) + "\n"@
}

/// The CSV lines of a list of flows, in order.
pub open spec fn csv_lines(flows: Seq<FlowRecord>) -> Seq<char>
    decreases flows.len(),
{
    if flows.len() == 0 {
        seq![]
    } else {
        csv_lines(flows.drop_last()) + csv_line(flows.last())
    }
}

/// Appends the decimal form of an optional port, or nothing.
fn push_port(s: &mut String, p: Option<u16>)
    ensures
        final(s)@ == old(s)@ + port_field(p),
{
    match p {
        Some(x) => push_decimal(s, x as u64),
        None => {
            assert(old(s)@ + port_field(p) =~= old(s)@);
        },
    }
}

/// Appends the CSV field of an optional string (empty when there is none).
fn push_opt_field(s: &mut String, o: &Option<String>)
    ensures
        final(s)@ == old(s)@ + csv_field(text_or_empty(*o)),
{
    match o {
        Some(t) => {
            assert(text_or_empty(*o) == t@);
            let f = csv_escape(t.as_str());
            push_text(s, f.as_str());
        },
        None => {
            let f = csv_escape("");
            proof {
                reveal_strlit("");
                assert(""@ =~= text_or_empty(*o));
            }
            push_text(s, f.as_str());
        },
    }
}

/// The CSV line of one flow, with its line break.
pub fn flow_csv_line(f: &FlowRecord) -> (res: String)
    ensures
        res@ == csv_line(*f),
{
    let mut line = csv_escape(f.id.as_str());
    push_text(&mut line, ",");
    push_text(&mut line, csv_escape(f.src_ip.as_str()).as_str());
    push_text(&mut line, ",");
    push_port(&mut line, f.src_port);
    push_text(&mut line, ",");
    push_text(&mut line, csv_escape(f.dst_ip.as_str()).as_str());
    push_text(&mut line, ",");
    push_port(&mut line, f.dst_port);
    push_text(&mut line, ",");
    push_text(&mut line, protocol_to_str(f.protocol));
    push_text(&mut line, ",");
    push_decimal(&mut line, f.bytes_up);
    push_text(&mut line, ",");
    push_decimal(&mut line, f.bytes_down);
    push_text(&mut line, ",");
    push_decimal(&mut line, f.packets_up);
    push_text(&mut line, ",");
    push_decimal(&mut line, f.packets_down);
    push_text(&mut line, ",");
    push_opt_field(&mut line, &f.hostname);
    push_text(&mut line, ",");
    push_opt_field(&mut line, &f.country);
    push_text(&mut line, ",");
    push_signed_decimal(&mut line, f.first_seen);
    push_text(&mut line, ",");
    push_signed_decimal(&mut line, f.last_seen);
    push_text(&mut line, "\n");
    line
}

/// The CSV export of a list of flows: a header line, then one line per flow.
pub fn flows_to_csv(flows: &[FlowRecord]) -> (res: String)
    ensures
        res@ == csv_header() + csv_lines(flows@),
{
    let mut out = String::from_str(
        "id,src_ip,src_port,dst_ip,dst_port,protocol,bytes_up,bytes_down,packets_up,packets_down,hostname,country,first_seen,last_seen\n",
    );
    let mut i: usize = 0;
    proof {
        assert(flows@.take(0) =~= Seq::<FlowRecord>::empty());
        assert(out@ =~= csv_header() + csv_lines(flows@.take(0)));
    }
    while i < flows.len()
        invariant
            i <= flows@.len(),
            out@ == csv_header() + csv_lines(flows@.take(i as int)),
        decreases flows@.len() - i,
    {
        let line = flow_csv_line(&flows[i]);
        push_text(&mut out, line.as_str());
        proof {
            assert(flows@.take(i + 1).drop_last() =~= flows@.take(i as int));
            assert(flows@.take(i + 1).last() == flows@[i as int]);
            assert(out@ =~= csv_header() + csv_lines(flows@.take(i + 1)));
        }
        i = i + 1;
    }
    assert(flows@.take(flows@.len() as int) =~= flows@);
    out
}

/// What a settings change does to the GeoIP database.
#[derive(Debug)]
pub enum GeoipAction {
    /// The path did not change: nothing to do.
    Keep,
    /// Load the database at this path.
    Load(String),
    /// Drop the database.
    Clear,
}

/// The GeoIP action of a settings change from path `prev` to path `new`.
pub fn geoip_action(prev: &Option<String>, new: &Option<String>) -> (res: GeoipAction)
    ensures
        opt_text(*prev) == opt_text(*new) ==> res is Keep,
        opt_text(*prev) != opt_text(*new) ==> match opt_text(*new) {
            Some(p) => res matches GeoipAction::Load(q) && q@ == p,
            None => res is Clear,
        },
{
    let same = match (prev, new) {
        (Some(a), Some(b)) => {
            let (_, eq) = crate::text::compare_text(a.as_str(), b.as_str());
            eq
        },
        (None, None) => true,
        _ => false,
    };
    if same {
        GeoipAction::Keep
    } else {
        match new {
            Some(p) => GeoipAction::Load(p.clone()),
            None => GeoipAction::Clear,
        }
    }
}

/// User settings of the monitor.
#[derive(Debug)]
pub struct Settings {
    pub snapshot_interval_ms: u64,
    pub stale_after_ms: i64,
    pub top_n: usize,
    pub reverse_dns_enabled: bool,
    pub geoip_db_path: Option<String>,
    pub anomalies: AnomalyRuleSettings,
}

impl Default for Settings {
    fn default() -> (res: Self)
        ensures
            res.snapshot_interval_ms == 750,
            res.stale_after_ms == 60_000,
            res.top_n == 250,
            !res.reverse_dns_enabled,
            res.geoip_db_path is None,
            res.anomalies.rare_port_enabled,
            res.anomalies.high_upload_enabled,
            !res.anomalies.geo_notice_enabled,
            res.anomalies.session_new_remote_enabled,
            res.anomalies.upload_ratio_threshold_ppm == 880_000,
            res.anomalies.rare_extra_allowlist@ == Seq::<u16>::empty(),
    {
        Settings {
            snapshot_interval_ms: 750,
            stale_after_ms: 60_000,
            top_n: 250,
            reverse_dns_enabled: false,
            geoip_db_path: None,
            anomalies: AnomalyRuleSettings::default(),
        }
    }
}

} // verus!
