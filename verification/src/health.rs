//! The health and metrics endpoint: routing of requests, and the
//! Prometheus text and JSON status documents built from the engine's
//! counters. Serving sockets is the application's part, as is rendering
//! the few floating-point gauges, which are handed in as text.

use vstd::prelude::*;

use crate::text::{dec, push_dec};

verus! {

/// The document a request asks for.
#[derive(Debug, Clone, Copy, PartialEq, Eq, Structural)]
pub enum HealthRoute {
    /// `GET /health`: liveness.
    Health,
    /// `GET /metrics`: Prometheus text.
    Metrics,
    /// `GET /status`: JSON status.
    Status,
    /// `GET /` or `GET /dashboard`: the HTML dashboard.
    Dashboard,
    /// Anything else.
    NotFound,
}

/// Whether `s` begins with `prefix`.
pub open spec fn starts_with(s: Seq<char>, prefix: Seq<char>) -> bool {
    prefix.len() <= s.len() && s.subrange(0, prefix.len() as int) == prefix
}

/// Whether `s` begins with `prefix`.
fn str_starts_with(s: &str, prefix: &str) -> (r: bool)
    ensures
        r == starts_with(s@, prefix@),
{
    let n: usize = prefix.unicode_len();
    if n > s.unicode_len() {
        return false;
    }
    let mut i: usize = 0;
    while i < n
        invariant
            n == prefix@.len(),
            n <= s@.len(),
            i <= n,
            forall|j: int| 0 <= j < i ==> s@[j] == prefix@[j],
        decreases n - i,
    {
        if s.get_char(i) != prefix.get_char(i) {
            assert(s@.subrange(0, n as int)[i as int] != prefix@[i as int]);
            return false;
        }
        i = i + 1;
    }
    assert(s@.subrange(0, n as int) =~= prefix@);
    true
}

/// The route of a request line, by its first words.
pub open spec fn spec_route(request: Seq<char>) -> HealthRoute {
    if starts_with(request, "GET /health "@) {
        HealthRoute::Health
    } else if starts_with(request, "GET /metrics "@) {
        HealthRoute::Metrics
    } else if starts_with(request, "GET /status "@) {
        HealthRoute::Status
    } else if starts_with(request, "GET / "@) || starts_with(request, "GET /dashboard "@) {
        HealthRoute::Dashboard
    } else {
        HealthRoute::NotFound
    }
}

/// Route an HTTP request by its request line.
pub fn route_request(request: &str) -> (r: HealthRoute)
    ensures
        r == spec_route(request@),
{
    if str_starts_with(request, "GET /health ") {
        HealthRoute::Health
    } else if str_starts_with(request, "GET /metrics ") {
        HealthRoute::Metrics
    } else if str_starts_with(request, "GET /status ") {
        HealthRoute::Status
    } else if str_starts_with(request, "GET / ") || str_starts_with(request, "GET /dashboard ") {
        HealthRoute::Dashboard
    } else {
        HealthRoute::NotFound
    }
}

/// The integer counters and gauges of a running engine.
#[derive(Debug, Clone, Copy, Default)]
pub struct MetricCounters {
    /// Total ticks executed.
    pub total_ticks: u64,
    /// Packets received.
    pub packets_recv: u64,
    /// Packets sent.
    pub packets_sent: u64,
    /// Bytes received.
    pub bytes_recv: u64,
    /// Bytes sent.
    pub bytes_sent: u64,
    /// Retransmissions.
    pub retransmissions: u64,
    /// Known peers.
    pub peer_count: usize,
    /// Outbound queue depth.
    pub outbound_queue_depth: usize,
    /// Reliable queue depth.
    pub reliable_queue_depth: usize,
    /// Packets with valid signatures.
    pub authenticated_packets: u64,
    /// Encrypted packets.
    pub encrypted_packets: u64,
    /// Signature verification failures.
    pub auth_failures: u64,
    /// Decryption failures.
    pub decrypt_failures: u64,
    /// Rate-limited packets dropped.
    pub rate_limited_packets: u64,
    /// Maximum allowed peers.
    pub max_peers: usize,
    /// Active peer connections.
    pub active_peer_count: usize,
    /// DHT routing table size.
    pub dht_node_count: usize,
    /// DHT pings awaiting a pong.
    pub dht_pending_pings: usize,
    /// Peers tracked by the trust system.
    pub trust_peer_count: usize,
    /// Currently rate-limited peers.
    pub trust_rate_limited_peers: usize,
    /// Active secure sessions.
    pub active_sessions: usize,
    /// Sessions with forward secrecy.
    pub ephemeral_sessions: usize,
}

/// One metric in Prometheus text: its help line, its type line and its
/// sample line.
pub open spec fn metric_block(name: Seq<char>, help: Seq<char>, kind: Seq<char>, value: Seq<char>) -> Seq<
    char,
> {
    "# HELP "@ + name + " "@ + help + "\n# TYPE "@ + name + " "@ + kind + "\n"@ + name + " "@ + value
        + "\n"@
}

/// Append one metric block.
fn push_metric(out: &mut String, name: &str, help: &str, kind: &str, value: &str)
    ensures
        final(out)@ == old(out)@ + metric_block(name@, help@, kind@, value@),
{
    out.append("# HELP ");
    out.append(name);
    out.append(" ");
    out.append(help);
    out.append("\n# TYPE ");
    out.append(name);
    out.append(" ");
    out.append(kind);
    out.append("\n");
    out.append(name);
    out.append(" ");
    out.append(value);
    out.append("\n");
    assert(final(out)@ =~= old(out)@ + metric_block(name@, help@, kind@, value@));
}

/// Append one metric block with an integer sample.
fn push_int_metric(out: &mut String, name: &str, help: &str, kind: &str, value: u64)
    ensures
        final(out)@ == old(out)@ + metric_block(name@, help@, kind@, dec(value as nat)),
{
    let mut v = String::new();
    push_dec(&mut v, value);
    assert(v@ =~= dec(value as nat));
    push_metric(out, name, help, kind, v.as_str());
}

/// The traffic section of the metrics text.
pub open spec fn traffic_metrics(c: MetricCounters, idle_ratio: Seq<char>, tick_rate: Seq<char>) -> Seq<
    char,
> {
    metric_block("nwp_engine_ticks"@, "Total engine ticks executed"@, "counter"@, dec(c.total_ticks as nat))
        + metric_block("nwp_packets_recv"@, "Total packets received"@, "counter"@, dec(c.packets_recv as nat))
        + metric_block("nwp_packets_sent"@, "Total packets sent"@, "counter"@, dec(c.packets_sent as nat))
        + metric_block("nwp_bytes_recv"@, "Total bytes received"@, "counter"@, dec(c.bytes_recv as nat))
        + metric_block("nwp_bytes_sent"@, "Total bytes sent"@, "counter"@, dec(c.bytes_sent as nat))
        + metric_block("nwp_retransmissions"@, "Total retransmissions"@, "counter"@, dec(c.retransmissions as nat))
        + metric_block("nwp_peers"@, "Current peer count"@, "gauge"@, dec(c.peer_count as nat))
        + metric_block("nwp_reliable_queue_depth"@, "Current reliable queue depth"@, "gauge"@, dec(c.reliable_queue_depth as nat))
        + metric_block("nwp_idle_ratio"@, "Fraction of ticks with no packets"@, "gauge"@, idle_ratio)
        + metric_block("nwp_tick_rate_hz"@, "Actual tick rate"@, "gauge"@, tick_rate)
}

/// The security and capacity section of the metrics text.
pub open spec fn security_metrics(c: MetricCounters, capacity_ratio: Seq<char>) -> Seq<char> {
    metric_block("nwp_authenticated_packets"@, "Total packets with valid Ed25519 signatures"@, "counter"@, dec(c.authenticated_packets as nat))
        + metric_block("nwp_encrypted_packets"@, "Total AEAD-encrypted packets"@, "counter"@, dec(c.encrypted_packets as nat))
        + metric_block("nwp_auth_failures"@, "Total signature verification failures"@, "counter"@, dec(c.auth_failures as nat))
        + metric_block("nwp_decrypt_failures"@, "Total AEAD decryption failures"@, "counter"@, dec(c.decrypt_failures as nat))
        + metric_block("nwp_rate_limited_packets"@, "Total rate-limited packets dropped"@, "counter"@, dec(c.rate_limited_packets as nat))
        + metric_block("nwp_max_peers"@, "Maximum allowed peer connections"@, "gauge"@, dec(c.max_peers as nat))
        + metric_block("nwp_active_peers"@, "Current active peer connections"@, "gauge"@, dec(c.active_peer_count as nat))
        + metric_block("nwp_peer_capacity_ratio"@, "Peer capacity utilization (0.0-1.0)"@, "gauge"@, capacity_ratio)
}

/// The DHT, trust and session section of the metrics text.
pub open spec fn network_metrics(c: MetricCounters) -> Seq<char> {
    metric_block("nwp_dht_nodes"@, "DHT routing table size"@, "gauge"@, dec(c.dht_node_count as nat))
        + metric_block("nwp_dht_pending_pings"@, "DHT pings awaiting PONG"@, "gauge"@, dec(c.dht_pending_pings as nat))
        + metric_block("nwp_trust_peers"@, "Total tracked peers in trust system"@, "gauge"@, dec(c.trust_peer_count as nat))
        + metric_block("nwp_trust_rate_limited"@, "Currently rate-limited peers"@, "gauge"@, dec(c.trust_rate_limited_peers as nat))
        + metric_block("nwp_sessions"@, "Active secure sessions"@, "gauge"@, dec(c.active_sessions as nat))
        + metric_block("nwp_ephemeral_sessions"@, "Sessions with forward secrecy"@, "gauge"@, dec(c.ephemeral_sessions as nat))
}

/// The Prometheus metrics text: traffic, security and capacity, then DHT,
/// trust and session metrics.
pub open spec fn spec_metrics_text(
    c: MetricCounters,
    idle_ratio: Seq<char>,
    tick_rate: Seq<char>,
    capacity_ratio: Seq<char>,
) -> Seq<char> {
    traffic_metrics(c, idle_ratio, tick_rate) + security_metrics(c, capacity_ratio)
        + network_metrics(c)
}

fn push_traffic(out: &mut String, c: &MetricCounters, idle_ratio: &str, tick_rate: &str)
    ensures
        final(out)@ == old(out)@ + traffic_metrics(*c, idle_ratio@, tick_rate@),
{
    let ghost start = out@;
    push_int_metric(out, "nwp_engine_ticks", "Total engine ticks executed", "counter", c.total_ticks);
    push_int_metric(out, "nwp_packets_recv", "Total packets received", "counter", c.packets_recv);
    push_int_metric(out, "nwp_packets_sent", "Total packets sent", "counter", c.packets_sent);
    push_int_metric(out, "nwp_bytes_recv", "Total bytes received", "counter", c.bytes_recv);
    push_int_metric(out, "nwp_bytes_sent", "Total bytes sent", "counter", c.bytes_sent);
    push_int_metric(out, "nwp_retransmissions", "Total retransmissions", "counter", c.retransmissions);
    push_int_metric(out, "nwp_peers", "Current peer count", "gauge", c.peer_count as u64);
    push_int_metric(out, "nwp_reliable_queue_depth", "Current reliable queue depth", "gauge", c.reliable_queue_depth as u64);
    push_metric(out, "nwp_idle_ratio", "Fraction of ticks with no packets", "gauge", idle_ratio);
    push_metric(out, "nwp_tick_rate_hz", "Actual tick rate", "gauge", tick_rate);
    assert(out@ =~= start + traffic_metrics(*c, idle_ratio@, tick_rate@));
}

fn push_security(out: &mut String, c: &MetricCounters, capacity_ratio: &str)
    ensures
        final(out)@ == old(out)@ + security_metrics(*c, capacity_ratio@),
{
    let ghost start = out@;
    push_int_metric(out, "nwp_authenticated_packets", "Total packets with valid Ed25519 signatures", "counter", c.authenticated_packets);
    push_int_metric(out, "nwp_encrypted_packets", "Total AEAD-encrypted packets", "counter", c.encrypted_packets);
    push_int_metric(out, "nwp_auth_failures", "Total signature verification failures", "counter", c.auth_failures);
    push_int_metric(out, "nwp_decrypt_failures", "Total AEAD decryption failures", "counter", c.decrypt_failures);
    push_int_metric(out, "nwp_rate_limited_packets", "Total rate-limited packets dropped", "counter", c.rate_limited_packets);
    push_int_metric(out, "nwp_max_peers", "Maximum allowed peer connections", "gauge", c.max_peers as u64);
    push_int_metric(out, "nwp_active_peers", "Current active peer connections", "gauge", c.active_peer_count as u64);
    push_metric(out, "nwp_peer_capacity_ratio", "Peer capacity utilization (0.0-1.0)", "gauge", capacity_ratio);
    assert(out@ =~= start + security_metrics(*c, capacity_ratio@));
}

fn push_network(out: &mut String, c: &MetricCounters)
    ensures
        final(out)@ == old(out)@ + network_metrics(*c),
{
    let ghost start = out@;
    push_int_metric(out, "nwp_dht_nodes", "DHT routing table size", "gauge", c.dht_node_count as u64);
    push_int_metric(out, "nwp_dht_pending_pings", "DHT pings awaiting PONG", "gauge", c.dht_pending_pings as u64);
    push_int_metric(out, "nwp_trust_peers", "Total tracked peers in trust system", "gauge", c.trust_peer_count as u64);
    push_int_metric(out, "nwp_trust_rate_limited", "Currently rate-limited peers", "gauge", c.trust_rate_limited_peers as u64);
    push_int_metric(out, "nwp_sessions", "Active secure sessions", "gauge", c.active_sessions as u64);
    push_int_metric(out, "nwp_ephemeral_sessions", "Sessions with forward secrecy", "gauge", c.ephemeral_sessions as u64);
    assert(out@ =~= start + network_metrics(*c));
}

/// Build the Prometheus metrics text. The idle ratio, tick rate and
/// capacity ratio gauges come already rendered.
pub fn format_metrics(c: &MetricCounters, idle_ratio: &str, tick_rate: &str, capacity_ratio: &str) -> (out: String)
    ensures
        out@ == spec_metrics_text(*c, idle_ratio@, tick_rate@, capacity_ratio@),
{
    let mut out = String::new();
    push_traffic(&mut out, c, idle_ratio, tick_rate);
    push_security(&mut out, c, capacity_ratio);
    push_network(&mut out, c);
    assert(out@ =~= spec_metrics_text(*c, idle_ratio@, tick_rate@, capacity_ratio@));
    out
}

/// One `"key":value` member of the status document.
pub open spec fn json_member(key: Seq<char>, value: Seq<char>) -> Seq<char> {
    "\""@ + key + "\":"@ + value
}

/// The JSON status document.
pub open spec fn spec_status_json(c: MetricCounters, idle_ratio: Seq<char>, tick_rate: Seq<char>) -> Seq<
    char,
> {
    "{"@ + json_member("total_ticks"@, dec(c.total_ticks as nat)) + ","@ + json_member(
        "packets_recv"@,
        dec(c.packets_recv as nat),
    ) + ","@ + json_member("packets_sent"@, dec(c.packets_sent as nat)) + ","@ + json_member(
        "bytes_recv"@,
        dec(c.bytes_recv as nat),
    ) + ","@ + json_member("bytes_sent"@, dec(c.bytes_sent as nat)) + ","@ + json_member(
        "retransmissions"@,
        dec(c.retransmissions as nat),
    ) + ","@ + json_member("peer_count"@, dec(c.peer_count as nat)) + ","@ + json_member(
        "outbound_queue_depth"@,
        dec(c.outbound_queue_depth as nat),
    ) + ","@ + json_member("reliable_queue_depth"@, dec(c.reliable_queue_depth as nat)) + ","@
        + json_member("idle_ratio"@, idle_ratio) + ","@ + json_member("tick_rate_hz"@, tick_rate)
        + ","@ + json_member("status"@, "\"ok\""@) + "}"@
}

/// Append one `"key":value` member.
fn push_member(out: &mut String, key: &str, value: &str)
    ensures
        final(out)@ == old(out)@ + json_member(key@, value@),
{
    out.append("\"");
    out.append(key);
    out.append("\":");
    out.append(value);
    assert(final(out)@ =~= old(out)@ + json_member(key@, value@));
}

/// Append one `"key":value` member with an integer value.
fn push_int_member(out: &mut String, key: &str, value: u64)
    ensures
        final(out)@ == old(out)@ + json_member(key@, dec(value as nat)),
{
    let mut v = String::new();
    push_dec(&mut v, value);
    assert(v@ =~= dec(value as nat));
    push_member(out, key, v.as_str());
}

/// Build the JSON status document. The idle ratio and tick rate come
/// already rendered.
pub fn format_status(c: &MetricCounters, idle_ratio: &str, tick_rate: &str) -> (out: String)
    ensures
        out@ == spec_status_json(*c, idle_ratio@, tick_rate@),
{
    let mut out = String::new();
    out.append("{");
    push_int_member(&mut out, "total_ticks", c.total_ticks);
    out.append(",");
    push_int_member(&mut out, "packets_recv", c.packets_recv);
    out.append(",");
    push_int_member(&mut out, "packets_sent", c.packets_sent);
    out.append(",");
    push_int_member(&mut out, "bytes_recv", c.bytes_recv);
    out.append(",");
    push_int_member(&mut out, "bytes_sent", c.bytes_sent);
    out.append(",");
    push_int_member(&mut out, "retransmissions", c.retransmissions);
    out.append(",");
    push_int_member(&mut out, "peer_count", c.peer_count as u64);
    out.append(",");
    push_int_member(&mut out, "outbound_queue_depth", c.outbound_queue_depth as u64);
    out.append(",");
    push_int_member(&mut out, "reliable_queue_depth", c.reliable_queue_depth as u64);
    out.append(",");
    push_member(&mut out, "idle_ratio", idle_ratio);
    out.append(",");
    push_member(&mut out, "tick_rate_hz", tick_rate);
    out.append(",");
    push_member(&mut out, "status", "\"ok\"");
    out.append("}");
    assert(out@ =~= spec_status_json(*c, idle_ratio@, tick_rate@));
    out
}

} // verus!
