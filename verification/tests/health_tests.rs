use neuron_wire::health::{format_metrics, format_status, route_request, HealthRoute, MetricCounters};

#[test]
fn routes() {
    assert_eq!(route_request("GET /health HTTP/1.0\r\n"), HealthRoute::Health);
    assert_eq!(route_request("GET /metrics HTTP/1.1"), HealthRoute::Metrics);
    assert_eq!(route_request("GET /status HTTP/1.1"), HealthRoute::Status);
    assert_eq!(route_request("GET / HTTP/1.1"), HealthRoute::Dashboard);
    assert_eq!(route_request("GET /dashboard HTTP/1.1"), HealthRoute::Dashboard);
    assert_eq!(route_request("GET /healthz HTTP/1.1"), HealthRoute::NotFound);
    assert_eq!(route_request("POST /health HTTP/1.1"), HealthRoute::NotFound);
    assert_eq!(route_request(""), HealthRoute::NotFound);
}

#[test]
fn metrics_text() {
    let c = MetricCounters { total_ticks: 42, peer_count: 3, ephemeral_sessions: 1, ..Default::default() };
    let t = format_metrics(&c, "0.2500", "1000", "0.0060");
    assert!(t.starts_with(
        "# HELP nwp_engine_ticks Total engine ticks executed\n# TYPE nwp_engine_ticks counter\nnwp_engine_ticks 42\n"
    ));
    assert!(t.contains("nwp_peers 3\n"));
    assert!(t.contains("nwp_idle_ratio 0.2500\n"));
    assert!(t.contains("nwp_peer_capacity_ratio 0.0060\n"));
    assert!(t.ends_with("# TYPE nwp_ephemeral_sessions gauge\nnwp_ephemeral_sessions 1\n"));
    assert_eq!(t.matches("# HELP").count(), 24);
}

#[test]
fn status_json() {
    let c = MetricCounters { total_ticks: 7, packets_recv: 1, outbound_queue_depth: 2, ..Default::default() };
    let j = format_status(&c, "0.0000", "999");
    assert_eq!(
        j,
        "{\"total_ticks\":7,\"packets_recv\":1,\"packets_sent\":0,\"bytes_recv\":0,\"bytes_sent\":0,\"retransmissions\":0,\"peer_count\":0,\"outbound_queue_depth\":2,\"reliable_queue_depth\":0,\"idle_ratio\":0.0000,\"tick_rate_hz\":999,\"status\":\"ok\"}"
    );
}
