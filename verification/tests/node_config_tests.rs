use neuron_wire::forgetting_bench::{TaskSequence, TaskSpec};
use neuron_wire::identity::NodeIdentity;
use neuron_wire::node_config::{
    config_warnings, default_per_ip_max_peers, env_flag, identity_fingerprint, parse_cli_args,
    parse_u64, split_peer_list, CliAction, CliNote, ConfigWarning,
};

#[test]
fn defaults_and_flags() {
    assert_eq!(default_per_ip_max_peers(), 10);
    assert!(env_flag("true"));
    assert!(env_flag("1"));
    assert!(!env_flag("TRUE"));
    assert!(!env_flag("yes"));
    assert!(!env_flag(""));
}

#[test]
fn fingerprint_is_first_eight_id_bytes_in_hex() {
    let id = NodeIdentity::from_seed(&[1u8; 32]);
    let e = id.entity_id();
    let fp = identity_fingerprint(&id);
    let expected: String = e.0[..8].iter().map(|b| format!("{b:02x}")).collect();
    assert_eq!(fp, expected);
    assert_eq!(fp.len(), 16);
}

#[test]
fn task_sequences_hold_their_tasks() {
    let seq = TaskSequence {
        name: "Permuted".to_string(),
        tasks: vec![TaskSpec { id: 0, name: "t0".to_string(), n_train: 100, n_test: 50 }],
    };
    let copy = seq.clone();
    assert_eq!(copy.tasks.len(), 1);
    assert_eq!(copy.tasks[0].n_train, 100);
    assert_eq!(copy.name, "Permuted");
}

#[test]
fn peer_list_is_split_trimmed_and_filtered() {
    assert_eq!(
        split_peer_list(" 1.2.3.4:9000 , ,seed.example:9000,\t"),
        vec!["1.2.3.4:9000".to_string(), "seed.example:9000".to_string()]
    );
    assert!(split_peer_list("").is_empty());
    assert!(split_peer_list(" , ,").is_empty());
    assert_eq!(split_peer_list("a\u{3000}"), vec!["a".to_string()]);
    assert_eq!(split_peer_list("x y"), vec!["x y".to_string()]);
}

#[test]
fn decimal_parsing_matches_std() {
    for s in ["0", "42", "+7", "18446744073709551615", "18446744073709551616", "", "+", "-1", " 1", "1a", "007"] {
        assert_eq!(parse_u64(s), s.parse::<u64>().ok(), "input {:?}", s);
    }
}

#[test]
fn command_line_options() {
    let args = |v: &[&str]| v.iter().map(|s| s.to_string()).collect::<Vec<String>>();
    let o = parse_cli_args(&args(&[]));
    assert_eq!(o.config, "node-config.toml");
    assert_eq!(o.identity, "identity.key");
    assert_eq!(o.action, CliAction::Run);
    assert!(o.notes.is_empty());

    let o = parse_cli_args(&args(&["--config", "a.toml", "--bogus", "--identity", "k.key"]));
    assert_eq!(o.config, "a.toml");
    assert_eq!(o.identity, "k.key");
    assert_eq!(o.notes, vec![CliNote::UnknownArgument("--bogus".to_string())]);

    let o = parse_cli_args(&args(&["--identity"]));
    assert_eq!(o.identity, "identity.key");
    assert_eq!(o.notes, vec![CliNote::MissingIdentityValue]);

    let o = parse_cli_args(&args(&["x", "-v", "--config", "c"]));
    assert_eq!(o.action, CliAction::PrintVersion);
    assert_eq!(o.config, "node-config.toml");
    assert_eq!(o.notes, vec![CliNote::UnknownArgument("x".to_string())]);

    assert_eq!(parse_cli_args(&args(&["-h"])).action, CliAction::PrintHelp);
}

#[test]
fn configuration_warnings_in_order() {
    assert!(config_warnings(true, 1, 10, true, false, "stun.l.google.com:19302", true, true, 2)
        .is_empty());
    assert_eq!(
        config_warnings(false, 0, 0, false, true, "stun.l.google.com:19302", false, true, 0),
        vec![
            ConfigWarning::InvalidBindAddr,
            ConfigWarning::BusyLoop,
            ConfigWarning::RetransmitClamped(0),
            ConfigWarning::InstantDecay,
            ConfigWarning::DefaultStunServer,
            ConfigWarning::SigningDisabled,
            ConfigWarning::IsolatedDht,
        ]
    );
    assert_eq!(
        config_warnings(true, 1500, 5, true, true, "stun.example.org:3478", true, false, 0),
        vec![ConfigWarning::SlowTick(1500)]
    );
}
