//! Node configuration values: defaults, the reading of override flags, and
//! the identity fingerprint shown at start-up.
//! Reading files and the environment is the application's part.

use vstd::prelude::*;

use crate::identity::NodeIdentity;
use crate::text::{hex2, push_hex2, str_eq};

verus! {

/// Default cap on connections from a single IP address.
pub fn default_per_ip_max_peers() -> (n: usize)
    ensures
        n == 10,
{
    10
}

/// Whether an override value switches a flag on: exactly `"true"` or `"1"`.
pub fn env_flag(v: &str) -> (on: bool)
    ensures
        on == (v@ == "true"@ || v@ == "1"@),
{
    str_eq(v, "true") || str_eq(v, "1")
}

/// The lowercase hex rendering of the first `n` bytes.
pub open spec fn hex_prefix(bytes: Seq<u8>, n: nat) -> Seq<char>
    decreases n,
{
    if n == 0 {
        Seq::empty()
    } else {
        hex_prefix(bytes, (n - 1) as nat) + hex2(bytes[n - 1])
    }
}

/// The short fingerprint of an identity: the first 8 bytes of its entity
/// id in lowercase hex.
pub fn identity_fingerprint(id: &NodeIdentity) -> (s: String)
    ensures
        s@ == hex_prefix(id.spec_entity(), 8),
{
    let eid = id.entity_id();
    let mut s = String::new();
    let mut i: usize = 0;
    while i < 8
        invariant
            i <= 8,
            eid.0@ == id.spec_entity(),
            s@ == hex_prefix(eid.0@, i as nat),
        decreases 8 - i,
    {
        push_hex2(&mut s, eid.0[i]);
        i = i + 1;
    }
    s
}

// ─── Overrides read from the environment ──────────────────────

/// Whether `c` has the Unicode White_Space property (what
/// `char::is_whitespace` tests).
pub open spec fn is_white_space(c: char) -> bool {
    let u = c as u32;
    ||| 0x09 <= u <= 0x0D
    ||| u == 0x20
    ||| u == 0x85
    ||| u == 0xA0
    ||| u == 0x1680
    ||| 0x2000 <= u <= 0x200A
    ||| u == 0x2028
    ||| u == 0x2029
    ||| u == 0x202F
    ||| u == 0x205F
    ||| u == 0x3000
}

/// Whether `c` is white space.
fn white_space(c: char) -> (b: bool)
    ensures
        b == is_white_space(c),
{
    let u: u32 = c as u32;
    (0x09 <= u && u <= 0x0D) || u == 0x20 || u == 0x85 || u == 0xA0 || u == 0x1680 || (0x2000 <= u
        && u <= 0x200A) || u == 0x2028 || u == 0x2029 || u == 0x202F || u == 0x205F || u == 0x3000
}

/// `s` without its leading white space.
pub open spec fn trim_start(s: Seq<char>) -> Seq<char>
    decreases s.len(),
{
    if s.len() > 0 && is_white_space(s[0]) {
        trim_start(s.drop_first())
    } else {
        s
    }
}

/// `s` without its trailing white space.
pub open spec fn trim_end(s: Seq<char>) -> Seq<char>
    decreases s.len(),
{
    if s.len() > 0 && is_white_space(s.last()) {
        trim_end(s.drop_last())
    } else {
        s
    }
}

/// `s` without leading and trailing white space.
pub open spec fn trim(s: Seq<char>) -> Seq<char> {
    trim_end(trim_start(s))
}

/// The pieces of `s` between the separators `sep` (one more piece than
/// separators; pieces may be empty).
pub open spec fn split_pieces(s: Seq<char>, sep: char) -> Seq<Seq<char>>
    decreases s.len(),
{
    if s.len() == 0 {
        seq![Seq::<char>::empty()]
    } else {
        let p = split_pieces(s.drop_last(), sep);
        if s.last() == sep {
            p.push(Seq::<char>::empty())
        } else {
            p.update(p.len() - 1, p.last().push(s.last()))
        }
    }
}

/// A comma-separated list: its pieces, trimmed, without the empty ones.
pub open spec fn spec_peer_list(s: Seq<char>) -> Seq<Seq<char>> {
    split_pieces(s, ',').map_values(|p: Seq<char>| trim(p)).filter(|p: Seq<char>| p.len() > 0)
}

/// Leading white space up to `i` is what `trim_start` removes.
proof fn lemma_trim_start_from(s: Seq<char>, i: int)
    requires
        0 <= i <= s.len(),
        forall|j: int| 0 <= j < i ==> is_white_space(s[j]),
    ensures
        trim_start(s) == trim_start(s.subrange(i, s.len() as int)),
    decreases i,
{
    if i > 0 {
        assert(s.len() > 0 && is_white_space(s[0]));
        let t = s.drop_first();
        lemma_trim_start_from(t, i - 1);
        assert(t.subrange(i - 1, t.len() as int) =~= s.subrange(i, s.len() as int));
    } else {
        assert(s.subrange(0, s.len() as int) =~= s);
    }
}

/// Trailing white space from `i` on is what `trim_end` removes.
proof fn lemma_trim_end_to(s: Seq<char>, i: int)
    requires
        0 <= i <= s.len(),
        forall|j: int| i <= j < s.len() ==> is_white_space(s[j]),
    ensures
        trim_end(s) == trim_end(s.subrange(0, i)),
    decreases s.len() - i,
{
    if i < s.len() {
        let t = s.drop_last();
        lemma_trim_end_to(t, i);
        assert(t.subrange(0, i) =~= s.subrange(0, i));
    } else {
        assert(s.subrange(0, i) =~= s);
    }
}

/// A piece with its leading and trailing white space removed.
fn trimmed(piece: &str) -> (t: String)
    ensures
        t@ == trim(piece@),
{
    let n: usize = piece.unicode_len();
    let mut lo: usize = 0;
    while lo < n && white_space(piece.get_char(lo))
        invariant
            n == piece@.len(),
            lo <= n,
            forall|j: int| 0 <= j < lo ==> is_white_space(piece@[j]),
        decreases n - lo,
    {
        lo = lo + 1;
    }
    let ghost rest = piece@.subrange(lo as int, n as int);
    proof {
        lemma_trim_start_from(piece@, lo as int);
        if rest.len() > 0 {
            assert(!is_white_space(rest[0]));
        }
    }
    let mut hi: usize = n;
    while hi > lo && white_space(piece.get_char(hi - 1))
        invariant
            n == piece@.len(),
            lo <= hi <= n,
            forall|j: int| hi <= j < n ==> is_white_space(piece@[j]),
        decreases hi,
    {
        hi = hi - 1;
    }
    proof {
        assert(trim_start(rest) == rest);
        lemma_trim_end_to(rest, hi - lo);
        let core = rest.subrange(0, hi - lo);
        if core.len() > 0 {
            assert(!is_white_space(core.last()));
        }
        assert(trim_end(core) == core);
    }
    let mut t = String::new();
    let mut k: usize = lo;
    while k < hi
        invariant
            n == piece@.len(),
            lo <= k <= hi <= n,
            t@ == piece@.subrange(lo as int, k as int),
        decreases hi - k,
    {
        t.push(piece.get_char(k));
        k = k + 1;
        assert(t@ =~= piece@.subrange(lo as int, k as int));
    }
    proof {
        assert(rest.subrange(0, hi - lo) =~= piece@.subrange(lo as int, hi as int));
    }
    t
}

/// Split a comma-separated list, trim each entry and drop the empty ones
/// (the bootstrap peer list given in the environment).
pub fn split_peer_list(v: &str) -> (list: Vec<String>)
    ensures
        list@.map_values(|s: String| s@) == spec_peer_list(v@),
{
    let ghost pred = |p: Seq<char>| p.len() > 0;
    let ghost tr = |p: Seq<char>| trim(p);
    let ghost sv = |s: String| s@;
    let n: usize = v.unicode_len();
    let mut out: Vec<String> = Vec::new();
    let mut cur = String::new();
    let mut i: usize = 0;
    while i < n
        invariant
            n == v@.len(),
            i <= n,
            pred == (|p: Seq<char>| p.len() > 0),
            tr == (|p: Seq<char>| trim(p)),
            sv == (|s: String| s@),
            split_pieces(v@.take(i as int), ',').len() >= 1,
            cur@ == split_pieces(v@.take(i as int), ',').last(),
            out@.map_values(sv) == split_pieces(v@.take(i as int), ',').drop_last().map_values(
                tr,
            ).filter(pred),
        decreases n - i,
    {
        let c: char = v.get_char(i);
        let ghost before = split_pieces(v@.take(i as int), ',');
        proof {
            assert(v@.take(i + 1).drop_last() =~= v@.take(i as int));
            assert(v@.take(i + 1).last() == c);
        }
        if c == ',' {
            let t = trimmed(cur.as_str());
            let ghost old_out = out@;
            proof {
                let after = split_pieces(v@.take(i + 1), ',');
                assert(after == before.push(Seq::<char>::empty()));
                assert(after.drop_last() =~= before);
                assert(before =~= before.drop_last().push(before.last()));
                before.drop_last().map_values(tr).lemma_filter_push(trim(before.last()), pred);
                assert(before.map_values(tr) =~= before.drop_last().map_values(tr).push(
                    trim(before.last()),
                ));
            }
            if t.unicode_len() > 0 {
                out.push(t);
                proof {
                    assert(out@.map_values(sv) =~= old_out.map_values(sv).push(t@));
                }
            }
            cur = String::new();
        } else {
            cur.push(c);
            proof {
                let after = split_pieces(v@.take(i + 1), ',');
                assert(after == before.update(before.len() - 1, before.last().push(c)));
                assert(after.drop_last() =~= before.drop_last());
            }
        }
        i = i + 1;
    }
    proof {
        assert(v@.take(n as int) =~= v@);
    }
    let t = trimmed(cur.as_str());
    let ghost ps = split_pieces(v@, ',');
    let ghost old_out = out@;
    proof {
        assert(ps =~= ps.drop_last().push(ps.last()));
        ps.drop_last().map_values(tr).lemma_filter_push(trim(ps.last()), pred);
        assert(ps.map_values(tr) =~= ps.drop_last().map_values(tr).push(trim(ps.last())));
    }
    if t.unicode_len() > 0 {
        out.push(t);
        proof {
            assert(out@.map_values(sv) =~= old_out.map_values(sv).push(t@));
        }
    }
    out
}

/// Whether `c` is an ASCII decimal digit.
pub open spec fn is_digit(c: char) -> bool {
    '0' <= c <= '9'
}

/// The value of a string of decimal digits.
pub open spec fn digits_value(s: Seq<char>) -> nat
    decreases s.len(),
{
    if s.len() == 0 {
        0
    } else {
        digits_value(s.drop_last()) * 10 + ((s.last() as u32) - 48) as nat
    }
}

/// `s` without one leading `+`.
pub open spec fn unsigned_part(s: Seq<char>) -> Seq<char> {
    if s.len() > 0 && s[0] == '+' {
        s.drop_first()
    } else {
        s
    }
}

/// Whether every character of `d` is a digit.
pub open spec fn all_digits(d: Seq<char>) -> bool {
    forall|i: int| 0 <= i < d.len() ==> is_digit(#[trigger] d[i])
}

/// What parsing a `u64` in decimal gives: an optional `+`, then one or
/// more digits whose value fits; anything else is refused.
pub open spec fn spec_parse_u64(s: Seq<char>) -> Option<u64> {
    let d = unsigned_part(s);
    if d.len() > 0 && all_digits(d) && digits_value(d) <= u64::MAX {
        Some(digits_value(d) as u64)
    } else {
        None
    }
}

/// More digits never make a smaller value.
proof fn lemma_digits_grow(d: Seq<char>, k: int)
    requires
        0 <= k <= d.len(),
        forall|i: int| 0 <= i < d.len() ==> is_digit(#[trigger] d[i]),
    ensures
        digits_value(d) >= digits_value(d.take(k)),
    decreases d.len() - k,
{
    if k < d.len() {
        lemma_digits_grow(d, k + 1);
        assert(d.take(k + 1).drop_last() =~= d.take(k));
    } else {
        assert(d.take(k) =~= d);
    }
}

/// Parse a `u64` written in decimal (see [`spec_parse_u64`]), as the
/// numeric overrides of the environment are read.
pub fn parse_u64(s: &str) -> (r: Option<u64>)
    ensures
        r == spec_parse_u64(s@),
{
    let n: usize = s.unicode_len();
    let mut start: usize = 0;
    if n > 0 && s.get_char(0) == '+' {
        start = 1;
    }
    let ghost d = unsigned_part(s@);
    proof {
        assert(d =~= s@.subrange(start as int, n as int));
    }
    if start >= n {
        return None;
    }
    let mut acc: u64 = 0;
    let mut i: usize = start;
    while i < n
        invariant
            n == s@.len(),
            start <= i <= n,
            start < n,
            d == s@.subrange(start as int, n as int),
            d == unsigned_part(s@),
            forall|j: int| 0 <= j < i - start ==> is_digit(#[trigger] d[j]),
            acc == digits_value(d.take(i - start)),
        decreases n - i,
    {
        let c: char = s.get_char(i);
        if !('0' <= c && c <= '9') {
            proof {
                assert(d[i - start] == c);
                assert(!is_digit(d[i - start]));
                assert(!all_digits(d));
            }
            return None;
        }
        let digit: u64 = (c as u32 - 48) as u64;
        proof {
            assert(d.take(i - start + 1).drop_last() =~= d.take(i - start));
            assert(d.take(i - start + 1).last() == c);
        }
        match acc.checked_mul(10) {
            None => {
                proof {
                    if all_digits(d) {
                        lemma_digits_grow(d, i - start + 1);
                    }
                }
                return None;
            },
            Some(m) => match m.checked_add(digit) {
                None => {
                    proof {
                        if all_digits(d) {
                            lemma_digits_grow(d, i - start + 1);
                        }
                    }
                    return None;
                },
                Some(v) => {
                    acc = v;
                },
            },
        }
        i = i + 1;
    }
    proof {
        assert(d.take(n - start) =~= d);
    }
    Some(acc)
}

// ─── Command line ──────────────────────────────────────────────

/// What the node does after reading its command line.
#[derive(Debug, Clone, Copy, PartialEq, Eq, Structural)]
pub enum CliAction {
    /// Start the node.
    Run,
    /// Print the version and exit.
    PrintVersion,
    /// Print the usage and exit.
    PrintHelp,
}

/// A remark about the command line, printed as a warning.
#[derive(Debug, Clone, PartialEq, Eq)]
pub enum CliNote {
    /// `--config` came last, without a value.
    MissingConfigValue,
    /// `--identity` came last, without a value.
    MissingIdentityValue,
    /// An argument that is not an option.
    UnknownArgument(String),
}

/// A remark as plain values: its kind (0, 1, 2 in the order above) and
/// the argument it is about.
pub open spec fn note_view(n: CliNote) -> (u8, Seq<char>) {
    match n {
        CliNote::MissingConfigValue => (0u8, Seq::empty()),
        CliNote::MissingIdentityValue => (1u8, Seq::empty()),
        CliNote::UnknownArgument(a) => (2u8, a@),
    }
}

/// The outcome of reading the command line: configuration path, identity
/// path, what to do, and the remarks made on the way.
#[derive(Debug)]
pub struct CliOutcome {
    /// Path of the configuration file.
    pub config: String,
    /// Path of the identity key file.
    pub identity: String,
    /// What to do.
    pub action: CliAction,
    /// Remarks, in argument order.
    pub notes: Vec<CliNote>,
}

/// The outcome as plain values.
pub type CliView = (Seq<char>, Seq<char>, CliAction, Seq<(u8, Seq<char>)>);

/// Reading the arguments from `i` on, in state `st`: `--config` and
/// `--identity` take the next argument as their value (or note that it is
/// missing); `--version`/`-v` and `--help`/`-h` end the reading; anything
/// else is noted as unknown.
pub open spec fn spec_cli(args: Seq<Seq<char>>, i: int, st: CliView) -> CliView
    decreases args.len() - i,
{
    if i < 0 || i >= args.len() {
        st
    } else {
        let a = args[i];
        if a == "--config"@ {
            if i + 1 < args.len() {
                spec_cli(args, i + 2, (args[i + 1], st.1, st.2, st.3))
            } else {
                spec_cli(args, i + 1, (st.0, st.1, st.2, st.3.push((0u8, Seq::empty()))))
            }
        } else if a == "--identity"@ {
            if i + 1 < args.len() {
                spec_cli(args, i + 2, (st.0, args[i + 1], st.2, st.3))
            } else {
                spec_cli(args, i + 1, (st.0, st.1, st.2, st.3.push((1u8, Seq::empty()))))
            }
        } else if a == "--version"@ || a == "-v"@ {
            (st.0, st.1, CliAction::PrintVersion, st.3)
        } else if a == "--help"@ || a == "-h"@ {
            (st.0, st.1, CliAction::PrintHelp, st.3)
        } else {
            spec_cli(args, i + 1, (st.0, st.1, st.2, st.3.push((2u8, a))))
        }
    }
}

/// The view of an outcome.
pub open spec fn cli_view(o: CliOutcome) -> CliView {
    (o.config@, o.identity@, o.action, o.notes@.map_values(|n: CliNote| note_view(n)))
}

/// Read the command line (the arguments after the program name), starting
/// from `node-config.toml` and `identity.key` (see [`spec_cli`]).
pub fn parse_cli_args(args: &[String]) -> (o: CliOutcome)
    ensures
        cli_view(o) == spec_cli(
            args@.map_values(|a: String| a@),
            0,
            ("node-config.toml"@, "identity.key"@, CliAction::Run, Seq::empty()),
        ),
{
    let ghost av = args@.map_values(|a: String| a@);
    let ghost nv = |n: CliNote| note_view(n);
    let mut config = String::from_str("node-config.toml");
    let mut identity = String::from_str("identity.key");
    let mut notes: Vec<CliNote> = Vec::new();
    let ghost init: CliView = ("node-config.toml"@, "identity.key"@, CliAction::Run, Seq::empty());
    proof {
        assert(notes@.map_values(nv) =~= Seq::<(u8, Seq<char>)>::empty());
    }
    let n: usize = args.len();
    let mut i: usize = 0;
    while i < n
        invariant
            n == args@.len(),
            av == args@.map_values(|a: String| a@),
            nv == (|n: CliNote| note_view(n)),
            init == ("node-config.toml"@, "identity.key"@, CliAction::Run, Seq::<
                (u8, Seq<char>),
            >::empty()),
            i <= n,
            spec_cli(av, 0, init) == spec_cli(
                av,
                i as int,
                (config@, identity@, CliAction::Run, notes@.map_values(nv)),
            ),
        decreases n - i,
    {
        let a: &str = args[i].as_str();
        proof {
            assert(av[i as int] == a@);
        }
        let ghost old_notes = notes@;
        if str_eq(a, "--config") {
            if i + 1 < n {
                config = args[i + 1].clone();
                proof {
                    assert(av[i + 1] == config@);
                }
                i = i + 2;
            } else {
                notes.push(CliNote::MissingConfigValue);
                proof {
                    assert(notes@.map_values(nv) =~= old_notes.map_values(nv).push(
                        (0u8, Seq::empty()),
                    ));
                }
                i = i + 1;
            }
        } else if str_eq(a, "--identity") {
            if i + 1 < n {
                identity = args[i + 1].clone();
                proof {
                    assert(av[i + 1] == identity@);
                }
                i = i + 2;
            } else {
                notes.push(CliNote::MissingIdentityValue);
                proof {
                    assert(notes@.map_values(nv) =~= old_notes.map_values(nv).push(
                        (1u8, Seq::empty()),
                    ));
                }
                i = i + 1;
            }
        } else if str_eq(a, "--version") || str_eq(a, "-v") {
            let o = CliOutcome { config, identity, action: CliAction::PrintVersion, notes };
            proof {
                assert(o.notes@.map_values(|n: CliNote| note_view(n)) =~= old_notes.map_values(nv));
            }
            return o;
        } else if str_eq(a, "--help") || str_eq(a, "-h") {
            let o = CliOutcome { config, identity, action: CliAction::PrintHelp, notes };
            proof {
                assert(o.notes@.map_values(|n: CliNote| note_view(n)) =~= old_notes.map_values(nv));
            }
            return o;
        } else {
            let s = String::from_str(a);
            notes.push(CliNote::UnknownArgument(s));
            proof {
                assert(notes@.map_values(nv) =~= old_notes.map_values(nv).push((2u8, a@)));
            }
            i = i + 1;
        }
    }
    let o = CliOutcome { config, identity, action: CliAction::Run, notes };
    proof {
        assert(o.notes@.map_values(|n: CliNote| note_view(n)) =~= o.notes@.map_values(nv));
    }
    o
}

// ─── Configuration checks ──────────────────────────────────────

/// A questionable setting, reported at start-up.
#[derive(Debug, Clone, Copy, PartialEq, Eq, Structural)]
pub enum ConfigWarning {
    /// The bind address does not parse as a socket address.
    InvalidBindAddr,
    /// A zero tick interval busy-loops.
    BusyLoop,
    /// A tick interval above a second slows the node's responses.
    SlowTick(u64),
    /// A zero retransmit interval is clamped to 1 ms.
    RetransmitClamped(u64),
    /// A non-positive half-life makes every weight decay at once.
    InstantDecay,
    /// STUN goes through the public default server.
    DefaultStunServer,
    /// Packets are not signed.
    SigningDisabled,
    /// The DHT is on but no bootstrap peer is configured.
    IsolatedDht,
}

/// A warning when `c` holds, nothing otherwise.
pub open spec fn warn_if(c: bool, w: ConfigWarning) -> Seq<ConfigWarning> {
    if c {
        seq![w]
    } else {
        Seq::empty()
    }
}

/// The warning about the tick interval, if any.
pub open spec fn tick_warning(tick_interval_ms: u64) -> Seq<ConfigWarning> {
    if tick_interval_ms == 0 {
        seq![ConfigWarning::BusyLoop]
    } else if tick_interval_ms > 1000 {
        seq![ConfigWarning::SlowTick(tick_interval_ms)]
    } else {
        Seq::empty()
    }
}

/// The warnings for a configuration, in the order they are checked.
pub open spec fn spec_config_warnings(
    bind_addr_ok: bool,
    tick_interval_ms: u64,
    retransmit_interval_ms: u64,
    half_life_positive: bool,
    stun_enabled: bool,
    stun_server: Seq<char>,
    sign_packets: bool,
    dht_enabled: bool,
    bootstrap_peer_count: usize,
) -> Seq<ConfigWarning> {
    warn_if(!bind_addr_ok, ConfigWarning::InvalidBindAddr) + tick_warning(tick_interval_ms)
        + warn_if(
        retransmit_interval_ms < 1,
        ConfigWarning::RetransmitClamped(retransmit_interval_ms),
    ) + warn_if(!half_life_positive, ConfigWarning::InstantDecay) + warn_if(
        stun_enabled && stun_server == "stun.l.google.com:19302"@,
        ConfigWarning::DefaultStunServer,
    ) + warn_if(!sign_packets, ConfigWarning::SigningDisabled) + warn_if(
        dht_enabled && bootstrap_peer_count == 0,
        ConfigWarning::IsolatedDht,
    )
}

/// Append `x` when `c` holds.
fn push_if(w: &mut Vec<ConfigWarning>, c: bool, x: ConfigWarning)
    ensures
        final(w)@ == old(w)@ + warn_if(c, x),
{
    if c {
        w.push(x);
    }
    assert(w@ =~= old(w)@ + warn_if(c, x));
}

/// Check a configuration (see [`spec_config_warnings`]). Whether the bind
/// address parses and whether the half-life is positive are decided by
/// the caller.
pub fn config_warnings(
    bind_addr_ok: bool,
    tick_interval_ms: u64,
    retransmit_interval_ms: u64,
    half_life_positive: bool,
    stun_enabled: bool,
    stun_server: &str,
    sign_packets: bool,
    dht_enabled: bool,
    bootstrap_peer_count: usize,
) -> (w: Vec<ConfigWarning>)
    ensures
        w@ == spec_config_warnings(
            bind_addr_ok,
            tick_interval_ms,
            retransmit_interval_ms,
            half_life_positive,
            stun_enabled,
            stun_server@,
            sign_packets,
            dht_enabled,
            bootstrap_peer_count,
        ),
{
    let mut w: Vec<ConfigWarning> = Vec::new();
    push_if(&mut w, !bind_addr_ok, ConfigWarning::InvalidBindAddr);
    assert(w@ =~= warn_if(!bind_addr_ok, ConfigWarning::InvalidBindAddr));
    if tick_interval_ms == 0 {
        push_if(&mut w, true, ConfigWarning::BusyLoop);
    } else {
        push_if(&mut w, tick_interval_ms > 1000, ConfigWarning::SlowTick(tick_interval_ms));
    }
    push_if(
        &mut w,
        retransmit_interval_ms < 1,
        ConfigWarning::RetransmitClamped(retransmit_interval_ms),
    );
    push_if(&mut w, !half_life_positive, ConfigWarning::InstantDecay);
    let default_stun: bool = stun_enabled && str_eq(stun_server, "stun.l.google.com:19302");
    push_if(&mut w, default_stun, ConfigWarning::DefaultStunServer);
    push_if(&mut w, !sign_packets, ConfigWarning::SigningDisabled);
    push_if(&mut w, dht_enabled && bootstrap_peer_count == 0, ConfigWarning::IsolatedDht);
    w
}

} // verus!
