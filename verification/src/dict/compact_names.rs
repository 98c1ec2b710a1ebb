//! Compact u16 codes for common neuron names.

use vstd::prelude::*;

use crate::text::str_eq;

verus! {

/// The code of each known name; `None` for any other name.
pub open spec fn spec_name_to_code(name: Seq<char>) -> Option<u16> {
    if name == "sensory"@ {
        Some(1u16)
    } else if name == "language"@ {
        Some(2u16)
    } else if name == "reasoning"@ {
        Some(3u16)
    } else if name == "memory"@ {
        Some(4u16)
    } else if name == "motor"@ {
        Some(5u16)
    } else if name == "visual"@ {
        Some(6u16)
    } else if name == "audio"@ {
        Some(7u16)
    } else if name == "executive"@ {
        Some(8u16)
    } else if name == "command_brain"@ {
        Some(9u16)
    } else {
        None
    }
}

/// The name of each code 1..=9; `"unknown"` for any other code.
pub open spec fn spec_code_to_name(code: u16) -> Seq<char> {
    if code == 1 {
        "sensory"@
    } else if code == 2 {
        "language"@
    } else if code == 3 {
        "reasoning"@
    } else if code == 4 {
        "memory"@
    } else if code == 5 {
        "motor"@
    } else if code == 6 {
        "visual"@
    } else if code == 7 {
        "audio"@
    } else if code == 8 {
        "executive"@
    } else if code == 9 {
        "command_brain"@
    } else {
        "unknown"@
    }
}

/// Encode a common neuron name to its u16 code.
pub fn name_to_code(name: &str) -> (r: Option<u16>)
    ensures
        r == spec_name_to_code(name@),
{
    if str_eq(name, "sensory") {
        Some(1)
    } else if str_eq(name, "language") {
        Some(2)
    } else if str_eq(name, "reasoning") {
        Some(3)
    } else if str_eq(name, "memory") {
        Some(4)
    } else if str_eq(name, "motor") {
        Some(5)
    } else if str_eq(name, "visual") {
        Some(6)
    } else if str_eq(name, "audio") {
        Some(7)
    } else if str_eq(name, "executive") {
        Some(8)
    } else if str_eq(name, "command_brain") {
        Some(9)
    } else {
        None
    }
}

/// Decode a u16 code back to its name.
pub fn code_to_name(code: u16) -> (s: &'static str)
    ensures
        s@ == spec_code_to_name(code),
{
    match code {
        1 => "sensory",
        2 => "language",
        3 => "reasoning",
        4 => "memory",
        5 => "motor",
        6 => "visual",
        7 => "audio",
        8 => "executive",
        9 => "command_brain",
        _ => "unknown",
    }
}

/// Law: the codes 1 to 9 and their names are mutual inverses; every
/// other code is named `"unknown"`, which is not a name with a code; and a
/// name that has a code is that code's name.
pub proof fn lemma_codes_roundtrip(c: u16, name: Seq<char>)
    ensures
        1 <= c <= 9 ==> spec_name_to_code(spec_code_to_name(c)) == Some(c),
        c == 0 || c > 9 ==> spec_code_to_name(c) == "unknown"@,
        spec_name_to_code("unknown"@) is None,
        spec_name_to_code(name) matches Some(k) ==> spec_code_to_name(k) == name,
{
    reveal_strlit("sensory");
    reveal_strlit("language");
    reveal_strlit("reasoning");
    reveal_strlit("memory");
    reveal_strlit("motor");
    reveal_strlit("visual");
    reveal_strlit("audio");
    reveal_strlit("executive");
    reveal_strlit("command_brain");
    reveal_strlit("unknown");
    assert("sensory"@[0] != "unknown"@[0]);
    assert("language"@ != "sensory"@) by { assert("language"@.len() != "sensory"@.len() || "language"@[0] != "sensory"@[0]); }
    assert("reasoning"@ != "sensory"@) by { assert("reasoning"@.len() != "sensory"@.len() || "reasoning"@[0] != "sensory"@[0]); }
    assert("reasoning"@ != "language"@) by { assert("reasoning"@.len() != "language"@.len() || "reasoning"@[0] != "language"@[0]); }
    assert("memory"@ != "sensory"@) by { assert("memory"@.len() != "sensory"@.len() || "memory"@[0] != "sensory"@[0]); }
    assert("memory"@ != "language"@) by { assert("memory"@.len() != "language"@.len() || "memory"@[0] != "language"@[0]); }
    assert("memory"@ != "reasoning"@) by { assert("memory"@.len() != "reasoning"@.len() || "memory"@[0] != "reasoning"@[0]); }
    assert("motor"@ != "sensory"@) by { assert("motor"@.len() != "sensory"@.len() || "motor"@[0] != "sensory"@[0]); }
    assert("motor"@ != "language"@) by { assert("motor"@.len() != "language"@.len() || "motor"@[0] != "language"@[0]); }
    assert("motor"@ != "reasoning"@) by { assert("motor"@.len() != "reasoning"@.len() || "motor"@[0] != "reasoning"@[0]); }
    assert("motor"@ != "memory"@) by { assert("motor"@.len() != "memory"@.len() || "motor"@[0] != "memory"@[0]); }
    assert("visual"@ != "sensory"@) by { assert("visual"@.len() != "sensory"@.len() || "visual"@[0] != "sensory"@[0]); }
    assert("visual"@ != "language"@) by { assert("visual"@.len() != "language"@.len() || "visual"@[0] != "language"@[0]); }
    assert("visual"@ != "reasoning"@) by { assert("visual"@.len() != "reasoning"@.len() || "visual"@[0] != "reasoning"@[0]); }
    assert("visual"@ != "memory"@) by { assert("visual"@.len() != "memory"@.len() || "visual"@[0] != "memory"@[0]); }
    assert("visual"@ != "motor"@) by { assert("visual"@.len() != "motor"@.len() || "visual"@[0] != "motor"@[0]); }
    assert("audio"@ != "sensory"@) by { assert("audio"@.len() != "sensory"@.len() || "audio"@[0] != "sensory"@[0]); }
    assert("audio"@ != "language"@) by { assert("audio"@.len() != "language"@.len() || "audio"@[0] != "language"@[0]); }
    assert("audio"@ != "reasoning"@) by { assert("audio"@.len() != "reasoning"@.len() || "audio"@[0] != "reasoning"@[0]); }
    assert("audio"@ != "memory"@) by { assert("audio"@.len() != "memory"@.len() || "audio"@[0] != "memory"@[0]); }
    assert("audio"@ != "motor"@) by { assert("audio"@.len() != "motor"@.len() || "audio"@[0] != "motor"@[0]); }
    assert("audio"@ != "visual"@) by { assert("audio"@.len() != "visual"@.len() || "audio"@[0] != "visual"@[0]); }
    assert("executive"@ != "sensory"@) by { assert("executive"@.len() != "sensory"@.len() || "executive"@[0] != "sensory"@[0]); }
    assert("executive"@ != "language"@) by { assert("executive"@.len() != "language"@.len() || "executive"@[0] != "language"@[0]); }
    assert("executive"@ != "reasoning"@) by { assert("executive"@.len() != "reasoning"@.len() || "executive"@[0] != "reasoning"@[0]); }
    assert("executive"@ != "memory"@) by { assert("executive"@.len() != "memory"@.len() || "executive"@[0] != "memory"@[0]); }
    assert("executive"@ != "motor"@) by { assert("executive"@.len() != "motor"@.len() || "executive"@[0] != "motor"@[0]); }
    assert("executive"@ != "visual"@) by { assert("executive"@.len() != "visual"@.len() || "executive"@[0] != "visual"@[0]); }
    assert("executive"@ != "audio"@) by { assert("executive"@.len() != "audio"@.len() || "executive"@[0] != "audio"@[0]); }
    assert("command_brain"@ != "sensory"@) by { assert("command_brain"@.len() != "sensory"@.len() || "command_brain"@[0] != "sensory"@[0]); }
    assert("command_brain"@ != "language"@) by { assert("command_brain"@.len() != "language"@.len() || "command_brain"@[0] != "language"@[0]); }
    assert("command_brain"@ != "reasoning"@) by { assert("command_brain"@.len() != "reasoning"@.len() || "command_brain"@[0] != "reasoning"@[0]); }
    assert("command_brain"@ != "memory"@) by { assert("command_brain"@.len() != "memory"@.len() || "command_brain"@[0] != "memory"@[0]); }
    assert("command_brain"@ != "motor"@) by { assert("command_brain"@.len() != "motor"@.len() || "command_brain"@[0] != "motor"@[0]); }
    assert("command_brain"@ != "visual"@) by { assert("command_brain"@.len() != "visual"@.len() || "command_brain"@[0] != "visual"@[0]); }
    assert("command_brain"@ != "audio"@) by { assert("command_brain"@.len() != "audio"@.len() || "command_brain"@[0] != "audio"@[0]); }
    assert("command_brain"@ != "executive"@) by { assert("command_brain"@.len() != "executive"@.len() || "command_brain"@[0] != "executive"@[0]); }
}

} // verus!
