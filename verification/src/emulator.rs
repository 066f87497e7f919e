//! Driving Renode through its monitor: the commands that set up the
//! emulated SF32LB52, load the firmware and start it, the checks made on
//! their answers, and the reading of Renode's own log lines.

use vstd::prelude::*;

use crate::logfmt::LogLevel;
use crate::monitor::{trim, trim_start, EmulatorError};
use crate::stacktrace::{find_chars, find_first, lemma_first_occurrence, occurs_at};
use crate::text::{push_char, push_decimal, push_str, str_chars};

verus! {

/// The peripheral models loaded before the platform, in order.
pub open spec fn spec_models() -> Seq<Seq<char>> {
    seq![
        "SSD1312.cs"@,
        "SF32LB52_RTC.cs"@,
        "SF32LB52_SDMMC.cs"@,
        "SF32LB52_MPI.cs"@,
        "SF32LB52_HPSYS_RCC.cs"@,
        "SF32LB52_HPSYS_AON.cs"@,
    ]
}

/// The peripheral models loaded before the platform, in order.
pub fn models() -> (r: Vec<&'static str>)
    ensures
        r@.len() == 6,
        forall|i: int| 0 <= i < 6 ==> (#[trigger] r@[i])@ == spec_models()[i],
{
    let r = vec![
        "SSD1312.cs",
        "SF32LB52_RTC.cs",
        "SF32LB52_SDMMC.cs",
        "SF32LB52_MPI.cs",
        "SF32LB52_HPSYS_RCC.cs",
        "SF32LB52_HPSYS_AON.cs",
    ];
    r
}

/// File name the platform description is written to.
pub open spec fn platform_file() -> Seq<char> {
    "sf32lb52.repl"@
}

/// A path as Renode reads it: backslashes turned into slashes.
pub open spec fn renode_path(p: Seq<char>) -> Seq<char> {
    crate::stacktrace::slashed(p)
}

/// A path as Renode reads it: backslashes turned into slashes.
pub fn to_renode_path(p: &str) -> (r: String)
    ensures
        r@ == renode_path(p@),
{
    let cs = str_chars(p);
    let mut out = String::new();
    let mut i: usize = 0;
    while i < cs.len()
        invariant
            i <= cs@.len(),
            cs@ == p@,
            out@ =~= renode_path(cs@.subrange(0, i as int)),
        decreases cs.len() - i,
    {
        let c = cs[i];
        push_char(&mut out, if c == '\\' { '/' } else { c });
        i += 1;
    }
    assert(cs@.subrange(0, i as int) =~= cs@);
    out
}

/// `i @<assets>/<model>`: load a peripheral model.
pub fn load_model_command(assets: &str, model: &str) -> (r: String)
    ensures
        r@ == "i @"@ + assets@ + "/"@ + model@,
{
    let mut out = String::new();
    push_str(&mut out, "i @");
    push_str(&mut out, assets);
    push_str(&mut out, "/");
    push_str(&mut out, model);
    assert(out@ =~= "i @"@ + assets@ + "/"@ + model@);
    out
}

/// The text contains `needle`.
pub open spec fn contains_text(s: Seq<char>, needle: Seq<char>) -> bool {
    find_first(s, needle) is Some
}

/// Loading a model failed when its answer is not empty and mentions an
/// error: the error names the model and carries the answer.
pub fn model_load_error(model: &str, resp: &str) -> (r: Option<EmulatorError>)
    ensures
        (resp@.len() > 0 && contains_text(resp@, "error"@)) ==> (r matches Some(EmulatorError::MonitorCommand(m))
            && m@ == "loading "@ + model@ + ": "@ + resp@),
        !(resp@.len() > 0 && contains_text(resp@, "error"@)) ==> r is None,
{
    let cs = str_chars(resp);
    let needle = str_chars("error");
    if cs.len() > 0 && find_chars(&cs, &needle).is_some() {
        let mut m = String::new();
        push_str(&mut m, "loading ");
        push_str(&mut m, model);
        push_str(&mut m, ": ");
        push_str(&mut m, resp);
        assert(m@ =~= "loading "@ + model@ + ": "@ + resp@);
        Some(EmulatorError::MonitorCommand(m))
    } else {
        None
    }
}

/// The command that creates the machine.
pub open spec fn mach_create_command() -> Seq<char> {
    "mach create \"sf32lb52\""@
}

/// `machine LoadPlatformDescription @<assets>/sf32lb52.repl`.
pub fn platform_command(assets: &str) -> (r: String)
    ensures
        r@ == "machine LoadPlatformDescription @"@ + assets@ + "/"@ + platform_file(),
{
    let mut out = String::new();
    push_str(&mut out, "machine LoadPlatformDescription @");
    push_str(&mut out, assets);
    push_str(&mut out, "/");
    push_str(&mut out, "sf32lb52.repl");
    assert(out@ =~= "machine LoadPlatformDescription @"@ + assets@ + "/"@ + platform_file());
    out
}

/// Loading the platform failed when Renode answered anything at all.
pub fn platform_error(resp: String) -> (r: Option<EmulatorError>)
    ensures
        resp@.len() > 0 ==> (r matches Some(EmulatorError::MonitorCommand(m)) && m@ == resp@),
        resp@.len() == 0 ==> r is None,
{
    if str_chars(resp.as_str()).len() > 0 {
        Some(EmulatorError::MonitorCommand(resp))
    } else {
        None
    }
}

/// `emulation CreateServerSocketTerminal <port> "<name>" false`.
pub open spec fn terminal_command(port: u16, name: Seq<char>) -> Seq<char> {
    "emulation CreateServerSocketTerminal "@ + crate::text::decimal(port as nat) + " \""@ + name + "\" false"@
}

/// The commands, in order, that attach the three USARTs to socket
/// terminals on the given ports, raise their log level and enable the
/// transmitters of USART1 and USART2.
pub open spec fn spec_wiring_commands(usart1: u16, usart2: u16, usart3: u16) -> Seq<Seq<char>> {
    seq![
        terminal_command(usart1, "usart1_term"@),
        "connector Connect usart1 usart1_term"@,
        terminal_command(usart2, "usart2_term"@),
        "connector Connect usart2 usart2_term"@,
        terminal_command(usart3, "usart3_term"@),
        "connector Connect usart3 usart3_term"@,
        "logLevel 3 nvic"@,
        "logLevel 3 usart1"@,
        "logLevel 3 usart2"@,
        "usart1 WriteDoubleWord 0x0 0x9"@,
        "usart2 WriteDoubleWord 0x0 0x9"@,
    ]
}

fn terminal(port: u16, name: &str) -> (r: String)
    ensures
        r@ == terminal_command(port, name@),
{
    let mut out = String::new();
    push_str(&mut out, "emulation CreateServerSocketTerminal ");
    push_decimal(&mut out, port as u64);
    push_str(&mut out, " \"");
    push_str(&mut out, name);
    push_str(&mut out, "\" false");
    assert(out@ =~= terminal_command(port, name@));
    out
}

fn owned(s: &str) -> (r: String)
    ensures
        r@ == s@,
{
    let mut out = String::new();
    push_str(&mut out, s);
    assert(out@ =~= s@);
    out
}

/// The commands that wire up the USARTs (see `spec_wiring_commands`).
pub fn wiring_commands(usart1: u16, usart2: u16, usart3: u16) -> (r: Vec<String>)
    ensures
        r@.len() == 11,
        forall|i: int| 0 <= i < 11 ==> (#[trigger] r@[i])@ == spec_wiring_commands(usart1, usart2, usart3)[i],
{
    let mut v: Vec<String> = Vec::new();
    v.push(terminal(usart1, "usart1_term"));
    v.push(owned("connector Connect usart1 usart1_term"));
    v.push(terminal(usart2, "usart2_term"));
    v.push(owned("connector Connect usart2 usart2_term"));
    v.push(terminal(usart3, "usart3_term"));
    v.push(owned("connector Connect usart3 usart3_term"));
    v.push(owned("logLevel 3 nvic"));
    v.push(owned("logLevel 3 usart1"));
    v.push(owned("logLevel 3 usart2"));
    v.push(owned("usart1 WriteDoubleWord 0x0 0x9"));
    v.push(owned("usart2 WriteDoubleWord 0x0 0x9"));
    v
}

/// Upper-case hex spelling of a natural number, without leading zeros.
pub open spec fn upper_hex(n: nat) -> Seq<char>
    decreases n,
{
    if n < 16 {
        seq![upper_hex_char(n as int)]
    } else {
        upper_hex(n / 16).push(upper_hex_char((n % 16) as int))
    }
}

/// The upper-case hex digit of a value below 16.
pub open spec fn upper_hex_char(n: int) -> char {
    if n < 10 {
        (('0' as int) + n) as char
    } else {
        (('A' as int) + n - 10) as char
    }
}

fn push_upper_hex(s: &mut String, n: u64)
    ensures
        final(s)@ == old(s)@ + upper_hex(n as nat),
    decreases n,
{
    if n >= 16 {
        push_upper_hex(s, n / 16);
    }
    let d: u8 = (n % 16) as u8;
    let c: char = if d < 10 { (0x30u8 + d) as char } else { (0x41u8 + d - 10) as char };
    push_char(s, c);
    proof {
        assert(final(s)@ =~= old(s)@ + upper_hex(n as nat));
    }
}

/// `sysbus LoadBinary @<path> 0x<DEST>`: load a segment's file at its
/// destination.
pub fn load_binary_command(path: &str, dest: u64) -> (r: String)
    ensures
        r@ == "sysbus LoadBinary @"@ + path@ + " 0x"@ + upper_hex(dest as nat),
{
    let mut out = String::new();
    push_str(&mut out, "sysbus LoadBinary @");
    push_str(&mut out, path);
    push_str(&mut out, " 0x");
    push_upper_hex(&mut out, dest);
    assert(out@ =~= "sysbus LoadBinary @"@ + path@ + " 0x"@ + upper_hex(dest as nat));
    out
}

/// `cpu VectorTableOffset 0x<ENTRY>`: point the vector table at the entry.
pub fn vector_table_command(entry: u64) -> (r: String)
    ensures
        r@ == "cpu VectorTableOffset 0x"@ + upper_hex(entry as nat),
{
    let mut out = String::new();
    push_str(&mut out, "cpu VectorTableOffset 0x");
    push_upper_hex(&mut out, entry);
    assert(out@ =~= "cpu VectorTableOffset 0x"@ + upper_hex(entry as nat));
    out
}

/// What an answer to `cpu IsHalted` says: halted, still running (also
/// while there is no answer yet), or none for an unexpected answer.
pub open spec fn spec_halted(resp: Seq<char>) -> Option<bool> {
    if resp == "True"@ {
        Some(true)
    } else if resp == "False"@ || resp.len() == 0 {
        Some(false)
    } else {
        None
    }
}

/// What an answer to `cpu IsHalted` says (see `spec_halted`).
pub fn halted(resp: &str) -> (r: Option<bool>)
    ensures
        r == spec_halted(resp@),
{
    if crate::text::str_eq(resp, "True") {
        Some(true)
    } else if crate::text::str_eq(resp, "False") || str_chars(resp).len() == 0 {
        Some(false)
    } else {
        None
    }
}

/// The level of one of Renode's own log lines.
pub open spec fn renode_level(s: Seq<char>) -> Option<LogLevel> {
    if s == "ERROR"@ || s == "FATAL"@ {
        Some(LogLevel::Error)
    } else if s == "WARNING"@ {
        Some(LogLevel::Warn)
    } else if s == "INFO"@ {
        Some(LogLevel::Info)
    } else if s == "DEBUG"@ || s == "NOISY"@ {
        Some(LogLevel::Debug)
    } else if s == "TRACE"@ {
        Some(LogLevel::Trace)
    } else {
        None
    }
}

/// Renode's level tags read as the levels they name: `ERROR` and `FATAL`
/// are errors and nothing else is; `WARNING`, and nothing else, is a
/// warning; `DEBUG` and `NOISY` are debug; `INFO` and `TRACE` their own.
pub proof fn law_renode_tags_name_their_levels(tag: Seq<char>)
    ensures
        renode_level(tag) == Some(LogLevel::Error) <==> (tag == "ERROR"@ || tag == "FATAL"@),
        renode_level(tag) == Some(LogLevel::Warn) <==> tag == "WARNING"@,
        renode_level(tag) == Some(LogLevel::Info) <==> tag == "INFO"@,
        renode_level(tag) == Some(LogLevel::Debug) <==> (tag == "DEBUG"@ || tag == "NOISY"@),
        renode_level(tag) == Some(LogLevel::Trace) <==> tag == "TRACE"@,
        renode_level(tag) != Some(LogLevel::Panic),
{
    reveal_strlit("ERROR");
    reveal_strlit("FATAL");
    reveal_strlit("WARNING");
    reveal_strlit("INFO");
    reveal_strlit("DEBUG");
    reveal_strlit("NOISY");
    reveal_strlit("TRACE");
    let five = seq!["ERROR"@, "FATAL"@, "DEBUG"@, "NOISY"@, "TRACE"@];
    assert forall|i: int, j: int| 0 <= i < j < 5 implies five[i] != five[j] by {
        assert(five[i][0] != five[j][0]);
    }
    assert("WARNING"@.len() == 7 && "INFO"@.len() == 4 && "ERROR"@.len() == 5 && "FATAL"@.len() == 5);
}

/// A Renode log line `HH:MM:SS.FFFF [LEVEL] message`, read as its level and
/// message: the level is what stands between the first `[` and the next
/// `]`, the message what follows (without leading whitespace). None when
/// there is no such level or no message.
pub open spec fn spec_parse_renode_log(text: Seq<char>) -> Option<(LogLevel, Seq<char>)> {
    let t = trim(text);
    match find_first(t, seq!['[']) {
        None => None,
        Some(b) => match find_first(t.subrange(b, t.len() as int), seq![']']) {
            None => None,
            Some(e) => {
                let message = trim_start(t.subrange(b + e + 1, t.len() as int));
                if message.len() == 0 {
                    None
                } else {
                    match renode_level(t.subrange(b + 1, b + e)) {
                        Some(l) => Some((l, message)),
                        None => None,
                    }
                }
            },
        },
    }
}

fn sub_string(cs: &Vec<char>, from: usize, to: usize) -> (r: String)
    requires
        from <= to <= cs@.len(),
    ensures
        r@ == cs@.subrange(from as int, to as int),
{
    let mut out = String::new();
    let mut k: usize = from;
    while k < to
        invariant
            from <= k <= to,
            to <= cs@.len(),
            out@ =~= cs@.subrange(from as int, k as int),
        decreases to - k,
    {
        push_char(&mut out, cs[k]);
        k += 1;
    }
    out
}

fn sub_chars(cs: &Vec<char>, from: usize) -> (r: Vec<char>)
    requires
        from <= cs@.len(),
    ensures
        r@ == cs@.subrange(from as int, cs@.len() as int),
{
    let mut out: Vec<char> = Vec::new();
    let mut k: usize = from;
    while k < cs.len()
        invariant
            from <= k <= cs@.len(),
            out@ =~= cs@.subrange(from as int, k as int),
        decreases cs.len() - k,
    {
        out.push(cs[k]);
        k += 1;
    }
    out
}

/// Read one of Renode's log lines (see `spec_parse_renode_log`).
pub fn parse_renode_log(text: &str) -> (r: Option<(LogLevel, String)>)
    ensures
        match r {
            Some((l, m)) => spec_parse_renode_log(text@) == Some((l, m@)),
            None => spec_parse_renode_log(text@) is None,
        },
{
    let t = crate::monitor::trim_str(text);
    let cs = str_chars(t);
    let open: Vec<char> = vec!['['];
    let close: Vec<char> = vec![']'];
    assert(open@ =~= seq!['[']);
    assert(close@ =~= seq![']']);
    let b = match find_chars(&cs, &open) {
        None => return None,
        Some(b) => b,
    };
    proof {
        lemma_first_occurrence(cs@, open@, 0);
    }
    let rest = sub_chars(&cs, b);
    let e = match find_chars(&rest, &close) {
        None => return None,
        Some(e) => e,
    };
    proof {
        lemma_first_occurrence(rest@, close@, 0);
        assert(rest@[e as int] == ']');
        assert(rest@[0] == '[');
        assert(occurs_at(rest@, close@, e as int));
        assert(e + 1 <= rest@.len());
    }
    assert(b + e < cs.len());
    let after = sub_string(&cs, b + e + 1, cs.len());
    let message = crate::monitor::trim_start_str(after.as_str());
    if str_chars(message).len() == 0 {
        return None;
    }
    let level_text = sub_string(&cs, b + 1, b + e);
    let ls = level_text.as_str();
    let level = if crate::text::str_eq(ls, "ERROR") || crate::text::str_eq(ls, "FATAL") {
        LogLevel::Error
    } else if crate::text::str_eq(ls, "WARNING") {
        LogLevel::Warn
    } else if crate::text::str_eq(ls, "INFO") {
        LogLevel::Info
    } else if crate::text::str_eq(ls, "DEBUG") || crate::text::str_eq(ls, "NOISY") {
        LogLevel::Debug
    } else if crate::text::str_eq(ls, "TRACE") {
        LogLevel::Trace
    } else {
        return None;
    };
    let mut m = String::new();
    push_str(&mut m, message);
    assert(m@ =~= message@);
    Some((level, m))
}

/// Where the emulator gets its firmware and platform from.
pub struct DeviceBuilder {
    pub platform: Option<String>,
    pub places: Option<Vec<u8>>,
}

impl DeviceBuilder {
    /// Nothing given yet.
    pub fn new() -> (b: Self)
        ensures
            b.platform is None,
            b.places is None,
    {
        DeviceBuilder { platform: None, places: None }
    }

    /// Use this platform description.
    pub fn with_platform(self, repl: String) -> (b: Self)
        ensures
            b.platform == Some(repl),
            b.places == self.places,
    {
        DeviceBuilder { platform: Some(repl), ..self }
    }

    /// Load this places image.
    pub fn with_places(self, data: Vec<u8>) -> (b: Self)
        ensures
            b.places == Some(data),
            b.platform == self.platform,
    {
        DeviceBuilder { places: Some(data), ..self }
    }

    /// The platform and image to build from; an error naming what is
    /// missing (the platform first).
    pub fn inputs(self) -> (r: Result<(String, Vec<u8>), EmulatorError>)
        ensures
            match (self.platform, self.places) {
                (Some(p), Some(d)) => r == Ok::<(String, Vec<u8>), EmulatorError>((p, d)),
                (None, _) => r matches Err(EmulatorError::InvalidPlaces(m)) && m@
                    == "no platform description provided (call with_platform)"@,
                (Some(_), None) => r matches Err(EmulatorError::InvalidPlaces(m)) && m@
                    == "no places binary provided (call with_places)"@,
            },
    {
        match (self.platform, self.places) {
            (Some(p), Some(d)) => Ok((p, d)),
            (None, _) => Err(EmulatorError::InvalidPlaces(owned("no platform description provided (call with_platform)"))),
            (Some(_), None) => Err(EmulatorError::InvalidPlaces(owned("no places binary provided (call with_places)"))),
        }
    }
}

} // verus!
