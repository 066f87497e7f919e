//! The Renode telnet monitor protocol, as a byte-driven state machine.
//!
//! The reader side feeds every byte received from the monitor into
//! [`MonitorState::feed`]; the writer side calls
//! [`MonitorState::begin_command`] before sending a command and collects the
//! response lines once the state is idle again. Sockets, threads and
//! timeouts stay with the caller.

use vstd::prelude::*;
use vstd::utf8::*;
use vstd::string::StringSliceAdditionalSpecFns;
use vstd::string::StrSliceExecFns;

use crate::text::{ascii_alpha, is_ascii_alpha, push_char, push_str, str_eq, ends_with, strip_prefix_str, strip_suffix_str};

verus! {

// ── Text helpers ─────────────────────────────────────────────────────

/// Unicode `White_Space`, the whitespace of `str::trim`.
pub open spec fn is_ws(c: char) -> bool {
    let u = c as u32;
    (0x9 <= u <= 0xD) || u == 0x20 || u == 0x85 || u == 0xA0 || u == 0x1680 || (0x2000 <= u
        <= 0x200A) || u == 0x2028 || u == 0x2029 || u == 0x202F || u == 0x205F || u == 0x3000
}

/// `s` without leading whitespace.
pub open spec fn trim_start(s: Seq<char>) -> Seq<char>
    decreases s.len(),
{
    if s.len() > 0 && is_ws(s[0]) {
        trim_start(s.drop_first())
    } else {
        s
    }
}

/// `s` without trailing whitespace.
pub open spec fn trim_end(s: Seq<char>) -> Seq<char>
    decreases s.len(),
{
    if s.len() > 0 && is_ws(s.last()) {
        trim_end(s.drop_last())
    } else {
        s
    }
}

/// `s` without leading or trailing whitespace.
pub open spec fn trim(s: Seq<char>) -> Seq<char> {
    trim_end(trim_start(s))
}

/// Whether a character is Unicode whitespace (see [`is_ws`]).
pub fn ws_char(c: char) -> (r: bool)
    ensures
        r == is_ws(c),
{
    let u = c as u32;
    (0x9 <= u && u <= 0xD) || u == 0x20 || u == 0x85 || u == 0xA0 || u == 0x1680 || (0x2000 <= u && u <= 0x200A)
        || u == 0x2028 || u == 0x2029 || u == 0x202F || u == 0x205F || u == 0x3000
}

proof fn lemma_trim_start_at(s: Seq<char>, k: int)
    requires
        0 <= k <= s.len(),
        forall|i: int| 0 <= i < k ==> is_ws(#[trigger] s[i]),
        k == s.len() || !is_ws(s[k]),
    ensures
        trim_start(s) == s.subrange(k, s.len() as int),
    decreases k,
{
    if k > 0 {
        let d = s.drop_first();
        assert forall|i: int| 0 <= i < k - 1 implies is_ws(#[trigger] d[i]) by {
            assert(d[i] == s[i + 1]);
        }
        if k < s.len() {
            assert(d[k - 1] == s[k]);
        }
        lemma_trim_start_at(d, k - 1);
        assert(d.subrange(k - 1, d.len() as int) =~= s.subrange(k, s.len() as int));
        assert(is_ws(s[0]));
    } else {
        assert(s.subrange(0, s.len() as int) =~= s);
    }
}

proof fn lemma_trim_end_at(s: Seq<char>, k: int)
    requires
        0 <= k <= s.len(),
        forall|i: int| k <= i < s.len() ==> is_ws(#[trigger] s[i]),
        k == 0 || !is_ws(s[k - 1]),
    ensures
        trim_end(s) == s.subrange(0, k),
    decreases s.len() - k,
{
    if k < s.len() {
        let d = s.drop_last();
        assert forall|i: int| k <= i < d.len() implies is_ws(#[trigger] d[i]) by {
            assert(d[i] == s[i]);
        }
        if k > 0 {
            assert(d[k - 1] == s[k - 1]);
        }
        assert(is_ws(s[s.len() - 1]));
        lemma_trim_end_at(d, k);
        assert(d.subrange(0, k) =~= s.subrange(0, k));
    } else {
        assert(s.subrange(0, k) =~= s);
    }
}

/// `s` without leading whitespace (what `str::trim_start` gives).
pub(crate) fn trim_start_str(s: &str) -> (r: &str)
    ensures
        r@ == trim_start(s@),
{
    let cs = crate::text::str_chars(s);
    let n = cs.len();
    let mut k: usize = 0;
    while k < n && ws_char(cs[k])
        invariant
            cs@ == s@,
            n == cs@.len(),
            k <= n,
            forall|i: int| 0 <= i < k ==> is_ws(#[trigger] s@[i]),
        decreases n - k,
    {
        k += 1;
    }
    proof {
        lemma_trim_start_at(s@, k as int);
    }
    s.substring_char(k, n)
}

/// `s` without trailing whitespace (what `str::trim_end` gives).
pub(crate) fn trim_end_str(s: &str) -> (r: &str)
    ensures
        r@ == trim_end(s@),
{
    let cs = crate::text::str_chars(s);
    let n = cs.len();
    let mut k: usize = n;
    while k > 0 && ws_char(cs[k - 1])
        invariant
            cs@ == s@,
            n == cs@.len(),
            k <= n,
            forall|i: int| k <= i < n ==> is_ws(#[trigger] s@[i]),
        decreases k,
    {
        k -= 1;
    }
    proof {
        lemma_trim_end_at(s@, k as int);
    }
    s.substring_char(0, k)
}

/// `s` without leading or trailing whitespace (what `str::trim` gives).
pub(crate) fn trim_str(s: &str) -> (r: &str)
    ensures
        r@ == trim(s@),
{
    trim_end_str(trim_start_str(s))
}


/// What `String::from_utf8_lossy` makes of a byte string: invalid sequences
/// become U+FFFD.
pub uninterp spec fn utf8_lossy(b: Seq<u8>) -> Seq<char>;

/// Text of a byte string: valid UTF-8 decodes as is; otherwise what
/// `String::from_utf8_lossy` makes of it.
pub open spec fn lossy_text(b: Seq<u8>) -> Seq<char> {
    if valid_utf8(b) {
        decode_utf8(b)
    } else {
        utf8_lossy(b)
    }
}

/// `String::from_utf8_lossy`, owned: valid UTF-8 decodes as is, invalid
/// sequences become U+FFFD.
#[verifier::external_body]
pub(crate) fn lossy_string(b: &[u8]) -> (r: String)
    ensures
        r@ == lossy_text(b@),
        !valid_utf8(b@) ==> r@ == utf8_lossy(b@),
{
    String::from_utf8_lossy(b).into_owned()
}

/// An ASCII letter, as a character.
pub open spec fn is_alpha_char(c: char) -> bool {
    ('A' <= c <= 'Z') || ('a' <= c <= 'z')
}

/// Index of the character that ends an ANSI escape begun before `j`: the
/// first ASCII letter at or after `j`, or the length if there is none.
pub open spec fn esc_end(s: Seq<char>, j: int) -> int
    decreases s.len() - j,
{
    if j >= s.len() {
        s.len() as int
    } else if is_alpha_char(s[j]) {
        j
    } else {
        esc_end(s, j + 1)
    }
}

/// The characters kept by [`strip_control_str`] from character `i` on:
/// ANSI escapes (ESC up to and including the next ASCII letter) and control
/// characters (below U+0020) are dropped; every other character is kept as
/// it is. (A telnet IAC byte, 0xFF, cannot occur in UTF-8 text.)
pub open spec fn strip_chars(s: Seq<char>, i: int) -> Seq<char>
    decreases s.len() + 1 - i,
{
    if i < 0 || i >= s.len() {
        Seq::empty()
    } else if s[i] == '\x1b' {
        proof {
            lemma_esc_end_bounds(s, i + 1);
        }
        strip_chars(s, esc_end(s, i + 1) + 1)
    } else if s[i] >= ' ' {
        seq![s[i]] + strip_chars(s, i + 1)
    } else {
        strip_chars(s, i + 1)
    }
}

pub proof fn lemma_esc_end_bounds(s: Seq<char>, j: int)
    requires
        0 <= j,
    ensures
        j <= esc_end(s, j) <= s.len() || (j > s.len() && esc_end(s, j) == s.len()),
        esc_end(s, j) < s.len() ==> is_alpha_char(s[esc_end(s, j)]),
    decreases s.len() - j,
{
    if j < s.len() && !is_alpha_char(s[j]) {
        lemma_esc_end_bounds(s, j + 1);
    }
}

/// Strip ANSI escapes, telnet IAC sequences, and control characters;
/// every other character is kept as it is.
pub fn strip_control_str(s: &str) -> (r: String)
    ensures
        r@ == strip_chars(s@, 0),
{
    let cs = crate::text::str_chars(s);
    let ghost v = s@;
    let mut out = String::new();
    let mut i: usize = 0;
    while i < cs.len()
        invariant
            cs@ == v,
            strip_chars(v, 0) == out@ + strip_chars(v, i as int),
            i <= v.len(),
        decreases v.len() - i,
    {
        let c = cs[i];
        if c == '\x1b' {
            let ghost start = i;
            i += 1;
            while i < cs.len() && !(('A' <= cs[i] && cs[i] <= 'Z') || ('a' <= cs[i] && cs[i] <= 'z'))
                invariant
                    cs@ == v,
                    start < i <= v.len(),
                    esc_end(v, start + 1) == esc_end(v, i as int),
                decreases v.len() - i,
            {
                i += 1;
            }
            proof {
                lemma_esc_end_bounds(v, start + 1);
                if i < cs.len() {
                    assert(esc_end(v, i as int) == i);
                }
                assert(strip_chars(v, start as int) == strip_chars(v, esc_end(v, start + 1) + 1));
            }
            i = if i < cs.len() { i + 1 } else { cs.len() };
            assert(strip_chars(v, start as int) == strip_chars(v, i as int));
            continue;
        }
        if c >= ' ' {
            let ghost before = out@;
            push_char(&mut out, c);
            assert(out@ + strip_chars(v, i + 1) =~= before + (seq![c] + strip_chars(v, i + 1)));
        }
        i += 1;
    }
    assert(out@ + strip_chars(v, i as int) =~= out@);
    out
}

/// The characters at or above U+0020.
pub open spec fn not_control() -> spec_fn(char) -> bool {
    |c: char| c >= ' '
}

/// Text without an escape character loses its control characters and
/// nothing else: every other character is kept, in order.
pub proof fn law_strip_keeps_text(s: Seq<char>)
    requires
        !s.contains('\x1b'),
    ensures
        strip_chars(s, 0) == s.filter(not_control()),
{
    lemma_strip_suffix(s, 0);
    assert(s.subrange(0, s.len() as int) =~= s);
}

proof fn lemma_strip_suffix(s: Seq<char>, i: int)
    requires
        0 <= i <= s.len(),
        !s.contains('\x1b'),
    ensures
        strip_chars(s, i) == s.subrange(i, s.len() as int).filter(not_control()),
    decreases s.len() - i,
{
    if i < s.len() {
        lemma_strip_suffix(s, i + 1);
        let rest = s.subrange(i + 1, s.len() as int);
        assert(s.subrange(i, s.len() as int) =~= seq![s[i]] + rest);
        rest.lemma_filter_prepend(s[i], not_control());
        if s[i] == '\x1b' {
            assert(s.contains(s[i]));
        }
    } else {
        let e = s.subrange(i, s.len() as int);
        assert(e.len() == 0);
        reveal(Seq::filter);
        assert(e.filter(not_control()) =~= Seq::<char>::empty());
    }
}

// ── The state machine ────────────────────────────────────────────────

/// Where the conversation with the monitor stands.
pub enum Phase {
    /// Consuming the initial banner until the first prompt.
    Banner,
    /// Prompt received; ready for the next command.
    Idle,
    /// Command sent; waiting for Renode to echo it back.
    AwaitEcho(String),
    /// Echo matched; accumulating response lines until the next prompt.
    AwaitPrompt,
    /// Stream closed or unrecoverable timeout.
    Closed,
}

/// [`Phase`] as plain values.
pub enum PhaseView {
    Banner,
    Idle,
    AwaitEcho(Seq<char>),
    AwaitPrompt,
    Closed,
}

/// What a wait on the monitor is for.
#[derive(Clone, Copy, Debug, PartialEq, Eq)]
pub enum WaitFor {
    /// The banner, up to the first prompt.
    Banner,
    /// The monitor to be idle before a command is sent.
    Send,
    /// The response to a command sent.
    Response,
}

/// The message of a wait that ran out of time.
pub open spec fn wait_timeout_text(kind: WaitFor, cmd: Seq<char>) -> Seq<char> {
    match kind {
        WaitFor::Banner => "timed out waiting for Renode banner"@,
        WaitFor::Send => "timed out waiting to send '"@ + cmd + "'"@,
        WaitFor::Response => "timed out waiting for response to '"@ + cmd + "'"@,
    }
}

/// The whole state as plain values.
pub struct MonitorView {
    pub phase: PhaseView,
    pub response: Seq<Seq<char>>,
    pub partial: Seq<u8>,
    pub iac_skip: u8,
    pub in_ansi: bool,
    pub prompt: Seq<u8>,
}

/// Byte accumulator, response lines and escape-sequence tracking for one
/// monitor connection.
pub struct MonitorState {
    phase: Phase,
    /// Response lines collected during `AwaitPrompt`.
    response: Vec<String>,
    /// Byte accumulator for the current (unterminated) line.
    partial: Vec<u8>,
    /// Remaining bytes to skip for an in-progress telnet IAC sequence.
    iac_skip: u8,
    /// True while inside an ANSI escape sequence (ESC … letter).
    in_ansi: bool,
    /// The prompt bytes we expect, e.g. `b"(monitor) "`.
    prompt: Vec<u8>,
}

/// Bytes of `(monitor) `.
pub open spec fn monitor_prompt() -> Seq<u8> {
    seq![0x28u8, 0x6d, 0x6f, 0x6e, 0x69, 0x74, 0x6f, 0x72, 0x29, 0x20]
}

/// `partial` is exactly the prompt, possibly after one carriage return.
pub open spec fn spec_at_prompt(partial: Seq<u8>, prompt: Seq<u8>) -> bool {
    let start: int = if partial.len() > 0 && partial[0] == 0x0Du8 { 1 } else { 0 };
    partial.subrange(start, partial.len() as int) == prompt
}

/// After a byte of an ordinary line: the prompt ends the line and returns to idle.
pub open spec fn push_or_prompt(st: MonitorView, b: u8) -> MonitorView {
    let p = st.partial.push(b);
    if spec_at_prompt(p, st.prompt) {
        MonitorView { partial: Seq::empty(), phase: PhaseView::Idle, ..st }
    } else {
        MonitorView { partial: p, ..st }
    }
}

/// The state after one more byte from the monitor.
pub open spec fn step(st: MonitorView, b: u8) -> MonitorView {
    if st.iac_skip > 0 {
        MonitorView { iac_skip: (st.iac_skip - 1) as u8, ..st }
    } else if b == 0xFF {
        MonitorView { iac_skip: 2, ..st }
    } else if b == 0x1B {
        MonitorView { in_ansi: true, ..st }
    } else if st.in_ansi {
        if is_ascii_alpha(b) {
            MonitorView { in_ansi: false, ..st }
        } else {
            st
        }
    } else {
        match st.phase {
            PhaseView::Banner => if b == 0x0Au8 {
                MonitorView { partial: Seq::empty(), ..st }
            } else {
                push_or_prompt(st, b)
            },
            PhaseView::AwaitEcho(cmd) => if b == 0x0Au8 {
                let line = strip_chars(lossy_text(st.partial), 0);
                if trim(line) == cmd {
                    MonitorView { partial: Seq::empty(), phase: PhaseView::AwaitPrompt, ..st }
                } else {
                    MonitorView { partial: Seq::empty(), ..st }
                }
            } else {
                MonitorView { partial: st.partial.push(b), ..st }
            },
            PhaseView::AwaitPrompt => if b == 0x0Au8 {
                MonitorView {
                    response: st.response.push(lossy_text(st.partial)),
                    partial: Seq::empty(),
                    ..st
                }
            } else {
                push_or_prompt(st, b)
            },
            PhaseView::Idle => if b == 0x0Au8 {
                MonitorView { partial: Seq::empty(), ..st }
            } else {
                st
            },
            PhaseView::Closed => st,
        }
    }
}

/// The state after a run of bytes.
pub open spec fn feed_all(st: MonitorView, bytes: Seq<u8>) -> MonitorView
    decreases bytes.len(),
{
    if bytes.len() == 0 {
        st
    } else {
        feed_all(step(st, bytes[0]), bytes.drop_first())
    }
}

/// Extract the machine name from `mach create "name"`.
pub open spec fn spec_mach_name(cmd: Seq<char>) -> Option<Seq<char>> {
    let t = trim(cmd);
    let kw = mach_create_chars();
    if crate::text::seq_starts_with(t, kw) {
        let rest = trim(t.subrange(kw.len() as int, t.len() as int));
        if crate::text::seq_starts_with(rest, seq!['"']) {
            let inner = rest.subrange(1, rest.len() as int);
            if ends_with(inner, seq!['"']) {
                Some(inner.subrange(0, inner.len() - 1))
            } else {
                None
            }
        } else {
            None
        }
    } else {
        None
    }
}

/// The characters of `mach create`.
pub open spec fn mach_create_chars() -> Seq<char> {
    seq!['m', 'a', 'c', 'h', ' ', 'c', 'r', 'e', 'a', 't', 'e']
}

/// Extract the machine name from `mach create "name"`.
pub fn parse_mach_create(cmd: &str) -> (r: Option<&str>)
    ensures
        match spec_mach_name(cmd@) {
            Some(n) => r is Some && r->0@ == n,
            None => r is None,
        },
{
    proof {
        reveal_strlit("mach create");
        reveal_strlit("\"");
    }
    assert("mach create"@ =~= mach_create_chars());
    assert("\""@ =~= seq!['"']);
    let t = trim_str(cmd);
    let rest = match strip_prefix_str(t, "mach create") {
        Some(r) => r,
        None => return None,
    };
    let rest = trim_str(rest);
    let inner = match strip_prefix_str(rest, "\"") {
        Some(r) => r,
        None => return None,
    };
    strip_suffix_str(inner, "\"")
}

impl MonitorState {
    /// The state as plain values.
    pub closed spec fn view(&self) -> MonitorView {
        MonitorView {
            phase: match self.phase {
                Phase::Banner => PhaseView::Banner,
                Phase::Idle => PhaseView::Idle,
                Phase::AwaitEcho(c) => PhaseView::AwaitEcho(c@),
                Phase::AwaitPrompt => PhaseView::AwaitPrompt,
                Phase::Closed => PhaseView::Closed,
            },
            response: Seq::new(self.response@.len(), |i: int| self.response@[i]@),
            partial: self.partial@,
            iac_skip: self.iac_skip,
            in_ansi: self.in_ansi,
            prompt: self.prompt@,
        }
    }

    /// A fresh connection: reading the banner, expecting `(monitor) `.
    pub fn new() -> (s: Self)
        ensures
            s.view() == (MonitorView {
                phase: PhaseView::Banner,
                response: Seq::empty(),
                partial: Seq::empty(),
                iac_skip: 0,
                in_ansi: false,
                prompt: monitor_prompt(),
            }),
    {
        let prompt: Vec<u8> = vec![0x28u8, 0x6d, 0x6f, 0x6e, 0x69, 0x74, 0x6f, 0x72, 0x29, 0x20];
        let s = MonitorState {
            phase: Phase::Banner,
            response: Vec::new(),
            partial: Vec::new(),
            iac_skip: 0,
            in_ansi: false,
            prompt,
        };
        assert(s.view().response =~= Seq::<Seq<char>>::empty());
        assert(s.view().prompt =~= monitor_prompt());
        s
    }

    /// True when the accumulated line exactly matches the expected prompt.
    pub fn at_prompt(&self) -> (r: bool)
        ensures
            r == spec_at_prompt(self.view().partial, self.view().prompt),
    {
        let p = &self.partial;
        let start: usize = if p.len() > 0 && p[0] == 0x0D { 1 } else { 0 };
        let n = p.len() - start;
        if n != self.prompt.len() {
            assert(p@.subrange(start as int, p@.len() as int).len() != self.prompt@.len());
            return false;
        }
        let mut i: usize = 0;
        while i < n
            invariant
                n == self.prompt@.len(),
                start + n == p@.len(),
                start <= 1,
                start == (if p@.len() > 0 && p@[0] == 0x0Du8 { 1int } else { 0int }),
                p@ == self.view().partial,
                i <= n,
                forall|j: int| 0 <= j < i ==> p@[start + j] == self.prompt@[j],
            decreases n - i,
        {
            let k: usize = start + i;
            if p[k] != self.prompt[i] {
                assert(p@.subrange(start as int, p@.len() as int)[i as int] == p@[k as int]);
                return false;
            }
            i += 1;
        }
        assert(p@.subrange(start as int, p@.len() as int) =~= self.prompt@);
        true
    }

    /// Append a byte to the current line; the prompt returns to idle.
    fn push_line_byte(&mut self, b: u8)
        ensures
            final(self).view() == push_or_prompt(old(self).view(), b),
    {
        self.partial.push(b);
        if self.at_prompt() {
            self.partial.clear();
            self.phase = Phase::Idle;
            assert(self.view().partial =~= Seq::<u8>::empty());
        }
    }

    /// Feed one byte from the monitor into the state machine.
    pub fn feed(&mut self, b: u8)
        ensures
            final(self).view() == step(old(self).view(), b),
    {
        // Telnet IAC: skip the 2 bytes following 0xFF.
        if self.iac_skip > 0 {
            self.iac_skip -= 1;
            return;
        }
        if b == 0xFF {
            self.iac_skip = 2;
            return;
        }
        // ANSI escape: ESC … <letter>.
        if b == 0x1B {
            self.in_ansi = true;
            return;
        }
        if self.in_ansi {
            if ascii_alpha(b) {
                self.in_ansi = false;
            }
            return;
        }
        let is_echo = match &self.phase {
            Phase::AwaitEcho(_) => true,
            _ => false,
        };
        if is_echo {
            if b == 0x0A {
                let lossy = lossy_string(self.partial.as_slice());
                let line = strip_control_str(lossy.as_str());
                let trimmed = trim_str(line.as_str());
                let matches = match &self.phase {
                    Phase::AwaitEcho(cmd) => str_eq(trimmed, cmd.as_str()),
                    _ => false,
                };
                self.partial.clear();
                if matches {
                    self.phase = Phase::AwaitPrompt;
                }
                assert(self.view().partial =~= Seq::<u8>::empty());
            } else {
                self.partial.push(b);
            }
            return;
        }
        match self.phase {
            Phase::Banner => {
                if b == 0x0A {
                    self.partial.clear();
                    assert(self.view().partial =~= Seq::<u8>::empty());
                } else {
                    self.push_line_byte(b);
                }
            },
            Phase::AwaitPrompt => {
                if b == 0x0A {
                    let line = lossy_string(self.partial.as_slice());
                    let ghost before = self.view();
                    self.response.push(line);
                    self.partial.clear();
                    assert(self.view().response =~= before.response.push(lossy_text(before.partial)));
                    assert(self.view().partial =~= Seq::<u8>::empty());
                } else {
                    self.push_line_byte(b);
                }
            },
            Phase::Idle => {
                if b == 0x0A {
                    self.partial.clear();
                    assert(self.view().partial =~= Seq::<u8>::empty());
                }
            },
            _ => {},
        }
    }

    /// Whether the monitor is ready for the next command.
    pub fn is_idle(&self) -> (r: bool)
        ensures
            r == (self.view().phase is Idle),
    {
        match self.phase {
            Phase::Idle => true,
            _ => false,
        }
    }

    /// Whether the connection is gone.
    pub fn is_closed(&self) -> (r: bool)
        ensures
            r == (self.view().phase is Closed),
    {
        match self.phase {
            Phase::Closed => true,
            _ => false,
        }
    }

    /// Mark the connection gone (stream closed or timed out).
    pub fn close(&mut self)
        ensures
            final(self).view() == (MonitorView { phase: PhaseView::Closed, ..old(self).view() }),
    {
        self.phase = Phase::Closed;
    }

    /// One check while waiting for the monitor, with `remaining_ms` left
    /// before the deadline: done once the monitor is idle, refused once the
    /// connection is gone, timed out when no time is left (a wait for a
    /// response also closes the connection then), else keep waiting.
    pub fn wait_step(&mut self, kind: WaitFor, cmd: &str, remaining_ms: u64) -> (r: Option<Result<(), EmulatorError>>)
        ensures
            old(self).view().phase is Idle ==> r == Some(Ok::<(), EmulatorError>(())),
            old(self).view().phase is Closed ==> r == Some(Err::<(), EmulatorError>(EmulatorError::MonitorDisconnected)),
            !(old(self).view().phase is Idle || old(self).view().phase is Closed) && remaining_ms == 0 ==> (r matches Some(
                Err(EmulatorError::MonitorCommand(m)),
            ) && m@ == wait_timeout_text(kind, cmd@)),
            !(old(self).view().phase is Idle || old(self).view().phase is Closed) && remaining_ms > 0 ==> r is None,
            final(self).view() == (if !(old(self).view().phase is Idle || old(self).view().phase is Closed)
                && remaining_ms == 0 && kind is Response {
                MonitorView { phase: PhaseView::Closed, ..old(self).view() }
            } else {
                old(self).view()
            }),
    {
        if self.is_idle() {
            return Some(Ok(()));
        }
        if self.is_closed() {
            return Some(Err(EmulatorError::MonitorDisconnected));
        }
        if remaining_ms > 0 {
            return None;
        }
        match kind {
            WaitFor::Banner => {
                let m = "timed out waiting for Renode banner".to_owned();
                Some(Err(EmulatorError::MonitorCommand(m)))
            },
            WaitFor::Send => Some(Err(EmulatorError::send_timed_out(cmd))),
            WaitFor::Response => {
                self.close();
                Some(Err(EmulatorError::response_timed_out(cmd)))
            },
        }
    }

    /// Prepare for sending `cmd`: forget the previous response, expect the
    /// machine's own prompt after `mach create "name"`, and wait for the echo.
    pub fn begin_command(&mut self, cmd: &str)
        ensures
            final(self).view() == (MonitorView {
                phase: PhaseView::AwaitEcho(cmd@),
                response: Seq::empty(),
                prompt: match spec_mach_name(cmd@) {
                    Some(n) => encode_utf8(seq!['('] + n + seq![')', ' ']),
                    None => old(self).view().prompt,
                },
                ..old(self).view()
            }),
    {
        self.response.clear();
        match parse_mach_create(cmd) {
            Some(name) => {
                let mut p = String::new();
                push_char(&mut p, '(');
                push_str(&mut p, name);
                push_char(&mut p, ')');
                push_char(&mut p, ' ');
                let bytes = p.as_str().as_bytes();
                self.prompt = vstd::slice::slice_to_vec(bytes);
                assert(p@ =~= seq!['('] + name@ + seq![')', ' ']);
            },
            None => {},
        }
        self.phase = Phase::AwaitEcho(cmd.to_owned());
        assert(self.view().response =~= Seq::<Seq<char>>::empty());
    }

    /// Hand over the response lines collected for the last command.
    pub fn take_response(&mut self) -> (r: Vec<String>)
        ensures
            r@.len() == old(self).view().response.len(),
            forall|i: int| 0 <= i < r@.len() ==> (#[trigger] r@[i])@ == old(self).view().response[i],
            final(self).view() == (MonitorView { response: Seq::empty(), ..old(self).view() }),
    {
        let mut r: Vec<String> = Vec::new();
        std::mem::swap(&mut r, &mut self.response);
        assert(self.view().response =~= Seq::<Seq<char>>::empty());
        r
    }
}


/// The text of a query's response: each raw line stripped of control
/// sequences and trimmed, empty ones dropped.
pub open spec fn clean_lines(raw: Seq<Seq<char>>) -> Seq<Seq<char>>
    decreases raw.len(),
{
    if raw.len() == 0 {
        Seq::empty()
    } else {
        let rest = clean_lines(raw.drop_last());
        let c = trim(strip_chars(raw.last(), 0));
        if c.len() > 0 {
            rest.push(c)
        } else {
            rest
        }
    }
}

/// Lines joined with line feeds.
pub open spec fn join_newlines(ls: Seq<Seq<char>>) -> Seq<char>
    decreases ls.len(),
{
    if ls.len() == 0 {
        Seq::empty()
    } else if ls.len() == 1 {
        ls[0]
    } else {
        join_newlines(ls.drop_last()) + seq!['\n'] + ls.last()
    }
}

/// The answer to a query from the raw response lines: cleaned, non-empty
/// lines joined with line feeds.
pub fn clean_response(raw: &Vec<String>) -> (r: String)
    ensures
        r@ == join_newlines(clean_lines(raw@.map_values(|l: String| l@))),
{
    let ghost bs = raw@.map_values(|l: String| l@);
    let mut out = String::new();
    let mut count: usize = 0;
    let mut i: usize = 0;
    while i < raw.len()
        invariant
            i <= raw@.len(),
            bs == raw@.map_values(|l: String| l@),
            count as nat == clean_lines(bs.subrange(0, i as int)).len(),
            count <= i,
            out@ == join_newlines(clean_lines(bs.subrange(0, i as int))),
        decreases raw.len() - i,
    {
        proof {
            assert(bs.subrange(0, i + 1).drop_last() =~= bs.subrange(0, i as int));
            assert(bs.subrange(0, i + 1).last() == raw@[i as int]@);
        }
        let clean = strip_control_str(raw[i].as_str());
        let t = trim_str(clean.as_str());
        if t.as_bytes().len() > 0 {
            let ghost before = clean_lines(bs.subrange(0, i as int));
            if count > 0 {
                push_char(&mut out, '\n');
            }
            push_str(&mut out, t);
            count += 1;
            proof {
                if t@.len() == 0 {
                    assert(t@ =~= Seq::<char>::empty());
                    vstd::utf8::encode_utf8_decode_utf8(Seq::<char>::empty());
                }
                let after = before.push(t@);
                assert(after.drop_last() =~= before);
                if before.len() == 0 {
                    assert(out@ =~= t@);
                }
                assert(out@ =~= join_newlines(after));
            }
        } else {
            proof {
                if t@.len() > 0 {
                    vstd::utf8::encode_utf8_first_scalar(t@);
                }
            }
        }
        i += 1;
    }
    assert(bs.subrange(0, i as int) =~= bs);
    out
}

/// Why the emulator failed; operating-system errors are carried as their
/// message.
#[derive(Clone, Debug)]
pub enum EmulatorError {
    RenodeSpawn(String),
    MonitorConnect(String),
    MonitorSend(String),
    MonitorDisconnected,
    MonitorCommand(String),
    TempFile(String),
    InvalidPlaces(String),
}

/// The message an emulator error is shown with.
pub open spec fn emulator_error_text(e: EmulatorError) -> Seq<char> {
    match e {
        EmulatorError::RenodeSpawn(m) => "failed to spawn Renode: "@ + m@,
        EmulatorError::MonitorConnect(m) => "failed to connect to Renode monitor: "@ + m@,
        EmulatorError::MonitorSend(m) => "monitor I/O error: "@ + m@,
        EmulatorError::MonitorDisconnected => "Renode monitor disconnected"@,
        EmulatorError::MonitorCommand(m) => "monitor command error: "@ + m@,
        EmulatorError::TempFile(m) => "temp file error: "@ + m@,
        EmulatorError::InvalidPlaces(m) => "invalid places binary: "@ + m@,
    }
}

impl EmulatorError {
    /// The message the error is shown with.
    pub fn message(&self) -> (r: String)
        ensures
            r@ == emulator_error_text(*self),
    {
        let mut out = String::new();
        match self {
            EmulatorError::RenodeSpawn(m) => {
                push_str(&mut out, "failed to spawn Renode: ");
                push_str(&mut out, m.as_str());
            },
            EmulatorError::MonitorConnect(m) => {
                push_str(&mut out, "failed to connect to Renode monitor: ");
                push_str(&mut out, m.as_str());
            },
            EmulatorError::MonitorSend(m) => {
                push_str(&mut out, "monitor I/O error: ");
                push_str(&mut out, m.as_str());
            },
            EmulatorError::MonitorDisconnected => {
                push_str(&mut out, "Renode monitor disconnected");
            },
            EmulatorError::MonitorCommand(m) => {
                push_str(&mut out, "monitor command error: ");
                push_str(&mut out, m.as_str());
            },
            EmulatorError::TempFile(m) => {
                push_str(&mut out, "temp file error: ");
                push_str(&mut out, m.as_str());
            },
            EmulatorError::InvalidPlaces(m) => {
                push_str(&mut out, "invalid places binary: ");
                push_str(&mut out, m.as_str());
            },
        }
        proof {
            assert(out@ =~= emulator_error_text(*self));
        }
        out
    }

    /// A command could not be sent before the deadline.
    pub fn send_timed_out(cmd: &str) -> (e: Self)
        ensures
            e matches EmulatorError::MonitorCommand(m) && m@ == "timed out waiting to send '"@ + cmd@ + "'"@,
    {
        let mut m = String::new();
        push_str(&mut m, "timed out waiting to send '");
        push_str(&mut m, cmd);
        push_str(&mut m, "'");
        assert(m@ =~= "timed out waiting to send '"@ + cmd@ + "'"@);
        EmulatorError::MonitorCommand(m)
    }

    /// A command's response did not come before the deadline.
    pub fn response_timed_out(cmd: &str) -> (e: Self)
        ensures
            e matches EmulatorError::MonitorCommand(m) && m@ == "timed out waiting for response to '"@ + cmd@ + "'"@,
    {
        let mut m = String::new();
        push_str(&mut m, "timed out waiting for response to '");
        push_str(&mut m, cmd);
        push_str(&mut m, "'");
        assert(m@ =~= "timed out waiting for response to '"@ + cmd@ + "'"@);
        EmulatorError::MonitorCommand(m)
    }
}

} // verus!

verus! {

// ── Laws of the protocol ─────────────────────────────────────────────

/// A byte that is not part of telnet or ANSI control, nor a line end.
pub open spec fn plain_byte(b: u8) -> bool {
    b != 0xFF && b != 0x1B && b != 0x0A
}

/// Every byte is plain.
pub open spec fn plain_bytes(s: Seq<u8>) -> bool {
    forall|i: int| 0 <= i < s.len() ==> plain_byte(#[trigger] s[i])
}

/// Printable ASCII (space to tilde).
pub open spec fn printable(b: u8) -> bool {
    0x20 <= b <= 0x7E
}

/// A line of printable ASCII.
pub open spec fn printable_line(s: Seq<u8>) -> bool {
    forall|i: int| 0 <= i < s.len() ==> printable(#[trigger] s[i])
}

/// No prefix of the line (before its end) reads as the prompt.
pub open spec fn no_prompt_prefix(line: Seq<u8>, prompt: Seq<u8>) -> bool {
    forall|k: int| 1 <= k <= line.len() ==> !spec_at_prompt(#[trigger] line.subrange(0, k), prompt)
}

/// A usable prompt: non-empty, plain, not starting with a carriage return.
pub open spec fn good_prompt(p: Seq<u8>) -> bool {
    p.len() > 0 && plain_bytes(p) && p[0] != 0x0Du8
}

/// The characters of a line of ASCII bytes.
pub open spec fn ascii_chars(s: Seq<u8>) -> Seq<char> {
    Seq::new(s.len(), |i: int| s[i] as char)
}

/// Lines, each followed by a line feed.
pub open spec fn joined_lines(lines: Seq<Seq<u8>>) -> Seq<u8>
    decreases lines.len(),
{
    if lines.len() == 0 {
        Seq::empty()
    } else {
        joined_lines(lines.drop_last()) + lines.last().push(0x0Au8)
    }
}

/// The state is between escape sequences.
pub open spec fn quiet(st: MonitorView) -> bool {
    st.iac_skip == 0 && !st.in_ansi
}

pub proof fn lemma_feed_all_concat(st: MonitorView, a: Seq<u8>, b: Seq<u8>)
    ensures
        feed_all(st, a + b) == feed_all(feed_all(st, a), b),
    decreases a.len(),
{
    if a.len() > 0 {
        assert((a + b).drop_first() =~= a.drop_first() + b);
        lemma_feed_all_concat(step(st, a[0]), a.drop_first(), b);
    } else {
        assert(a + b =~= b);
    }
}

/// A telnet command (`IAC` and the two bytes after it) leaves the monitor
/// state as it was, whatever follows.
pub proof fn law_telnet_command_invisible(st: MonitorView, x: u8, y: u8, rest: Seq<u8>)
    requires
        quiet(st),
    ensures
        feed_all(st, seq![0xFFu8, x, y] + rest) == feed_all(st, rest),
{
    lemma_feed_all_concat(st, seq![0xFFu8, x, y], rest);
    reveal_with_fuel(feed_all, 4);
    assert(seq![0xFFu8, x, y].drop_first() =~= seq![x, y]);
    assert(seq![x, y].drop_first() =~= seq![y]);
    assert(seq![y].drop_first() =~= Seq::<u8>::empty());
    assert(step(step(step(st, 0xFFu8), x), y) == st);
}

proof fn lemma_inside_escape(st: MonitorView, m: Seq<u8>)
    requires
        st.iac_skip == 0,
        st.in_ansi,
        forall|i: int| 0 <= i < m.len() ==> !is_ascii_alpha(#[trigger] m[i]) && m[i] != 0xFF,
    ensures
        feed_all(st, m) == st,
    decreases m.len(),
{
    if m.len() > 0 {
        assert(step(st, m[0]) == st);
        assert forall|i: int| 0 <= i < m.drop_first().len() implies !is_ascii_alpha(#[trigger] m.drop_first()[i])
            && m.drop_first()[i] != 0xFF by {
            assert(m.drop_first()[i] == m[i + 1]);
        }
        lemma_inside_escape(st, m.drop_first());
    }
}

/// An ANSI escape sequence (`ESC`, bytes that are neither letters nor
/// `IAC`, and a final letter) leaves the monitor state as it was, whatever
/// follows.
pub proof fn law_escape_sequence_invisible(st: MonitorView, m: Seq<u8>, l: u8, rest: Seq<u8>)
    requires
        quiet(st),
        forall|i: int| 0 <= i < m.len() ==> !is_ascii_alpha(#[trigger] m[i]) && m[i] != 0xFF,
        is_ascii_alpha(l),
    ensures
        feed_all(st, seq![0x1Bu8] + m + seq![l] + rest) == feed_all(st, rest),
{
    let esc = MonitorView { in_ansi: true, ..st };
    assert(step(st, 0x1Bu8) == esc);
    lemma_feed_all_concat(st, seq![0x1Bu8], m);
    reveal_with_fuel(feed_all, 2);
    assert(seq![0x1Bu8].drop_first() =~= Seq::<u8>::empty());
    assert(feed_all(st, seq![0x1Bu8]) == esc);
    lemma_inside_escape(esc, m);
    lemma_feed_all_concat(st, seq![0x1Bu8] + m, seq![l]);
    assert(seq![l].drop_first() =~= Seq::<u8>::empty());
    assert(step(esc, l) == st);
    assert(feed_all(esc, seq![l]) == st);
    lemma_feed_all_concat(st, seq![0x1Bu8] + m + seq![l], rest);
}

/// A run of plain bytes that never completes the prompt is just accumulated.
proof fn lemma_plain_run(st: MonitorView, bytes: Seq<u8>)
    requires
        quiet(st),
        st.phase is Banner || st.phase is AwaitPrompt || st.phase is AwaitEcho,
        plain_bytes(bytes),
        !(st.phase is AwaitEcho) ==> forall|k: int|
            1 <= k <= bytes.len() ==> !spec_at_prompt(
                #[trigger] (st.partial + bytes.subrange(0, k)),
                st.prompt,
            ),
    ensures
        feed_all(st, bytes) == (MonitorView { partial: st.partial + bytes, ..st }),
    decreases bytes.len(),
{
    if bytes.len() == 0 {
        assert(st.partial + bytes =~= st.partial);
    } else {
        let b = bytes[0];
        assert(plain_byte(bytes[0]));
        let st2 = MonitorView { partial: st.partial.push(b), ..st };
        if !(st.phase is AwaitEcho) {
            assert(st.partial + bytes.subrange(0, 1) =~= st.partial.push(b));
            assert(!spec_at_prompt(st.partial + bytes.subrange(0, 1), st.prompt));
        }
        assert(step(st, b) == st2);
        let rest = bytes.drop_first();
        assert forall|i: int| 0 <= i < rest.len() implies plain_byte(#[trigger] rest[i]) by {
            assert(rest[i] == bytes[i + 1]);
        }
        if !(st.phase is AwaitEcho) {
            assert forall|k: int| 1 <= k <= rest.len() implies !spec_at_prompt(
                #[trigger] (st2.partial + rest.subrange(0, k)),
                st2.prompt,
            ) by {
                assert(st2.partial + rest.subrange(0, k) =~= st.partial + bytes.subrange(0, k + 1));
            }
        }
        lemma_plain_run(st2, rest);
        assert(st2.partial + rest =~= st.partial + bytes);
    }
}

/// From an empty line, the prompt's bytes return the machine to idle.
proof fn lemma_prompt_to_idle(st: MonitorView)
    requires
        quiet(st),
        st.phase is Banner || st.phase is AwaitPrompt,
        st.partial.len() == 0,
        good_prompt(st.prompt),
    ensures
        feed_all(st, st.prompt) == (MonitorView { phase: PhaseView::Idle, partial: Seq::empty(), ..st }),
{
    let p = st.prompt;
    let init = p.drop_last();
    assert forall|k: int| 1 <= k <= init.len() implies !spec_at_prompt(
        #[trigger] (st.partial + init.subrange(0, k)),
        st.prompt,
    ) by {
        let q = st.partial + init.subrange(0, k);
        assert(q =~= p.subrange(0, k));
        assert(q[0] == p[0]);
        assert(q.subrange(0, q.len() as int).len() < p.len());
    }
    assert forall|i: int| 0 <= i < init.len() implies plain_byte(#[trigger] init[i]) by {
        assert(init[i] == p[i]);
    }
    lemma_plain_run(st, init);
    let mid = MonitorView { partial: st.partial + init, ..st };
    assert(p =~= init + seq![p.last()]);
    lemma_feed_all_concat(st, init, seq![p.last()]);
    assert(mid.partial.push(p.last()) =~= p);
    assert(mid.partial.push(p.last()).subrange(0, p.len() as int) =~= p);
    assert(plain_byte(p[p.len() - 1]));
    assert(seq![p.last()].drop_first() =~= Seq::<u8>::empty());
    reveal_with_fuel(feed_all, 2);
    assert(feed_all(mid, seq![p.last()]) == step(mid, p.last()));
    assert(spec_at_prompt(mid.partial.push(p.last()), mid.prompt));
    assert(push_or_prompt(mid, p.last()) == (MonitorView {
        phase: PhaseView::Idle,
        partial: Seq::empty(),
        ..st
    }));
}

/// The monitor leaves the banner as soon as the prompt arrives on a line of
/// its own.
pub proof fn law_banner_ends_at_prompt(banner: Seq<Seq<u8>>)
    requires
        forall|i: int|
            0 <= i < banner.len() ==> plain_bytes(#[trigger] banner[i]) && no_prompt_prefix(
                banner[i],
                monitor_prompt(),
            ),
    ensures
        ({
            let st = MonitorView {
                phase: PhaseView::Banner,
                response: Seq::empty(),
                partial: Seq::empty(),
                iac_skip: 0,
                in_ansi: false,
                prompt: monitor_prompt(),
            };
            feed_all(st, joined_lines(banner) + monitor_prompt()) == (MonitorView {
                phase: PhaseView::Idle,
                ..st
            })
        }),
{
    let st = MonitorView {
        phase: PhaseView::Banner,
        response: Seq::empty(),
        partial: Seq::empty(),
        iac_skip: 0,
        in_ansi: false,
        prompt: monitor_prompt(),
    };
    lemma_banner_lines(st, banner);
    lemma_feed_all_concat(st, joined_lines(banner), monitor_prompt());
    assert(good_prompt(monitor_prompt()));
    lemma_prompt_to_idle(st);
}

proof fn lemma_banner_lines(st: MonitorView, lines: Seq<Seq<u8>>)
    requires
        quiet(st),
        st.phase is Banner,
        st.partial.len() == 0,
        forall|i: int|
            0 <= i < lines.len() ==> plain_bytes(#[trigger] lines[i]) && no_prompt_prefix(
                lines[i],
                st.prompt,
            ),
    ensures
        feed_all(st, joined_lines(lines)) == st,
    decreases lines.len(),
{
    if lines.len() > 0 {
        lemma_banner_lines(st, lines.drop_last());
        let l = lines.last();
        assert(plain_bytes(lines[lines.len() - 1]));
        lemma_feed_all_concat(st, joined_lines(lines.drop_last()), l.push(0x0Au8));
        lemma_feed_all_concat(st, l, seq![0x0Au8]);
        assert(l.push(0x0Au8) =~= l + seq![0x0Au8]);
        assert(no_prompt_prefix(lines[lines.len() - 1], st.prompt));
        assert forall|k: int| 1 <= k <= l.len() implies !spec_at_prompt(
            #[trigger] (st.partial + l.subrange(0, k)),
            st.prompt,
        ) by {
            assert(st.partial + l.subrange(0, k) =~= l.subrange(0, k));
        }
        lemma_plain_run(st, l);
        assert(seq![0x0Au8].drop_first() =~= Seq::<u8>::empty());
        assert(st.partial =~= Seq::<u8>::empty());
        let mid = MonitorView { partial: st.partial + l, ..st };
        reveal_with_fuel(feed_all, 2);
        assert(feed_all(mid, seq![0x0Au8]) == step(mid, 0x0Au8));
        assert(step(mid, 0x0Au8) == st);
    } else {
        assert(joined_lines(lines) =~= Seq::<u8>::empty());
    }
}

/// Response lines are collected one by one.
proof fn lemma_response_lines(st: MonitorView, lines: Seq<Seq<u8>>)
    requires
        quiet(st),
        st.phase is AwaitPrompt,
        st.partial.len() == 0,
        forall|i: int|
            0 <= i < lines.len() ==> printable_line(#[trigger] lines[i]) && no_prompt_prefix(
                lines[i],
                st.prompt,
            ),
    ensures
        feed_all(st, joined_lines(lines)) == (MonitorView {
            response: st.response + Seq::new(lines.len(), |i: int| ascii_chars(lines[i])),
            ..st
        }),
    decreases lines.len(),
{
    if lines.len() > 0 {
        let init = lines.drop_last();
        lemma_response_lines(st, init);
        let mid = MonitorView {
            response: st.response + Seq::new(init.len(), |i: int| ascii_chars(init[i])),
            ..st
        };
        let l = lines.last();
        assert(printable_line(lines[lines.len() - 1]));
        assert(no_prompt_prefix(lines[lines.len() - 1], st.prompt));
        lemma_feed_all_concat(st, joined_lines(init), l.push(0x0Au8));
        assert(l.push(0x0Au8) =~= l + seq![0x0Au8]);
        lemma_feed_all_concat(mid, l, seq![0x0Au8]);
        assert forall|i: int| 0 <= i < l.len() implies plain_byte(#[trigger] l[i]) by {
            assert(printable(l[i]));
        }
        assert forall|k: int| 1 <= k <= l.len() implies !spec_at_prompt(
            #[trigger] (mid.partial + l.subrange(0, k)),
            mid.prompt,
        ) by {
            assert(mid.partial + l.subrange(0, k) =~= l.subrange(0, k));
        }
        lemma_plain_run(mid, l);
        lemma_ascii_line_lossy(l);
        assert(mid.partial + l =~= l);
        assert(seq![0x0Au8].drop_first() =~= Seq::<u8>::empty());
        let mid2 = MonitorView { partial: mid.partial + l, ..mid };
        reveal_with_fuel(feed_all, 2);
        assert(feed_all(mid2, seq![0x0Au8]) == step(mid2, 0x0Au8));
        assert(lossy_text(l) == ascii_chars(l));
        assert(joined_lines(lines) == joined_lines(init) + l.push(0x0Au8));
        assert(feed_all(st, joined_lines(init)) == mid);
        assert(feed_all(mid, l) == mid2);
        assert(mid.partial =~= Seq::<u8>::empty());
        assert(mid2.partial == l);
        assert(step(mid2, 0x0Au8) == (MonitorView {
            response: mid.response.push(ascii_chars(l)),
            ..mid
        }));
        assert(st.response + Seq::new(lines.len(), |i: int| ascii_chars(lines[i])) =~= mid.response.push(
            ascii_chars(l),
        ));
    } else {
        assert(joined_lines(lines) =~= Seq::<u8>::empty());
        assert(st.response + Seq::new(lines.len(), |i: int| ascii_chars(lines[i])) =~= st.response);
    }
}

/// A line of printable ASCII decodes to its own characters.
proof fn lemma_ascii_line_lossy(l: Seq<u8>)
    requires
        printable_line(l),
    ensures
        utf8_lossy_is(l, ascii_chars(l)),
        encode_utf8(ascii_chars(l)) == l,
{
    let c = ascii_chars(l);
    lemma_encode_ascii(c);
    assert forall|i: int| 0 <= i < l.len() implies #[trigger] encode_utf8(c)[i] == l[i] by {
        assert(printable(l[i]));
        assert(c[i] == l[i] as char);
        let b = l[i];
        assert(((b as char) as u32) as u8 == b);
    }
    assert(encode_utf8(c) =~= l);
    encode_utf8_valid_utf8(c);
    encode_utf8_decode_utf8(c);
}

/// What a line of valid UTF-8 reads as.
pub open spec fn utf8_lossy_is(l: Seq<u8>, c: Seq<char>) -> bool {
    valid_utf8(l) && decode_utf8(l) == c && lossy_text(l) == c
}

proof fn lemma_encode_ascii(h: Seq<char>)
    requires
        forall|i: int| 0 <= i < h.len() ==> #[trigger] (h[i] as u32) < 0x80,
    ensures
        encode_utf8(h).len() == h.len(),
        forall|i: int| 0 <= i < h.len() ==> #[trigger] encode_utf8(h)[i] == (h[i] as u32) as u8,
    decreases h.len(),
{
    if h.len() > 0 {
        let rest = h.drop_first();
        assert forall|i: int| 0 <= i < rest.len() implies #[trigger] (rest[i] as u32) < 0x80 by {
            assert(rest[i] == h[i + 1]);
        }
        lemma_encode_ascii(rest);
        let c = h[0] as u32;
        assert(c < 0x80);
        assert(c < 0x80 ==> (c & 0x7f) == c) by (bit_vector);
        assert(encode_scalar(c) =~= seq![c as u8]);
        assert(encode_utf8(h) == encode_scalar(c) + encode_utf8(rest));
        assert forall|i: int| 0 <= i < h.len() implies #[trigger] encode_utf8(h)[i] == (h[i]
            as u32) as u8 by {
            if i == 0 {
                assert(encode_utf8(h)[0] == c as u8);
            } else {
                assert(encode_utf8(h)[i] == encode_utf8(rest)[i - 1]);
                assert(rest[i - 1] == h[i]);
            }
        }
    }
}

} // verus!

verus! {

proof fn lemma_strip_printable(b: Seq<u8>, i: int)
    requires
        printable_line(b),
        0 <= i <= b.len(),
    ensures
        strip_chars(ascii_chars(b), i) == ascii_chars(b.subrange(i, b.len() as int)),
    decreases b.len() - i,
{
    let c = ascii_chars(b);
    if i < b.len() {
        assert(printable(b[i]));
        assert(c[i] == b[i] as char);
        assert((b[i] as char) >= ' ' && (b[i] as char) != '\x1b');
        lemma_strip_printable(b, i + 1);
        assert(ascii_chars(b.subrange(i, b.len() as int)) =~= seq![b[i] as char] + ascii_chars(
            b.subrange(i + 1, b.len() as int),
        ));
    } else {
        assert(ascii_chars(b.subrange(i, b.len() as int)) =~= Seq::<char>::empty());
    }
}

/// A command whose echo is printable ASCII with no space at either end.
pub open spec fn plain_command(cmd: Seq<u8>) -> bool {
    printable_line(cmd) && (cmd.len() > 0 ==> cmd[0] != 0x20u8 && cmd.last() != 0x20u8)
}

proof fn lemma_trim_plain(cmd: Seq<u8>)
    requires
        plain_command(cmd),
    ensures
        trim(ascii_chars(cmd)) == ascii_chars(cmd),
{
    let c = ascii_chars(cmd);
    if c.len() > 0 {
        let b0 = cmd[0];
        let bl = cmd[cmd.len() - 1];
        assert(printable(b0) && printable(bl));
        assert(((b0 as char) as u32) == b0 as u32);
        assert(((bl as char) as u32) == bl as u32);
        assert(!is_ws(c[0]));
        assert(c.last() == bl as char);
        assert(!is_ws(c.last()));
    }
}

/// A command's exchange with the monitor: once the command has been sent,
/// its echo, the response lines and the prompt bring the monitor back to
/// idle holding exactly those response lines.
pub proof fn law_command_round_trip(st: MonitorView, cmd: Seq<u8>, lines: Seq<Seq<u8>>)
    requires
        quiet(st),
        st.phase == PhaseView::AwaitEcho(ascii_chars(cmd)),
        st.partial.len() == 0,
        good_prompt(st.prompt),
        plain_command(cmd),
        forall|i: int|
            0 <= i < lines.len() ==> printable_line(#[trigger] lines[i]) && no_prompt_prefix(
                lines[i],
                st.prompt,
            ),
    ensures
        feed_all(st, cmd.push(0x0Au8) + joined_lines(lines) + st.prompt) == (MonitorView {
            phase: PhaseView::Idle,
            response: st.response + Seq::new(lines.len(), |i: int| ascii_chars(lines[i])),
            ..st
        }),
{
    // The echo line.
    assert forall|i: int| 0 <= i < cmd.len() implies plain_byte(#[trigger] cmd[i]) by {
        assert(printable(cmd[i]));
    }
    lemma_plain_run(st, cmd);
    let echoed = MonitorView { partial: st.partial + cmd, ..st };
    assert(st.partial + cmd =~= cmd);
    lemma_ascii_line_lossy(cmd);
    lemma_strip_printable(cmd, 0);
    assert(cmd.subrange(0, cmd.len() as int) =~= cmd);
    lemma_trim_plain(cmd);
    let awaiting = MonitorView { partial: Seq::empty(), phase: PhaseView::AwaitPrompt, ..st };
    assert(step(echoed, 0x0Au8) == awaiting);
    assert(cmd.push(0x0Au8) =~= cmd + seq![0x0Au8]);
    lemma_feed_all_concat(st, cmd, seq![0x0Au8]);
    reveal_with_fuel(feed_all, 2);
    assert(seq![0x0Au8].drop_first() =~= Seq::<u8>::empty());
    assert(feed_all(st, cmd.push(0x0Au8)) == awaiting);
    // The response lines.
    lemma_response_lines(awaiting, lines);
    let answered = MonitorView {
        response: st.response + Seq::new(lines.len(), |i: int| ascii_chars(lines[i])),
        ..awaiting
    };
    // The prompt.
    lemma_prompt_to_idle(answered);
    lemma_feed_all_concat(st, cmd.push(0x0Au8), joined_lines(lines));
    lemma_feed_all_concat(st, cmd.push(0x0Au8) + joined_lines(lines), st.prompt);
    assert(st.partial =~= Seq::<u8>::empty());
}

} // verus!
