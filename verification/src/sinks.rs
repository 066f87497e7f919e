//! What the emulator does with the bytes its USARTs send: hex dumps, text
//! lines, display frames, and COBS-framed structured-log fragments.

use vstd::prelude::*;

use crate::monitor::{lossy_string, lossy_text};
use crate::text::{hex_char, push_char, push_decimal, push_str};

verus! {

/// Bytes the hex dump collects before it prints a line.
pub const HEX_DUMP_WIDTH: usize = 32;

/// Two lower-case hex digits.
pub open spec fn byte_hex(b: u8) -> Seq<char> {
    seq![hex_char((b / 16) as int), hex_char((b % 16) as int)]
}

/// The bytes in hex, separated by single spaces.
pub open spec fn hex_words(b: Seq<u8>) -> Seq<char>
    decreases b.len(),
{
    if b.len() == 0 {
        Seq::empty()
    } else if b.len() == 1 {
        byte_hex(b[0])
    } else {
        hex_words(b.drop_last()) + seq![' '] + byte_hex(b.last())
    }
}

/// `[USART<channel>] <bytes in hex>`.
pub open spec fn dump_line(channel: u8, b: Seq<u8>) -> Seq<char> {
    "[USART"@ + crate::text::decimal(channel as nat) + seq![']', ' '] + hex_words(b)
}

fn push_hex_words(out: &mut String, b: &Vec<u8>)
    ensures
        final(out)@ == old(out)@ + hex_words(b@),
{
    let ghost o = out@;
    let mut i: usize = 0;
    assert(b@.subrange(0, 0) =~= Seq::<u8>::empty());
    while i < b.len()
        invariant
            i <= b@.len(),
            out@ == o + hex_words(b@.subrange(0, i as int)),
        decreases b.len() - i,
    {
        if i > 0 {
            push_char(out, ' ');
        }
        let x = b[i];
        push_char(out, crate::text::hex_digit(x / 16));
        push_char(out, crate::text::hex_digit(x % 16));
        let ghost sub = b@.subrange(0, i + 1);
        assert(sub.drop_last() =~= b@.subrange(0, i as int));
        assert(out@ =~= o + hex_words(sub));
        i += 1;
    }
    assert(b@.subrange(0, i as int) =~= b@);
}

/// Prints what a USART sends as lines of 32 hex bytes.
pub struct HexDumpSink {
    channel: u8,
    buf: Vec<u8>,
}

impl HexDumpSink {
    /// The bytes waiting for a full line.
    pub closed spec fn pending(&self) -> Seq<u8> {
        self.buf@
    }

    /// The USART channel number shown in each line.
    pub closed spec fn channel(&self) -> u8 {
        self.channel
    }

    /// A dump for USART `channel` with nothing collected.
    pub fn new(channel: u8) -> (s: Self)
        ensures
            s.channel() == channel,
            s.pending() == Seq::<u8>::empty(),
    {
        HexDumpSink { channel, buf: Vec::new() }
    }

    /// Collect a byte; the 32nd byte completes a line, which is returned.
    pub fn on_byte(&mut self, byte: u8) -> (line: Option<String>)
        requires
            old(self).pending().len() < HEX_DUMP_WIDTH,
        ensures
            final(self).channel() == old(self).channel(),
            final(self).pending().len() < HEX_DUMP_WIDTH,
            old(self).pending().len() + 1 == HEX_DUMP_WIDTH ==> (line matches Some(l) && l@ == dump_line(
                old(self).channel(),
                old(self).pending().push(byte),
            )) && final(self).pending() == Seq::<u8>::empty(),
            old(self).pending().len() + 1 < HEX_DUMP_WIDTH ==> line is None && final(self).pending() == old(self).pending().push(byte),
    {
        self.buf.push(byte);
        if self.buf.len() >= HEX_DUMP_WIDTH {
            let line = self.flush();
            line
        } else {
            None
        }
    }

    /// Whatever was collected, as a line (none when nothing was); the sink
    /// is left empty.
    pub fn flush(&mut self) -> (line: Option<String>)
        ensures
            final(self).channel() == old(self).channel(),
            final(self).pending() == Seq::<u8>::empty(),
            old(self).pending().len() == 0 ==> line is None,
            old(self).pending().len() > 0 ==> (line matches Some(l) && l@ == dump_line(old(self).channel(), old(self).pending())),
    {
        if self.buf.len() == 0 {
            return None;
        }
        let mut out = String::new();
        push_str(&mut out, "[USART");
        push_decimal(&mut out, self.channel as u64);
        push_char(&mut out, ']');
        push_char(&mut out, ' ');
        push_hex_words(&mut out, &self.buf);
        proof {
            reveal_strlit("[USART");
        }
        self.buf = Vec::new();
        Some(out)
    }
}

/// Collects a USART's text into lines.
pub struct StringLogger {
    channel: u8,
    buf: Vec<u8>,
}

impl StringLogger {
    /// The bytes of the line being collected.
    pub closed spec fn pending(&self) -> Seq<u8> {
        self.buf@
    }

    /// The USART channel the lines come from.
    pub closed spec fn channel(&self) -> u8 {
        self.channel
    }

    /// A logger for USART `channel` with no partial line.
    pub fn new(channel: u8) -> (s: Self)
        ensures
            s.channel() == channel,
            s.pending() == Seq::<u8>::empty(),
    {
        StringLogger { channel, buf: Vec::new() }
    }

    /// Collect a byte; a newline ends the line, which is returned as text
    /// (invalid UTF-8 replaced).
    pub fn on_byte(&mut self, byte: u8) -> (line: Option<String>)
        ensures
            final(self).channel() == old(self).channel(),
            byte == 0x0a ==> (line matches Some(l) && l@ == lossy_text(old(self).pending())) && final(self).pending() == Seq::<u8>::empty(),
            byte != 0x0a ==> line is None && final(self).pending() == old(self).pending().push(byte),
    {
        if byte == 0x0a {
            let text = lossy_string(self.buf.as_slice());
            self.buf = Vec::new();
            Some(text)
        } else {
            self.buf.push(byte);
            None
        }
    }
}

/// Bytes in one frame of the display's graphics RAM.
pub const GDDRAM_SIZE: usize = 1024;

/// Collects display frames.
pub struct DisplaySink {
    channel: u8,
    buf: Vec<u8>,
}

impl DisplaySink {
    /// The bytes of the frame being collected.
    pub closed spec fn pending(&self) -> Seq<u8> {
        self.buf@
    }

    /// The USART channel the frames come from.
    pub closed spec fn channel(&self) -> u8 {
        self.channel
    }

    /// A sink for USART `channel` with no partial frame.
    pub fn new(channel: u8) -> (s: Self)
        ensures
            s.channel() == channel,
            s.pending() == Seq::<u8>::empty(),
    {
        DisplaySink { channel, buf: Vec::new() }
    }

    /// Collect a byte; the 1024th completes a frame, which is returned.
    pub fn on_byte(&mut self, byte: u8) -> (frame: Option<Vec<u8>>)
        requires
            old(self).pending().len() < GDDRAM_SIZE,
        ensures
            final(self).channel() == old(self).channel(),
            final(self).pending().len() < GDDRAM_SIZE,
            old(self).pending().len() + 1 == GDDRAM_SIZE ==> (frame matches Some(f) && f@ == old(self).pending().push(byte))
                && final(self).pending() == Seq::<u8>::empty(),
            old(self).pending().len() + 1 < GDDRAM_SIZE ==> frame is None && final(self).pending() == old(self).pending().push(byte),
    {
        self.buf.push(byte);
        if self.buf.len() == GDDRAM_SIZE {
            let mut frame: Vec<u8> = Vec::new();
            std::mem::swap(&mut frame, &mut self.buf);
            Some(frame)
        } else {
            None
        }
    }
}

// ── COBS framing of structured logs ──────────────────────────────────

/// What `cobs::decode_vec` gives for a frame body.
pub uninterp spec fn cobs_decoded(src: Seq<u8>) -> Option<Seq<u8>>;

/// `cobs::decode_vec`: the decoded frame, or `None` when the body is not
/// valid COBS. Its result is named by [`cobs_decoded`]; the decoded frame
/// is never longer than the body (it is decoded into a buffer of the
/// body's length and cut to the frame size).
#[verifier::external_body]
fn cobs_decode(src: &[u8]) -> (r: Option<Vec<u8>>)
    ensures
        cobs_decoded(src@) == (match r {
            Some(v) => Some(v@),
            None => None,
        }),
        r matches Some(v) ==> v@.len() <= src@.len(),
{
    cobs::decode_vec(src).ok()
}

/// Longest frame body kept; a longer one is dropped as garbage.
pub const MAX_FRAME_BODY: usize = 300;

/// What one byte off the structured-log wire completed.
pub enum FrameEvent {
    /// Nothing yet.
    Pending,
    /// A frame delimiter: the decoded frame if a non-empty, valid body
    /// came before it. Stale streams are due for a sweep.
    Delimiter { chunk: Option<Vec<u8>> },
}

/// Splits the structured-log wire into COBS frames (0x00-delimited).
pub struct CobsFramer {
    buf: Vec<u8>,
}

impl CobsFramer {
    /// The body collected since the last delimiter.
    pub closed spec fn pending(&self) -> Seq<u8> {
        self.buf@
    }

    /// Nothing collected.
    pub fn new() -> (f: Self)
        ensures
            f.pending() == Seq::<u8>::empty(),
    {
        CobsFramer { buf: Vec::new() }
    }

    /// Take one byte: a zero ends the frame (decoding its body, if any);
    /// other bytes are collected, and a body longer than the limit is
    /// dropped.
    pub fn on_byte(&mut self, byte: u8) -> (e: FrameEvent)
        requires
            old(self).pending().len() <= MAX_FRAME_BODY,
        ensures
            final(self).pending().len() <= MAX_FRAME_BODY,
            byte == 0 ==> final(self).pending() == Seq::<u8>::empty() && (e matches FrameEvent::Delimiter { chunk } && (
            if old(self).pending().len() == 0 {
                chunk is None
            } else {
                match chunk {
                    Some(c) => cobs_decoded(old(self).pending()) == Some(c@),
                    None => cobs_decoded(old(self).pending()) is None,
                }
            })),
            byte != 0 ==> e is Pending && final(self).pending() == (if old(self).pending().len() + 1 > MAX_FRAME_BODY {
                Seq::<u8>::empty()
            } else {
                old(self).pending().push(byte)
            }),
    {
        if byte == 0 {
            let chunk = if self.buf.len() > 0 {
                cobs_decode(self.buf.as_slice())
            } else {
                None
            };
            self.buf = Vec::new();
            FrameEvent::Delimiter { chunk }
        } else {
            self.buf.push(byte);
            if self.buf.len() > MAX_FRAME_BODY {
                self.buf = Vec::new();
            }
            FrameEvent::Pending
        }
    }
}

/// Little-endian value of eight bytes.
pub open spec fn le_u64(b: Seq<u8>) -> nat
    decreases b.len(),
{
    if b.len() == 0 {
        0
    } else {
        b[0] as nat + 256 * le_u64(b.drop_first())
    }
}

/// A log fragment: type byte `kind`, stream id (8 bytes little-endian),
/// length byte, then at least that many data bytes. The id and data of a
/// well-formed fragment with a non-zero length.
pub open spec fn spec_fragment(chunk: Seq<u8>, kind: u8) -> Option<(nat, Seq<u8>)> {
    if chunk.len() >= 10 && chunk[0] == kind && chunk[9] > 0 && chunk.len() >= 10 + chunk[9] {
        Some((le_u64(chunk.subrange(1, 9)), chunk.subrange(10, 10 + chunk[9])))
    } else {
        None
    }
}

/// Split a decoded frame into stream id and data if it is a log fragment
/// of type `kind` (other frame types share the wire and are skipped).
pub fn parse_fragment(chunk: &[u8], kind: u8) -> (r: Option<(u64, Vec<u8>)>)
    ensures
        match r {
            Some((id, data)) => spec_fragment(chunk@, kind) == Some((id as nat, data@)),
            None => spec_fragment(chunk@, kind) is None,
        },
{
    if chunk.len() < 10 || chunk[0] != kind {
        return None;
    }
    let length = chunk[9] as usize;
    if length == 0 || chunk.len() < 10 + length {
        return None;
    }
    let mut id: u64 = 0;
    let mut k: usize = 9;
    assert(chunk@.subrange(9, 9) =~= Seq::<u8>::empty());
    while k > 1
        invariant
            1 <= k <= 9,
            chunk@.len() >= 10,
            id as nat == le_u64(chunk@.subrange(k as int, 9)),
            le_u64(chunk@.subrange(k as int, 9)) < pow256((9 - k) as nat),
        decreases k,
    {
        proof {
            let s = chunk@.subrange(k - 1, 9);
            assert(s.drop_first() =~= chunk@.subrange(k as int, 9));
            assert(s[0] == chunk@[k - 1]);
            lemma_pow256_step((9 - k) as nat);
            assert(le_u64(s) == chunk@[k - 1] as nat + 256 * le_u64(chunk@.subrange(k as int, 9)));
            assert(le_u64(s) < pow256((9 - k + 1) as nat)) by (nonlinear_arith)
                requires
                    le_u64(s) == chunk@[k - 1] as nat + 256 * le_u64(chunk@.subrange(k as int, 9)),
                    le_u64(chunk@.subrange(k as int, 9)) < pow256((9 - k) as nat),
                    pow256((9 - k + 1) as nat) == 256 * pow256((9 - k) as nat),
                    chunk@[k - 1] < 256,
            ;
            lemma_pow256_u64((9 - k + 1) as nat);
        }
        id = chunk[k - 1] as u64 + 256 * id;
        k -= 1;
    }
    let mut data: Vec<u8> = Vec::new();
    let mut i: usize = 10;
    let end = 10 + length;
    while i < end
        invariant
            10 <= i <= end,
            end == 10 + length,
            end <= chunk@.len(),
            data@ =~= chunk@.subrange(10, i as int),
        decreases end - i,
    {
        data.push(chunk[i]);
        i += 1;
    }
    Some((id, data))
}

/// 256 to the power `n`.
pub open spec fn pow256(n: nat) -> nat
    decreases n,
{
    if n == 0 {
        1
    } else {
        256 * pow256((n - 1) as nat)
    }
}

proof fn lemma_pow256_step(n: nat)
    ensures
        pow256(n + 1) == 256 * pow256(n),
{
}

proof fn lemma_pow256_u64(n: nat)
    requires
        n <= 8,
    ensures
        pow256(n) <= 0x1_0000_0000_0000_0000,
    decreases n,
{
    if n > 0 {
        lemma_pow256_u64((n - 1) as nat);
        assert(pow256(n) <= 0x1_0000_0000_0000_0000) by {
            reveal_with_fuel(pow256, 9);
            assert(pow256(8) == 0x1_0000_0000_0000_0000);
            lemma_pow256_mono((n - 1) as nat, 7);
        }
    }
}

proof fn lemma_pow256_mono(a: nat, b: nat)
    requires
        a <= b,
    ensures
        pow256(a) <= pow256(b),
    decreases b,
{
    if a < b {
        lemma_pow256_mono(a, (b - 1) as nat);
    }
}

// ── Streams of structured logs ───────────────────────────────────────

/// A stream that sees no fragment for this long (ms) is evicted.
pub const STREAM_TIMEOUT_MS: u64 = 2000;

/// Log streams being reassembled, by stream id, each with the time (ms)
/// of its last fragment. `S` is the decoder state of one stream.
pub struct StreamTable<S> {
    entries: Vec<(u64, S, u64)>,
}

/// The streams by id: decoder state and time of last activity.
pub open spec fn stream_map<S>(e: Seq<(u64, S, u64)>) -> Map<u64, (S, u64)>
    decreases e.len(),
{
    if e.len() == 0 {
        Map::empty()
    } else {
        stream_map(e.drop_last()).insert(e.last().0, (e.last().1, e.last().2))
    }
}

/// Distinct stream ids.
pub open spec fn unique_streams<S>(e: Seq<(u64, S, u64)>) -> bool {
    forall|i: int, j: int| 0 <= i < j < e.len() ==> (#[trigger] e[i]).0 != (#[trigger] e[j]).0
}

proof fn lemma_stream_map_index<S>(e: Seq<(u64, S, u64)>, i: int)
    requires
        unique_streams(e),
        0 <= i < e.len(),
    ensures
        stream_map(e).contains_key(e[i].0),
        stream_map(e)[e[i].0] == (e[i].1, e[i].2),
    decreases e.len(),
{
    if i < e.len() - 1 {
        let w = e.drop_last();
        assert(unique_streams(w)) by {
            assert forall|a: int, b: int| 0 <= a < b < w.len() implies (#[trigger] w[a]).0 != (#[trigger] w[b]).0 by {
                assert(w[a] == e[a] && w[b] == e[b]);
            }
        }
        lemma_stream_map_index(w, i);
        assert(w[i] == e[i]);
        assert(e[i].0 != e.last().0);
    }
}

proof fn lemma_stream_map_absent<S>(e: Seq<(u64, S, u64)>, id: u64)
    requires
        forall|i: int| 0 <= i < e.len() ==> (#[trigger] e[i]).0 != id,
    ensures
        !stream_map(e).contains_key(id),
    decreases e.len(),
{
    if e.len() > 0 {
        lemma_stream_map_absent(e.drop_last(), id);
    }
}

proof fn lemma_stream_map_dom<S>(e: Seq<(u64, S, u64)>)
    requires
        unique_streams(e),
    ensures
        forall|id: u64| stream_map(e).contains_key(id) <==> exists|i: int| 0 <= i < e.len() && (#[trigger] e[i]).0 == id,
    decreases e.len(),
{
    if e.len() > 0 {
        let w = e.drop_last();
        assert(unique_streams(w)) by {
            assert forall|a: int, b: int| 0 <= a < b < w.len() implies (#[trigger] w[a]).0 != (#[trigger] w[b]).0 by {
                assert(w[a] == e[a] && w[b] == e[b]);
            }
        }
        lemma_stream_map_dom(w);
        assert forall|id: u64| stream_map(e).contains_key(id) <==> exists|i: int| 0 <= i < e.len() && (#[trigger] e[i]).0 == id by {
            if stream_map(w).contains_key(id) {
                let i = choose|i: int| 0 <= i < w.len() && (#[trigger] w[i]).0 == id;
                assert(e[i] == w[i]);
            }
            if exists|i: int| 0 <= i < e.len() && (#[trigger] e[i]).0 == id {
                let i = choose|i: int| 0 <= i < e.len() && (#[trigger] e[i]).0 == id;
                if i < e.len() - 1 {
                    assert(w[i] == e[i]);
                }
            }
        }
    }
}

proof fn lemma_stream_map_remove<S>(e: Seq<(u64, S, u64)>, i: int)
    requires
        unique_streams(e),
        0 <= i < e.len(),
    ensures
        unique_streams(e.remove(i)),
        stream_map(e.remove(i)) == stream_map(e).remove(e[i].0),
{
    let f = e.remove(i);
    assert forall|a: int, b: int| 0 <= a < b < f.len() implies (#[trigger] f[a]).0 != (#[trigger] f[b]).0 by {
        let a2 = if a < i { a } else { a + 1 };
        let b2 = if b < i { b } else { b + 1 };
        assert(f[a] == e[a2] && f[b] == e[b2]);
    }
    lemma_stream_map_dom(e);
    lemma_stream_map_dom(f);
    assert forall|id: u64| #[trigger] stream_map(f).contains_key(id) implies stream_map(f)[id] == stream_map(e)[id] by {
        let k = choose|k: int| 0 <= k < f.len() && (#[trigger] f[k]).0 == id;
        lemma_stream_map_index(f, k);
        let k2 = if k < i { k } else { k + 1 };
        assert(f[k] == e[k2]);
        lemma_stream_map_index(e, k2);
    }
    assert forall|id: u64| stream_map(f).contains_key(id) <==> stream_map(e).remove(e[i].0).contains_key(id) by {
        if stream_map(f).contains_key(id) {
            let k = choose|k: int| 0 <= k < f.len() && (#[trigger] f[k]).0 == id;
            let k2 = if k < i { k } else { k + 1 };
            assert(f[k] == e[k2]);
        }
        if stream_map(e).remove(e[i].0).contains_key(id) {
            let k = choose|k: int| 0 <= k < e.len() && (#[trigger] e[k]).0 == id;
            assert(k != i);
            let k2 = if k < i { k } else { k - 1 };
            assert(f[k2] == e[k]);
        }
    }
    assert(stream_map(f) =~= stream_map(e).remove(e[i].0));
}

impl<S> StreamTable<S> {
    /// The streams by id: decoder state and time of last activity (ms).
    pub closed spec fn view(&self) -> Map<u64, (S, u64)> {
        stream_map(self.entries@)
    }

    /// Each stream once.
    pub closed spec fn well_formed(&self) -> bool {
        unique_streams(self.entries@)
    }

    /// No streams.
    pub fn new() -> (t: Self)
        ensures
            t.well_formed(),
            t.view() == Map::<u64, (S, u64)>::empty(),
    {
        StreamTable { entries: Vec::new() }
    }

    fn find(&self, id: u64) -> (r: Option<usize>)
        requires
            self.well_formed(),
        ensures
            r matches Some(i) ==> i < self.entries@.len() && self.entries@[i as int].0 == id,
            r is None ==> !self.view().contains_key(id),
    {
        let mut i: usize = 0;
        while i < self.entries.len()
            invariant
                i <= self.entries@.len(),
                forall|k: int| 0 <= k < i ==> (#[trigger] self.entries@[k]).0 != id,
            decreases self.entries.len() - i,
        {
            if self.entries[i].0 == id {
                return Some(i);
            }
            i += 1;
        }
        proof {
            lemma_stream_map_absent(self.entries@, id);
        }
        None
    }

    /// A fragment of stream `id` arrived at `now`: the stream is marked
    /// active, starting from `fresh` if it is new.
    pub fn touch(&mut self, id: u64, now: u64, fresh: S)
        requires
            old(self).well_formed(),
        ensures
            final(self).well_formed(),
            old(self).view().contains_key(id) ==> final(self).view() == old(self).view().insert(id, (old(self).view()[id].0, now)),
            !old(self).view().contains_key(id) ==> final(self).view() == old(self).view().insert(id, (fresh, now)),
    {
        match self.find(id) {
            Some(i) => {
                proof {
                    lemma_stream_map_index(self.entries@, i as int);
                    lemma_stream_map_remove(self.entries@, i as int);
                }
                let ghost e0 = self.entries@;
                let (k, st, _) = self.entries.remove(i);
                let ghost e1 = self.entries@;
                self.entries.push((k, st, now));
                proof {
                    assert(self.entries@.drop_last() =~= e1);
                    lemma_stream_map_dom(e1);
                    assert forall|a: int, b: int| 0 <= a < b < self.entries@.len() implies (#[trigger] self.entries@[a]).0
                        != (#[trigger] self.entries@[b]).0 by {
                        if b == e1.len() {
                            assert(self.entries@[a] == e1[a]);
                            assert(stream_map(e1).contains_key(e1[a].0));
                        } else {
                            assert(self.entries@[a] == e1[a] && self.entries@[b] == e1[b]);
                        }
                    }
                    assert(stream_map(self.entries@) =~= stream_map(e0).insert(id, (stream_map(e0)[id].0, now)));
                }
            },
            None => {
                let ghost e0 = self.entries@;
                self.entries.push((id, fresh, now));
                proof {
                    assert(self.entries@.drop_last() =~= e0);
                    assert forall|a: int, b: int| 0 <= a < b < self.entries@.len() implies (#[trigger] self.entries@[a]).0
                        != (#[trigger] self.entries@[b]).0 by {
                        if b == e0.len() {
                            assert(self.entries@[a] == e0[a]);
                            lemma_stream_map_index(e0, a);
                        } else {
                            assert(self.entries@[a] == e0[a] && self.entries@[b] == e0[b]);
                        }
                    }
                }
            },
        }
    }

    /// The decoder state of stream `id`, to feed it.
    pub fn get_mut(&mut self, id: u64) -> (r: Option<&mut S>)
        requires
            old(self).well_formed(),
        ensures
            final(self).well_formed(),
            !old(self).view().contains_key(id) ==> r is None && final(self).view() == old(self).view(),
            old(self).view().contains_key(id) ==> (r matches Some(s) && *s == old(self).view()[id].0
                && final(self).view() == old(self).view().insert(id, (*final(s), old(self).view()[id].1))),
    {
        match self.find(id) {
            Some(i) => {
                proof {
                    lemma_stream_map_index(self.entries@, i as int);
                    lemma_stream_map_update(self.entries@, i as int);
                }
                let slot = &mut self.entries[i];
                Some(&mut slot.1)
            },
            None => None,
        }
    }

    /// Take stream `id` out of the table.
    pub fn remove(&mut self, id: u64) -> (r: Option<S>)
        requires
            old(self).well_formed(),
        ensures
            final(self).well_formed(),
            final(self).view() == old(self).view().remove(id),
            old(self).view().contains_key(id) ==> r == Some(old(self).view()[id].0),
            !old(self).view().contains_key(id) ==> r is None,
    {
        match self.find(id) {
            Some(i) => {
                proof {
                    lemma_stream_map_index(self.entries@, i as int);
                    lemma_stream_map_remove(self.entries@, i as int);
                }
                let (_, st, _) = self.entries.remove(i);
                Some(st)
            },
            None => {
                assert(self.view().remove(id) =~= self.view());
                None
            },
        }
    }

    /// Ids of the streams idle for longer than the timeout at `now`.
    pub fn stale(&self, now: u64) -> (r: Vec<u64>)
        requires
            self.well_formed(),
        ensures
            forall|id: u64| r@.contains(id) <==> self.view().contains_key(id) && (if now >= self.view()[id].1 {
                now - self.view()[id].1
            } else {
                0
            }) > STREAM_TIMEOUT_MS,
    {
        proof {
            lemma_stream_map_dom(self.entries@);
        }
        let mut out: Vec<u64> = Vec::new();
        let mut i: usize = 0;
        while i < self.entries.len()
            invariant
                i <= self.entries@.len(),
                unique_streams(self.entries@),
                forall|id: u64| out@.contains(id) <==> exists|k: int| 0 <= k < i && (#[trigger] self.entries@[k]).0 == id && (
                if now >= self.entries@[k].2 {
                    now - self.entries@[k].2
                } else {
                    0
                }) > STREAM_TIMEOUT_MS,
            decreases self.entries.len() - i,
        {
            let (id, _, last) = &self.entries[i];
            let idle = now.saturating_sub(*last);
            let ghost before = out@;
            if idle > STREAM_TIMEOUT_MS {
                out.push(*id);
            }
            proof {
                assert forall|x: u64| out@.contains(x) <==> exists|k: int| 0 <= k < i + 1 && (#[trigger] self.entries@[k]).0 == x && (
                if now >= self.entries@[k].2 {
                    now - self.entries@[k].2
                } else {
                    0
                }) > STREAM_TIMEOUT_MS by {
                    if out@.contains(x) && !before.contains(x) {
                        assert(x == *id);
                        assert(self.entries@[i as int].0 == x);
                    }
                    if before.contains(x) {
                        let t = choose|t: int| 0 <= t < before.len() && before[t] == x;
                        assert(out@[t] == x);
                    }
                    if exists|k: int| 0 <= k < i + 1 && (#[trigger] self.entries@[k]).0 == x && (
                    if now >= self.entries@[k].2 {
                        now - self.entries@[k].2
                    } else {
                        0
                    }) > STREAM_TIMEOUT_MS {
                        let k = choose|k: int| 0 <= k < i + 1 && (#[trigger] self.entries@[k]).0 == x && (
                        if now >= self.entries@[k].2 {
                            now - self.entries@[k].2
                        } else {
                            0
                        }) > STREAM_TIMEOUT_MS;
                        if k == i {
                            assert(out@[out@.len() - 1] == x);
                        }
                    }
                }
            }
            i += 1;
        }
        proof {
            assert forall|id: u64| out@.contains(id) <==> self.view().contains_key(id) && (if now >= self.view()[id].1 {
                now - self.view()[id].1
            } else {
                0
            }) > STREAM_TIMEOUT_MS by {
                if self.view().contains_key(id) {
                    let k = choose|k: int| 0 <= k < self.entries@.len() && (#[trigger] self.entries@[k]).0 == id;
                    lemma_stream_map_index(self.entries@, k);
                    if out@.contains(id) {
                        let k2 = choose|k2: int| 0 <= k2 < i && (#[trigger] self.entries@[k2]).0 == id && (
                        if now >= self.entries@[k2].2 {
                            now - self.entries@[k2].2
                        } else {
                            0
                        }) > STREAM_TIMEOUT_MS;
                        if k2 != k {
                            assert(self.entries@[k2].0 != self.entries@[k].0);
                        }
                    }
                }
            }
        }
        out
    }
}

proof fn lemma_stream_map_update<S>(e: Seq<(u64, S, u64)>, i: int)
    requires
        unique_streams(e),
        0 <= i < e.len(),
    ensures
        forall|s: S| #![trigger e.update(i, (e[i].0, s, e[i].2))]
            unique_streams(e.update(i, (e[i].0, s, e[i].2))) && stream_map(e.update(i, (e[i].0, s, e[i].2)))
                == stream_map(e).insert(e[i].0, (s, e[i].2)),
{
    assert forall|s: S| #![trigger e.update(i, (e[i].0, s, e[i].2))]
        unique_streams(e.update(i, (e[i].0, s, e[i].2))) && stream_map(e.update(i, (e[i].0, s, e[i].2)))
            == stream_map(e).insert(e[i].0, (s, e[i].2)) by {
        let f = e.update(i, (e[i].0, s, e[i].2));
        assert forall|a: int, b: int| 0 <= a < b < f.len() implies (#[trigger] f[a]).0 != (#[trigger] f[b]).0 by {
            assert(f[a].0 == e[a].0 && f[b].0 == e[b].0);
        }
        lemma_stream_map_dom(e);
        lemma_stream_map_dom(f);
        assert forall|id: u64| #[trigger] stream_map(f).contains_key(id) <==> stream_map(e).insert(e[i].0, (s, e[i].2)).contains_key(id) by {
            if stream_map(f).contains_key(id) {
                let k = choose|k: int| 0 <= k < f.len() && (#[trigger] f[k]).0 == id;
                assert(e[k].0 == f[k].0);
            }
            if stream_map(e).contains_key(id) {
                let k = choose|k: int| 0 <= k < e.len() && (#[trigger] e[k]).0 == id;
                assert(e[k].0 == f[k].0);
            }
        }
        assert forall|id: u64| #[trigger] stream_map(f).contains_key(id) implies stream_map(f)[id] == stream_map(e).insert(e[i].0, (s, e[i].2))[id] by {
            let k = choose|k: int| 0 <= k < f.len() && (#[trigger] f[k]).0 == id;
            lemma_stream_map_index(f, k);
            if k != i {
                assert(f[k] == e[k]);
                lemma_stream_map_index(e, k);
                assert(e[k].0 != e[i].0);
            }
        }
        assert(stream_map(f) =~= stream_map(e).insert(e[i].0, (s, e[i].2)));
    }
}

} // verus!
