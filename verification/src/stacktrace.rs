//! Turning a task's stack dump into a backtrace: the unwinding decisions
//! (given the call-frame rule of each address), reading saved words out of
//! the captured stack, and shaping the resolved frames.

use vstd::prelude::*;

use crate::text::{hex_digits, push_char, push_hex, push_str, str_chars};

verus! {

/// A single frame in a resolved backtrace.
#[derive(Clone, Debug)]
pub struct Frame {
    pub function: String,
    pub file: Option<String>,
    pub line: Option<u32>,
    pub is_inline: bool,
}

/// Resolved backtrace produced from a stack dump and debug info.
pub struct Backtrace {
    pub frames: Vec<Frame>,
}

/// A task's ELF image.
pub struct TaskElf {
    pub data: Vec<u8>,
}

/// Loaded task ELFs by task name, each name once.
pub struct ElfCache {
    elfs: Vec<(String, TaskElf)>,
}

/// The task name an archive entry holds the ELF of: entries under `elf/`,
/// named by their last path component (when it is not empty).
pub open spec fn elf_entry_task(name: Seq<char>) -> Option<Seq<char>> {
    if crate::text::seq_starts_with(name, "elf/"@) {
        let last = last_component(name);
        if last.len() > 0 {
            Some(last)
        } else {
            None
        }
    } else {
        None
    }
}

/// What follows the last `/`.
pub open spec fn last_component(s: Seq<char>) -> Seq<char>
    decreases s.len(),
{
    if s.len() == 0 {
        Seq::empty()
    } else if s.last() == '/' {
        Seq::empty()
    } else {
        last_component(s.drop_last()).push(s.last())
    }
}

/// The task whose ELF an archive entry named `name` holds, if any.
pub fn entry_task_name(name: &str) -> (r: Option<String>)
    ensures
        match r {
            Some(t) => elf_entry_task(name@) == Some(t@),
            None => elf_entry_task(name@) is None,
        },
{
    proof {
        reveal_strlit("elf/");
    }
    if crate::text::strip_prefix_str(name, "elf/").is_none() {
        return None;
    }
    let cs = str_chars(name);
    let mut k: usize = cs.len();
    assert(cs@.subrange(0, k as int) =~= cs@);
    assert(cs@.subrange(k as int, k as int) =~= Seq::<char>::empty());
    assert(last_component(name@) =~= last_component(cs@.subrange(0, k as int)) + cs@.subrange(k as int, cs@.len() as int));
    while k > 0 && cs[k - 1] != '/'
        invariant
            k <= cs@.len(),
            cs@ == name@,
            last_component(name@) == last_component(cs@.subrange(0, k as int)) + cs@.subrange(k as int, cs@.len() as int),
        decreases k,
    {
        proof {
            let sub = cs@.subrange(0, k as int);
            assert(sub.drop_last() =~= cs@.subrange(0, k - 1));
            assert(last_component(sub) == last_component(cs@.subrange(0, k - 1)).push(cs@[k - 1]));
            assert(cs@.subrange(k - 1, cs@.len() as int) =~= seq![cs@[k - 1]] + cs@.subrange(k as int, cs@.len() as int));
        }
        k -= 1;
    }
    proof {
        let sub = cs@.subrange(0, k as int);
        if k > 0 {
            assert(sub.last() == '/');
        }
        assert(last_component(sub) =~= Seq::<char>::empty());
    }
    let mut out = String::new();
    let mut j: usize = k;
    while j < cs.len()
        invariant
            k <= j <= cs@.len(),
            out@ =~= cs@.subrange(k as int, j as int),
        decreases cs.len() - j,
    {
        push_char(&mut out, cs[j]);
        j += 1;
    }
    proof {
        assert(last_component(name@) =~= cs@.subrange(k as int, cs@.len() as int));
    }
    if out.as_str().as_bytes().len() == 0 {
        proof {
            if out@.len() > 0 {
                vstd::utf8::encode_utf8_first_scalar(out@);
            }
        }
        None
    } else {
        proof {
            assert(vstd::utf8::encode_utf8(out@).len() > 0);
            if out@.len() == 0 {
                assert(out@ =~= Seq::<char>::empty());
            }
        }
        Some(out)
    }
}

impl ElfCache {
    /// The loaded ELFs by task name.
    pub closed spec fn view(&self) -> Map<Seq<char>, Seq<u8>> {
        elf_map(self.elfs@)
    }

    /// No ELFs.
    pub fn new() -> (c: Self)
        ensures
            c.view() == Map::<Seq<char>, Seq<u8>>::empty(),
    {
        ElfCache { elfs: Vec::new() }
    }

    /// Store the ELF of `task`, replacing an earlier one.
    pub fn insert(&mut self, task: String, data: Vec<u8>)
        ensures
            final(self).view() == old(self).view().insert(task@, data@),
    {
        let ghost e0 = self.elfs@;
        let ghost t = task@;
        let ghost d = data@;
        self.elfs.push((task, TaskElf { data }));
        assert(self.elfs@.drop_last() =~= e0);
    }

    /// The ELF of `task`, if loaded.
    pub fn get(&self, task: &str) -> (r: Option<&TaskElf>)
        ensures
            !self.view().contains_key(task@) ==> r is None,
            self.view().contains_key(task@) ==> (r matches Some(e) && e.data@ == self.view()[task@]),
    {
        let mut k: usize = self.elfs.len();
        assert(self.elfs@.subrange(0, k as int) =~= self.elfs@);
        while k > 0
            invariant
                k <= self.elfs@.len(),
                elf_map(self.elfs@.subrange(0, k as int)).contains_key(task@) == self.view().contains_key(task@),
                elf_map(self.elfs@.subrange(0, k as int)).contains_key(task@) ==> elf_map(self.elfs@.subrange(0, k as int))[task@]
                    == self.view()[task@],
            decreases k,
        {
            let ghost sub = self.elfs@.subrange(0, k as int);
            assert(sub.drop_last() =~= self.elfs@.subrange(0, k - 1));
            assert(sub.last() == self.elfs@[k - 1]);
            if crate::text::str_eq(self.elfs[k - 1].0.as_str(), task) {
                return Some(&self.elfs[k - 1].1);
            }
            k -= 1;
        }
        None
    }
}

/// The ELFs by task name: later entries win.
pub open spec fn elf_map(e: Seq<(String, TaskElf)>) -> Map<Seq<char>, Seq<u8>>
    decreases e.len(),
{
    if e.len() == 0 {
        Map::empty()
    } else {
        elf_map(e.drop_last()).insert(e.last().0@, e.last().1.data@)
    }
}

// ── Project-relative paths ───────────────────────────────────────────

/// Path markers of the project's source trees, in the order they are tried.
pub open spec fn path_markers() -> Seq<Seq<char>> {
    seq!["/firmware/"@, "/shared/"@, "/modules/"@, "/patches/"@]
}

/// Backslashes turned into slashes.
pub open spec fn slashed(p: Seq<char>) -> Seq<char> {
    p.map_values(|c: char| if c == '\\' { '/' } else { c })
}

/// `m` occurs in `s` at `i`.
pub open spec fn occurs_at(s: Seq<char>, m: Seq<char>, i: int) -> bool {
    0 <= i && i + m.len() <= s.len() && s.subrange(i, i + m.len()) == m
}

/// The first position of `m` in `s` at or after `i`.
pub open spec fn first_occurrence(s: Seq<char>, m: Seq<char>, i: int) -> Option<int>
    decreases s.len() + 1 - i,
{
    if i < 0 || i + m.len() > s.len() {
        None
    } else if occurs_at(s, m, i) {
        Some(i)
    } else {
        first_occurrence(s, m, i + 1)
    }
}

/// The first position of `m` in `s`.
pub open spec fn find_first(s: Seq<char>, m: Seq<char>) -> Option<int> {
    first_occurrence(s, m, 0)
}

pub(crate) proof fn lemma_first_occurrence(s: Seq<char>, m: Seq<char>, i: int)
    requires
        0 <= i,
    ensures
        first_occurrence(s, m, i) matches Some(j) ==> i <= j && occurs_at(s, m, j),
    decreases s.len() + 1 - i,
{
    if i + m.len() <= s.len() && !occurs_at(s, m, i) {
        lemma_first_occurrence(s, m, i + 1);
    }
}

/// A source path shortened to start at the project tree it is in.
pub open spec fn spec_shorten_path(path: Seq<char>) -> Seq<char> {
    let p = slashed(path);
    shorten_from(p, path_markers())
}

/// The path from the first marker in `ms` that occurs, past its leading
/// slash; the path as is when none does.
pub open spec fn shorten_from(p: Seq<char>, ms: Seq<Seq<char>>) -> Seq<char>
    decreases ms.len(),
{
    if ms.len() == 0 {
        p
    } else {
        match find_first(p, ms[0]) {
            Some(i) => p.subrange(i + 1, p.len() as int),
            None => shorten_from(p, ms.drop_first()),
        }
    }
}

/// First position of `m` in `s`.
pub(crate) fn find_chars(s: &Vec<char>, m: &Vec<char>) -> (r: Option<usize>)
    ensures
        match r {
            Some(i) => find_first(s@, m@) == Some(i as int),
            None => find_first(s@, m@) is None,
        },
{
    if m.len() > s.len() {
        return None;
    }
    if m.len() == 0 {
        assert(s@.subrange(0, 0) =~= m@);
        return Some(0);
    }
    let last = s.len() - m.len();
    let mut i: usize = 0;
    while i <= last
        invariant
            last + m@.len() == s@.len(),
            m@.len() > 0,
            i <= last + 1,
            find_first(s@, m@) == first_occurrence(s@, m@, i as int),
        decreases last + 1 - i,
    {
        let mut k: usize = 0;
        while k < m.len() && s[i + k] == m[k]
            invariant
                k <= m@.len(),
                i <= last,
                last + m@.len() == s@.len(),
                s@.len() == s.len(),
                forall|t: int| 0 <= t < k ==> s@[i + t] == m@[t],
            decreases m.len() - k,
        {
            k += 1;
        }
        if k == m.len() {
            assert(s@.subrange(i as int, i + m@.len()) =~= m@);
            return Some(i);
        }
        assert(!occurs_at(s@, m@, i as int)) by {
            if occurs_at(s@, m@, i as int) {
                assert(s@.subrange(i as int, i + m@.len())[k as int] == m@[k as int]);
            }
        }
        i += 1;
    }
    None
}

/// Shorten an absolute source path to a project-relative one.
pub fn shorten_path(path: &str) -> (r: String)
    ensures
        r@ == spec_shorten_path(path@),
{
    let cs = str_chars(path);
    let mut p: Vec<char> = Vec::new();
    let mut i: usize = 0;
    while i < cs.len()
        invariant
            i <= cs@.len(),
            cs@ == path@,
            p@ =~= slashed(cs@.subrange(0, i as int)),
        decreases cs.len() - i,
    {
        let c = cs[i];
        p.push(if c == '\\' { '/' } else { c });
        i += 1;
    }
    assert(cs@.subrange(0, i as int) =~= cs@);
    let markers: [&str; 4] = ["/firmware/", "/shared/", "/modules/", "/patches/"];
    proof {
        reveal_strlit("/firmware/");
        reveal_strlit("/shared/");
        reveal_strlit("/modules/");
        reveal_strlit("/patches/");
    }
    let mut mi: usize = 0;
    assert(path_markers().subrange(0, 4) =~= path_markers());
    assert(forall|t: int| 0 <= t < 4 ==> (#[trigger] path_markers()[t]).len() > 0);
    while mi < 4
        invariant
            mi <= 4,
            forall|t: int| 0 <= t < 4 ==> (#[trigger] path_markers()[t]).len() > 0,
            p@ == slashed(path@),
            forall|t: int| 0 <= t < 4 ==> (#[trigger] markers@[t])@ == path_markers()[t],
            shorten_from(p@, path_markers()) == shorten_from(p@, path_markers().subrange(mi as int, 4)),
        decreases 4 - mi,
    {
        let m = str_chars(markers[mi]);
        let ghost rest = path_markers().subrange(mi as int, 4);
        assert(rest[0] == m@);
        assert(rest.drop_first() =~= path_markers().subrange(mi + 1, 4));
        match find_chars(&p, &m) {
            Some(idx) => {
                proof {
                    lemma_first_occurrence(p@, m@, 0);
                    assert(m@.len() > 0) by {
                        assert(m@ == path_markers()[mi as int]);
                    }
                    assert(occurs_at(p@, m@, idx as int));
                }
                assert(idx < p.len());
                let mut out = String::new();
                let mut j: usize = idx + 1;
                while j < p.len()
                    invariant
                        idx + 1 <= j <= p@.len(),
                        out@ =~= p@.subrange(idx + 1, j as int),
                    decreases p.len() - j,
                {
                    push_char(&mut out, p[j]);
                    j += 1;
                }
                return out;
            },
            None => {},
        }
        mi += 1;
    }
    let mut out = String::new();
    let mut j: usize = 0;
    while j < p.len()
        invariant
            j <= p@.len(),
            out@ =~= p@.subrange(0, j as int),
        decreases p.len() - j,
    {
        push_char(&mut out, p[j]);
        j += 1;
    }
    assert(p@.subrange(0, j as int) =~= p@);
    assert(path_markers().subrange(4, 4) =~= Seq::<Seq<char>>::empty());
    out
}


// ── Unwinding ────────────────────────────────────────────────────────

/// At most this many return addresses are collected.
pub const MAX_FRAMES: usize = 64;

/// The stack pointer's DWARF register number on ARM.
pub const SP_REGISTER: u16 = 13;

/// How the canonical frame address is found at an address.
#[derive(Clone, Copy, Debug, PartialEq, Eq, Structural)]
pub enum CfaRule {
    /// A register plus an offset.
    RegisterAndOffset { register: u16, offset: i64 },
    /// Any other rule (a DWARF expression).
    Unsupported,
}

/// Where the return address (the link register) was saved.
#[derive(Clone, Copy, Debug, PartialEq, Eq, Structural)]
pub enum ReturnRule {
    Undefined,
    SameValue,
    /// Saved in memory at CFA plus the offset.
    Offset(i64),
    /// Its value is CFA plus the offset.
    ValOffset(i64),
    /// Any other rule.
    Unsupported,
}

/// The call-frame rules in force at one address.
#[derive(Clone, Copy, Debug, PartialEq, Eq, Structural)]
pub struct UnwindRow {
    pub cfa: CfaRule,
    pub ra: ReturnRule,
}

/// What a task's stack dump holds of the faulting state.
pub struct StackDump {
    pub sp: u32,
    pub lr: u32,
    pub pc: u32,
    /// The stack captured from `sp` upwards.
    pub stack: Vec<u8>,
}

/// The address looked up for a program counter: the Thumb bit cleared.
pub open spec fn frame_address(pc: u64) -> u64 {
    (pc - pc % 2) as u64
}

/// Little-endian value of four bytes.
pub open spec fn le_word(b0: u8, b1: u8, b2: u8, b3: u8) -> nat {
    (b0 + 256 * b1 + 65536 * b2 + 16777216 * b3) as nat
}

/// The word saved at `addr`, read from the stack captured at `sp`: none
/// when the four bytes are not all in the capture.
pub open spec fn stack_word(stack: Seq<u8>, sp: u32, addr: u64) -> Option<u32> {
    if addr >= sp && addr - sp + 4 <= stack.len() {
        let o = addr - sp;
        Some(le_word(stack[o], stack[o + 1], stack[o + 2], stack[o + 3]) as u32)
    } else {
        None
    }
}

/// The outcome of one unwinding step.
#[derive(Clone, Copy, Debug, PartialEq, Eq, Structural)]
pub enum UnwindStep {
    /// Unwinding ends here.
    Stop,
    /// The caller's frame: its program counter and stack pointer.
    Continue { pc: u64, sp: u64 },
}

/// One unwinding step from the frame at `pc`, `sp`, the `depth`-th frame
/// collected (the faulting frame is the first), under the rules `row`
/// found for its address (none when there are none).
pub open spec fn spec_unwind_step(
    row: Option<UnwindRow>,
    depth: nat,
    pc: u64,
    sp: u64,
    lr: u32,
    stack_sp: u32,
    stack: Seq<u8>,
) -> UnwindStep {
    match row {
        None => UnwindStep::Stop,
        Some(r) => match r.cfa {
            CfaRule::RegisterAndOffset { register, offset } => {
                if register != SP_REGISTER {
                    UnwindStep::Stop
                } else {
                    let cfa = vstd::wrapping::u64_specs::wrapping_add_signed(sp, offset);
                    let next: Option<u64> = match r.ra {
                        ReturnRule::Undefined | ReturnRule::SameValue => {
                            if depth == 1 {
                                Some(lr as u64)
                            } else {
                                None
                            }
                        },
                        ReturnRule::Offset(o) => match stack_word(
                            stack,
                            stack_sp,
                            vstd::wrapping::u64_specs::wrapping_add_signed(cfa, o),
                        ) {
                            Some(v) => Some(v as u64),
                            None => None,
                        },
                        ReturnRule::ValOffset(o) => Some(
                            vstd::wrapping::u64_specs::wrapping_add_signed(cfa, o),
                        ),
                        ReturnRule::Unsupported => None,
                    };
                    match next {
                        Some(n) => if n == 0 || n == pc {
                            UnwindStep::Stop
                        } else {
                            UnwindStep::Continue { pc: n, sp: cfa }
                        },
                        None => UnwindStep::Stop,
                    }
                }
            },
            CfaRule::Unsupported => UnwindStep::Stop,
        },
    }
}

/// The link register stands for a return address at the faulting frame
/// only. When a frame's return address is Undefined or SameValue, a step
/// from any deeper frame ends the unwinding, and a step that goes on (from
/// the faulting frame) goes to the link register, with the stack pointer
/// at the frame's CFA.
pub proof fn law_link_register_only_at_leaf(
    row: Option<UnwindRow>,
    depth: nat,
    pc: u64,
    sp: u64,
    lr: u32,
    stack_sp: u32,
    stack: Seq<u8>,
)
    requires
        row matches Some(r) && (r.ra is Undefined || r.ra is SameValue),
    ensures
        depth != 1 ==> spec_unwind_step(row, depth, pc, sp, lr, stack_sp, stack) == UnwindStep::Stop,
        spec_unwind_step(row, depth, pc, sp, lr, stack_sp, stack) matches UnwindStep::Continue { pc: n, sp: c } ==> depth
            == 1 && n == lr as u64 && n != pc && n != 0 && (row->0.cfa matches CfaRule::RegisterAndOffset { register, offset }
            && register == SP_REGISTER && c == vstd::wrapping::u64_specs::wrapping_add_signed(sp, offset)),
{
}

/// A step that goes on moves the stack pointer to the frame's CFA (the
/// stack pointer plus the rule's offset) and the program counter to a new,
/// non-zero return address: the word saved at CFA plus the offset of an
/// `Offset` rule, read from the captured stack, or CFA plus the offset of
/// a `ValOffset` rule. Without a row, with a CFA on another register than
/// the stack pointer, or when an `Offset` rule points outside the capture,
/// unwinding ends.
pub proof fn law_step_follows_the_saved_return(
    row: Option<UnwindRow>,
    depth: nat,
    pc: u64,
    sp: u64,
    lr: u32,
    stack_sp: u32,
    stack: Seq<u8>,
)
    ensures
        row is None ==> spec_unwind_step(row, depth, pc, sp, lr, stack_sp, stack) == UnwindStep::Stop,
        row matches Some(r) && (r.cfa matches CfaRule::RegisterAndOffset { register, .. } && register != SP_REGISTER)
            ==> spec_unwind_step(row, depth, pc, sp, lr, stack_sp, stack) == UnwindStep::Stop,
        spec_unwind_step(row, depth, pc, sp, lr, stack_sp, stack) matches UnwindStep::Continue { pc: n, sp: c } ==> n
            != 0 && n != pc && (row matches Some(r) && r.cfa matches CfaRule::RegisterAndOffset { offset, .. } && c
            == vstd::wrapping::u64_specs::wrapping_add_signed(sp, offset) && (r.ra matches ReturnRule::Offset(o) ==> stack_word(
            stack,
            stack_sp,
            vstd::wrapping::u64_specs::wrapping_add_signed(c, o),
        ) == Some(n as u32)) && (r.ra matches ReturnRule::ValOffset(o) ==> n
            == vstd::wrapping::u64_specs::wrapping_add_signed(c, o))),
        row matches Some(r) && (r.cfa matches CfaRule::RegisterAndOffset { register, offset } && register == SP_REGISTER
            && (r.ra matches ReturnRule::Offset(o) && stack_word(
            stack,
            stack_sp,
            vstd::wrapping::u64_specs::wrapping_add_signed(vstd::wrapping::u64_specs::wrapping_add_signed(sp, offset), o),
        ) is None)) ==> spec_unwind_step(row, depth, pc, sp, lr, stack_sp, stack) == UnwindStep::Stop,
{
}

impl StackDump {
    /// The word saved at `addr` in the captured stack.
    pub fn read_word(&self, addr: u64) -> (r: Option<u32>)
        ensures
            r == stack_word(self.stack@, self.sp, addr),
    {
        if addr < self.sp as u64 {
            return None;
        }
        let off: u64 = addr - self.sp as u64;
        if off > self.stack.len() as u64 || self.stack.len() as u64 - off < 4 {
            return None;
        }
        let o = off as usize;
        let w: u32 = self.stack[o] as u32 + 256 * (self.stack[o + 1] as u32) + 65536 * (
        self.stack[o + 2] as u32) + 16777216 * (self.stack[o + 3] as u32);
        Some(w)
    }
}

/// One unwinding step: see `spec_unwind_step`.
pub fn unwind_step(row: Option<UnwindRow>, depth: usize, pc: u64, sp: u64, dump: &StackDump) -> (r:
    UnwindStep)
    ensures
        r == spec_unwind_step(row, depth as nat, pc, sp, dump.lr, dump.sp, dump.stack@),
{
    let r = match row {
        None => return UnwindStep::Stop,
        Some(r) => r,
    };
    let cfa = match r.cfa {
        CfaRule::RegisterAndOffset { register, offset } => {
            if register != SP_REGISTER {
                return UnwindStep::Stop;
            }
            sp.wrapping_add_signed(offset)
        },
        CfaRule::Unsupported => return UnwindStep::Stop,
    };
    let next: u64 = match r.ra {
        ReturnRule::Undefined | ReturnRule::SameValue => {
            if depth == 1 {
                dump.lr as u64
            } else {
                return UnwindStep::Stop;
            }
        },
        ReturnRule::Offset(o) => match dump.read_word(cfa.wrapping_add_signed(o)) {
            Some(v) => v as u64,
            None => return UnwindStep::Stop,
        },
        ReturnRule::ValOffset(o) => cfa.wrapping_add_signed(o),
        ReturnRule::Unsupported => return UnwindStep::Stop,
    };
    if next == 0 || next == pc {
        UnwindStep::Stop
    } else {
        UnwindStep::Continue { pc: next, sp: cfa }
    }
}

/// The program counter with its Thumb bit cleared.
pub fn thumb_address(pc: u64) -> (r: u64)
    ensures
        r == frame_address(pc),
{
    let r = pc & !1u64;
    assert(pc & !1u64 == (pc - pc % 2) as u64) by (bit_vector);
    r
}


/// Collects the return addresses of a stack dump, one frame at a time: the
/// caller looks up the call-frame rules at `next_address` and hands them to
/// `advance`, until `next_address` gives none.
pub struct Unwinder {
    dump: StackDump,
    pc: u64,
    sp: u64,
    addresses: Vec<u64>,
    stopped: bool,
}

impl Unwinder {
    /// The dump being unwound.
    pub closed spec fn dump(&self) -> &StackDump {
        &self.dump
    }

    /// The current frame's program counter.
    pub closed spec fn pc(&self) -> u64 {
        self.pc
    }

    /// The current frame's stack pointer.
    pub closed spec fn sp(&self) -> u64 {
        self.sp
    }

    /// The addresses collected so far, in order.
    pub closed spec fn collected(&self) -> Seq<u64> {
        self.addresses@
    }

    /// Unwinding has ended.
    pub closed spec fn stopped(&self) -> bool {
        self.stopped
    }

    /// Never more than `MAX_FRAMES` addresses.
    pub closed spec fn well_formed(&self) -> bool {
        self.addresses@.len() <= MAX_FRAMES
    }

    /// Another frame is to be looked up.
    pub open spec fn pending(&self) -> bool {
        !self.stopped() && self.collected().len() < MAX_FRAMES
    }

    /// Start at the faulting frame of `dump`.
    pub fn new(dump: StackDump) -> (u: Self)
        ensures
            u.well_formed(),
            u.pc() == dump.pc as u64,
            u.sp() == dump.sp as u64,
            u.collected() == Seq::<u64>::empty(),
            !u.stopped(),
            u.dump() == &dump,
    {
        let pc = dump.pc as u64;
        let sp = dump.sp as u64;
        Unwinder { dump, pc, sp, addresses: Vec::new(), stopped: false }
    }

    /// The address whose call-frame rules are needed next, if unwinding
    /// goes on.
    pub fn next_address(&self) -> (r: Option<u64>)
        ensures
            self.pending() ==> r == Some(frame_address(self.pc())),
            !self.pending() ==> r is None,
    {
        if self.stopped || self.addresses.len() >= MAX_FRAMES {
            None
        } else {
            Some(thumb_address(self.pc))
        }
    }

    /// Record the current frame's address and step to its caller under
    /// `row`, the rules found at that address (none when there are none).
    pub fn advance(&mut self, row: Option<UnwindRow>)
        requires
            old(self).well_formed(),
            old(self).pending(),
        ensures
            final(self).well_formed(),
            final(self).dump() == old(self).dump(),
            final(self).collected() == old(self).collected().push(frame_address(old(self).pc())),
            match spec_unwind_step(
                row,
                old(self).collected().len() + 1,
                old(self).pc(),
                old(self).sp(),
                old(self).dump().lr,
                old(self).dump().sp,
                old(self).dump().stack@,
            ) {
                UnwindStep::Stop => final(self).stopped(),
                UnwindStep::Continue { pc, sp } => !final(self).stopped() && final(self).pc() == pc
                    && final(self).sp() == sp,
            },
    {
        let a = thumb_address(self.pc);
        self.addresses.push(a);
        match unwind_step(row, self.addresses.len(), self.pc, self.sp, &self.dump) {
            UnwindStep::Stop => {
                self.stopped = true;
            },
            UnwindStep::Continue { pc, sp } => {
                self.pc = pc;
                self.sp = sp;
            },
        }
    }

    /// The collected addresses, runs of one address kept once.
    pub fn addresses(&self) -> (r: Vec<u64>)
        ensures
            r@ == dedup(self.collected()),
    {
        dedup_addresses(&self.addresses)
    }
}

/// `s` with each run of equal neighbours kept once.
pub open spec fn dedup(s: Seq<u64>) -> Seq<u64>
    decreases s.len(),
{
    if s.len() == 0 {
        Seq::empty()
    } else {
        let d = dedup(s.drop_last());
        if d.len() > 0 && d.last() == s.last() {
            d
        } else {
            d.push(s.last())
        }
    }
}

/// Each run of equal neighbours kept once (`Vec::dedup`).
pub fn dedup_addresses(v: &Vec<u64>) -> (r: Vec<u64>)
    ensures
        r@ == dedup(v@),
{
    let mut out: Vec<u64> = Vec::new();
    let mut i: usize = 0;
    while i < v.len()
        invariant
            i <= v@.len(),
            out@ == dedup(v@.subrange(0, i as int)),
        decreases v.len() - i,
    {
        proof {
            assert(v@.subrange(0, i + 1).drop_last() =~= v@.subrange(0, i as int));
        }
        if out.len() == 0 || out[out.len() - 1] != v[i] {
            out.push(v[i]);
        }
        i += 1;
    }
    assert(v@.subrange(0, i as int) =~= v@);
    out
}

/// No two neighbours of the deduplicated sequence are equal.
pub proof fn law_dedup_no_repeats(s: Seq<u64>)
    ensures
        forall|i: int, j: int|
            0 <= i && j == i + 1 && j < dedup(s).len() ==> #[trigger] dedup(s)[i] != #[trigger] dedup(
                s,
            )[j],
        dedup(s).len() <= s.len(),
        s.len() > 0 ==> dedup(s).len() > 0 && dedup(s)[0] == s[0],
    decreases s.len(),
{
    if s.len() > 0 {
        law_dedup_no_repeats(s.drop_last());
        if s.len() == 1 {
            assert(s.drop_last() =~= Seq::<u64>::empty());
        }
    }
}

// ── Frames ───────────────────────────────────────────────────────────

/// `d` left-padded with zeros to `w` characters.
pub open spec fn zero_padded(d: Seq<char>, w: nat) -> Seq<char> {
    if d.len() < w {
        Seq::new((w - d.len()) as nat, |_i: int| '0') + d
    } else {
        d
    }
}

/// An address spelled as `0x` and at least eight hex digits.
pub open spec fn address_text(a: u64) -> Seq<char> {
    "0x"@ + zero_padded(hex_digits(a as nat), 8)
}

/// An address spelled as `0x` and at least eight lower-case hex digits.
pub fn format_address(a: u64) -> (r: String)
    ensures
        r@ == address_text(a),
{
    let mut digits = String::new();
    push_hex(&mut digits, a);
    let n = str_chars(digits.as_str()).len();
    let mut out = String::new();
    push_str(&mut out, "0x");
    proof {
        reveal_strlit("0x");
    }
    let ghost start = out@;
    let mut k: usize = n;
    while k < 8
        invariant
            n <= k <= 8 || (n > 8 && k == n),
            n == digits@.len(),
            start == "0x"@,
            out@ =~= start + Seq::new((k - n) as nat, |_i: int| '0'),
        decreases 8 - k,
    {
        push_char(&mut out, '0');
        k += 1;
    }
    push_str(&mut out, digits.as_str());
    proof {
        if n < 8 {
            assert(out@ =~= address_text(a));
        } else {
            assert(Seq::new((k - n) as nat, |_i: int| '0') =~= Seq::<char>::empty());
            assert(out@ =~= address_text(a));
        }
    }
    out
}

/// A frame found for an address by the debug info: its function's name
/// (when known), source file and line.
pub struct FoundFrame {
    pub function: Option<String>,
    pub file: Option<String>,
    pub line: Option<u32>,
}

/// The backtrace frame made of a found frame at `addr`: an unknown
/// function is named by its address, the file shortened.
pub open spec fn frame_view(addr: u64, f: FoundFrame, inline: bool) -> (Seq<char>, Option<Seq<char>>, Option<u32>, bool) {
    (
        match f.function {
            Some(n) => n@,
            None => address_text(addr),
        },
        match f.file {
            Some(p) => Some(spec_shorten_path(p@)),
            None => None,
        },
        f.line,
        inline,
    )
}

/// A backtrace frame as plain values.
pub open spec fn frame_values(f: Frame) -> (Seq<char>, Option<Seq<char>>, Option<u32>, bool) {
    (
        f.function@,
        match f.file {
            Some(p) => Some(p@),
            None => None,
        },
        f.line,
        f.is_inline,
    )
}

/// The backtrace frames of one address: every frame but the last
/// (outermost) is inlined into the next.
pub fn address_frames(addr: u64, found: Vec<FoundFrame>) -> (r: Vec<Frame>)
    ensures
        r@.len() == found@.len(),
        forall|i: int|
            0 <= i < r@.len() ==> frame_values(#[trigger] r@[i]) == frame_view(
                addr,
                found@[i],
                i < found@.len() - 1,
            ),
{
    let n = found.len();
    let ghost f0 = found@;
    let mut found = found;
    let mut rev: Vec<Frame> = Vec::new();
    while found.len() > 0
        invariant
            found@.len() + rev@.len() == n,
            n == f0.len(),
            found@ =~= f0.subrange(0, found@.len() as int),
            forall|j: int|
                0 <= j < rev@.len() ==> frame_values(#[trigger] rev@[j]) == frame_view(
                    addr,
                    f0[n - 1 - j],
                    n - 1 - j < n - 1,
                ),
        decreases found.len(),
    {
        let k = found.len() - 1;
        let f = found.pop().unwrap();
        assert(f == f0[k as int]);
        let function = match f.function {
            Some(name) => name,
            None => format_address(addr),
        };
        let file = match f.file {
            Some(p) => Some(shorten_path(p.as_str())),
            None => None,
        };
        rev.push(Frame { function, file, line: f.line, is_inline: k + 1 < n });
        proof {
            assert(found@ =~= f0.subrange(0, found@.len() as int));
        }
    }
    let mut out: Vec<Frame> = Vec::new();
    while rev.len() > 0
        invariant
            rev@.len() + out@.len() == n,
            n == f0.len(),
            forall|j: int|
                0 <= j < rev@.len() ==> frame_values(#[trigger] rev@[j]) == frame_view(
                    addr,
                    f0[n - 1 - j],
                    n - 1 - j < n - 1,
                ),
            forall|i: int|
                0 <= i < out@.len() ==> frame_values(#[trigger] out@[i]) == frame_view(
                    addr,
                    f0[i],
                    i < n - 1,
                ),
        decreases rev.len(),
    {
        let fr = rev.pop().unwrap();
        out.push(fr);
    }
    out
}

/// The backtrace of frames `frames`, or, when none was resolved, one frame
/// naming the faulting address.
pub fn backtrace_from(pc: u32, frames: Vec<Frame>) -> (b: Backtrace)
    ensures
        frames@.len() > 0 ==> b.frames@ == frames@,
        frames@.len() == 0 ==> b.frames@.len() == 1 && frame_values(b.frames@[0]) == (
            address_text(pc as u64),
            None::<Seq<char>>,
            None::<u32>,
            false,
        ),
{
    if frames.len() > 0 {
        Backtrace { frames }
    } else {
        let mut v: Vec<Frame> = Vec::new();
        v.push(Frame { function: format_address(pc as u64), file: None, line: None, is_inline: false });
        Backtrace { frames: v }
    }
}

} // verus!
