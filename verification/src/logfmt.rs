//! Rendering of structured log entries: level labels, argument values,
//! format strings, line wrapping against the terminal width, and the
//! metadata tables (species, type names, task names) that entries refer to.

use vstd::prelude::*;

use crate::stacktrace::{address_text, find_chars, find_first, format_address, lemma_first_occurrence, occurs_at, ElfCache, Frame};
use crate::text::{decimal, hex_digits, push_char, push_hex, seq_starts_with, strip_prefix_str, str_eq, push_decimal, push_decimal_u128, push_signed_decimal, push_str, signed_decimal, str_chars};

verus! {

/// A log entry's severity.
#[derive(Clone, Copy, Debug, PartialEq, Eq, Structural)]
pub enum LogLevel {
    Panic,
    Error,
    Warn,
    Info,
    Debug,
    Trace,
}

/// The five-column label of a level.
pub open spec fn spec_level_label(level: LogLevel) -> Seq<char> {
    match level {
        LogLevel::Panic => "PANIC"@,
        LogLevel::Error => "ERROR"@,
        LogLevel::Warn => " WARN"@,
        LogLevel::Info => " INFO"@,
        LogLevel::Debug => "DEBUG"@,
        LogLevel::Trace => "TRACE"@,
    }
}

/// The five-column label of a level.
pub fn level_label(level: LogLevel) -> (r: &'static str)
    ensures
        r@ == spec_level_label(level),
{
    match level {
        LogLevel::Panic => "PANIC",
        LogLevel::Error => "ERROR",
        LogLevel::Warn => " WARN",
        LogLevel::Info => " INFO",
        LogLevel::Debug => "DEBUG",
        LogLevel::Trace => "TRACE",
    }
}

/// `label` is `tag`'s leading part, right-aligned in five columns: some
/// spaces, then the first characters of `tag`.
pub open spec fn spells_tag(label: Seq<char>, tag: Seq<char>) -> bool {
    exists|k: int|
        0 <= k < label.len() && (forall|i: int| 0 <= i < k ==> label[i] == ' ') && label[k] != ' '
            && crate::text::seq_starts_with(tag, #[trigger] label.subrange(k, label.len() as int))
}

/// Each level has its own five-column label, and every level that Renode
/// also logs at is labelled with (the start of) a tag that Renode's log
/// reads back as that same level: `ERROR`, ` WARN` (of `WARNING`),
/// ` INFO`, `DEBUG`, `TRACE`.
pub proof fn law_level_labels_name_their_levels(l: LogLevel, m: LogLevel)
    ensures
        spec_level_label(l).len() == 5,
        spec_level_label(l) == spec_level_label(m) ==> l == m,
        l != LogLevel::Panic ==> exists|tag: Seq<char>|
            crate::emulator::renode_level(tag) == Some(l) && spells_tag(spec_level_label(l), tag),
{
    reveal_strlit("PANIC");
    reveal_strlit("ERROR");
    reveal_strlit(" WARN");
    reveal_strlit(" INFO");
    reveal_strlit("DEBUG");
    reveal_strlit("TRACE");
    reveal_strlit("WARNING");
    reveal_strlit("INFO");
    reveal_strlit("FATAL");
    reveal_strlit("NOISY");
    let labels = seq!["PANIC"@, "ERROR"@, " WARN"@, " INFO"@, "DEBUG"@, "TRACE"@];
    assert forall|i: int, j: int| 0 <= i < j < 6 implies labels[i] != labels[j] by {
        if labels[i][0] == labels[j][0] {
            assert(labels[i][1] != labels[j][1]);
        }
    }
    assert(spec_level_label(l) == spec_level_label(m) ==> l == m) by {
        assert(labels[0] == spec_level_label(LogLevel::Panic));
    }
    crate::emulator::law_renode_tags_name_their_levels("ERROR"@);
    crate::emulator::law_renode_tags_name_their_levels("WARNING"@);
    crate::emulator::law_renode_tags_name_their_levels("INFO"@);
    crate::emulator::law_renode_tags_name_their_levels("DEBUG"@);
    crate::emulator::law_renode_tags_name_their_levels("TRACE"@);
    let lab = spec_level_label(l);
    match l {
        LogLevel::Panic => {},
        LogLevel::Error => {
            assert(lab.subrange(0, 5) =~= "ERROR"@);
            assert(spells_tag(lab, "ERROR"@));
        },
        LogLevel::Warn => {
            assert("WARNING"@.subrange(0, 4) =~= lab.subrange(1, lab.len() as int));
            assert(lab[0] == ' ' && lab[1] != ' ');
            assert(crate::text::seq_starts_with("WARNING"@, lab.subrange(1, lab.len() as int)));
            assert(spells_tag(lab, "WARNING"@));
        },
        LogLevel::Info => {
            assert("INFO"@.subrange(0, 4) =~= lab.subrange(1, lab.len() as int));
            assert(lab[0] == ' ' && lab[1] != ' ');
            assert(crate::text::seq_starts_with("INFO"@, lab.subrange(1, lab.len() as int)));
            assert(spells_tag(lab, "INFO"@));
        },
        LogLevel::Debug => {
            assert(lab.subrange(0, 5) =~= "DEBUG"@);
            assert(spells_tag(lab, "DEBUG"@));
        },
        LogLevel::Trace => {
            assert(lab.subrange(0, 5) =~= "TRACE"@);
            assert(spells_tag(lab, "TRACE"@));
        },
    }
}

/// The ANSI style a level's label is shown in.
pub open spec fn spec_level_color(level: LogLevel) -> Seq<char> {
    match level {
        LogLevel::Panic => "\x1b[5;1;97;41m"@,
        LogLevel::Error => "\x1b[31m"@,
        LogLevel::Warn => "\x1b[33m"@,
        LogLevel::Info => "\x1b[32m"@,
        LogLevel::Debug => "\x1b[34m"@,
        LogLevel::Trace => "\x1b[2m"@,
    }
}

/// The ANSI style a level's label is shown in.
pub fn level_color(level: LogLevel) -> (r: &'static str)
    ensures
        r@ == spec_level_color(level),
{
    match level {
        LogLevel::Panic => "\x1b[5;1;97;41m",
        LogLevel::Error => "\x1b[31m",
        LogLevel::Warn => "\x1b[33m",
        LogLevel::Info => "\x1b[32m",
        LogLevel::Debug => "\x1b[34m",
        LogLevel::Trace => "\x1b[2m",
    }
}

/// A table keyed by 64-bit hashes; a later insertion under a key replaces
/// the earlier one.
pub struct HashTable<V> {
    entries: Vec<(u64, V)>,
}

/// The table's contents: later entries win.
pub open spec fn table_map<V>(e: Seq<(u64, V)>) -> Map<u64, V>
    decreases e.len(),
{
    if e.len() == 0 {
        Map::empty()
    } else {
        table_map(e.drop_last()).insert(e.last().0, e.last().1)
    }
}

impl<V> HashTable<V> {
    /// The entries by key.
    pub closed spec fn view(&self) -> Map<u64, V> {
        table_map(self.entries@)
    }

    /// An empty table.
    pub fn new() -> (t: Self)
        ensures
            t.view() == Map::<u64, V>::empty(),
    {
        HashTable { entries: Vec::new() }
    }

    /// Store `value` under `key`, replacing what was there.
    pub fn insert(&mut self, key: u64, value: V)
        ensures
            final(self).view() == old(self).view().insert(key, value),
    {
        let ghost e0 = self.entries@;
        self.entries.push((key, value));
        assert(self.entries@.drop_last() =~= e0);
    }

    /// The value under `key`.
    pub fn get(&self, key: u64) -> (r: Option<&V>)
        ensures
            !self.view().contains_key(key) ==> r is None,
            self.view().contains_key(key) ==> (r matches Some(v) && *v == self.view()[key]),
    {
        let mut k: usize = self.entries.len();
        assert(self.entries@.subrange(0, k as int) =~= self.entries@);
        while k > 0
            invariant
                k <= self.entries@.len(),
                table_map(self.entries@.subrange(0, k as int)).contains_key(key) == self.view().contains_key(key),
                table_map(self.entries@.subrange(0, k as int)).contains_key(key) ==> table_map(
                    self.entries@.subrange(0, k as int),
                )[key] == self.view()[key],
            decreases k,
        {
            let ghost sub = self.entries@.subrange(0, k as int);
            assert(sub.drop_last() =~= self.entries@.subrange(0, k - 1));
            assert(sub.last() == self.entries@[k - 1]);
            if self.entries[k - 1].0 == key {
                return Some(&self.entries[k - 1].1);
            }
            k -= 1;
        }
        None
    }
}

/// An argument value of a structured log entry.
#[derive(Debug)]
pub enum LogValue {
    /// Any unsigned integer.
    Unsigned(u128),
    /// Any signed integer.
    Signed(i128),
    /// A floating-point value, as its decimal text.
    Float(String),
    Char(char),
    Bool(bool),
    Str(String),
    Unit,
    /// An array or a slice.
    List(Vec<LogValue>),
    Tuple { type_id: u64, fields: Vec<LogValue> },
    /// A struct's field values, in order.
    Struct { type_id: u64, fields: Vec<LogValue> },
    /// A captured stack: its stack pointer and the number of bytes.
    StackDump { sp: u32, len: usize },
}

/// How a value is shown, with `names` naming the types by id.
pub open spec fn value_text(v: LogValue, names: Map<u64, String>) -> Seq<char>
    decreases v,
{
    match v {
        LogValue::Unsigned(n) => decimal(n as nat),
        LogValue::Signed(n) => signed_decimal(n as int),
        LogValue::Float(t) => t@,
        LogValue::Char(c) => seq!['\'', c, '\''],
        LogValue::Bool(b) => if b {
            "true"@
        } else {
            "false"@
        },
        LogValue::Str(s) => s@,
        LogValue::Unit => "()"@,
        LogValue::List(items) => "["@ + joined(items@, names) + "]"@,
        LogValue::Tuple { type_id, fields } => if names.contains_key(type_id) {
            if fields@.len() == 0 {
                names[type_id]@
            } else {
                names[type_id]@ + "("@ + joined(fields@, names) + ")"@
            }
        } else {
            "("@ + joined(fields@, names) + ")"@
        },
        LogValue::Struct { type_id, fields } => if fields@.len() == 0 {
            if names.contains_key(type_id) {
                names[type_id]@
            } else {
                "{}"@
            }
        } else if names.contains_key(type_id) {
            names[type_id]@ + " {"@ + joined(fields@, names) + "}"@
        } else {
            "{"@ + joined(fields@, names) + "}"@
        },
        LogValue::StackDump { sp, len } => "<stack dump: sp="@ + address_text(sp as u64) + ", "@
            + decimal(len as nat) + " bytes>"@,
    }
}

/// The values shown one after another, separated by `", "`.
pub open spec fn joined(vs: Seq<LogValue>, names: Map<u64, String>) -> Seq<char>
    decreases vs,
{
    if vs.len() == 0 {
        Seq::empty()
    } else if vs.len() == 1 {
        value_text(vs[0], names)
    } else {
        joined(vs.drop_last(), names) + ", "@ + value_text(vs.last(), names)
    }
}

/// Appends the values of `vs`, separated by `", "`.
fn push_joined(out: &mut String, vs: &Vec<LogValue>, names: &HashTable<String>, Ghost(whole): Ghost<LogValue>)
    requires
        decreases_to!(whole => vs@),
    ensures
        final(out)@ == old(out)@ + joined(vs@, names.view()),
    decreases whole, 1nat,
{
    let ghost start = old(out)@;
    let mut i: usize = 0;
    while i < vs.len()
        invariant
            i <= vs@.len(),
            decreases_to!(whole => vs@),
            out@ == start + joined(vs@.subrange(0, i as int), names.view()),
        decreases vs.len() - i,
    {
        proof {
            let sub = vs@.subrange(0, i + 1);
            assert(sub.drop_last() =~= vs@.subrange(0, i as int));
            assert(sub.last() == vs@[i as int]);
            if i == 0 {
                assert(vs@.subrange(0, 0) =~= Seq::<LogValue>::empty());
            }
        }
        if i > 0 {
            push_str(out, ", ");
        }
        let t = format_value_inner(&vs[i], names, Ghost(whole));
        push_str(out, t.as_str());
        proof {
            assert(out@ =~= start + joined(vs@.subrange(0, i + 1), names.view()));
        }
        i += 1;
    }
    assert(vs@.subrange(0, i as int) =~= vs@);
}

fn format_value_inner(v: &LogValue, names: &HashTable<String>, Ghost(whole): Ghost<LogValue>) -> (r: String)
    requires
        decreases_to!(whole => *v),
    ensures
        r@ == value_text(*v, names.view()),
    decreases whole, 0nat,
{
    format_value(v, names)
}

/// How a value is shown in a log line.
pub fn format_value(v: &LogValue, names: &HashTable<String>) -> (r: String)
    ensures
        r@ == value_text(*v, names.view()),
    decreases *v, 2nat,
{
    let mut out = String::new();
    match v {
        LogValue::Unsigned(n) => push_decimal_u128(&mut out, *n),
        LogValue::Signed(n) => push_signed_decimal(&mut out, *n),
        LogValue::Float(t) => push_str(&mut out, t.as_str()),
        LogValue::Char(c) => {
            push_char(&mut out, '\'');
            push_char(&mut out, *c);
            push_char(&mut out, '\'');
        },
        LogValue::Bool(b) => {
            if *b {
                push_str(&mut out, "true");
            } else {
                push_str(&mut out, "false");
            }
        },
        LogValue::Str(s) => push_str(&mut out, s.as_str()),
        LogValue::Unit => push_str(&mut out, "()"),
        LogValue::List(items) => {
            push_str(&mut out, "[");
            push_joined(&mut out, items, names, Ghost(*v));
            push_str(&mut out, "]");
        },
        LogValue::Tuple { type_id, fields } => {
            match names.get(*type_id) {
                Some(name) => {
                    push_str(&mut out, name.as_str());
                    if fields.len() > 0 {
                        push_str(&mut out, "(");
                        push_joined(&mut out, fields, names, Ghost(*v));
                        push_str(&mut out, ")");
                    }
                },
                None => {
                    push_str(&mut out, "(");
                    push_joined(&mut out, fields, names, Ghost(*v));
                    push_str(&mut out, ")");
                },
            }
        },
        LogValue::Struct { type_id, fields } => {
            let name = names.get(*type_id);
            if fields.len() == 0 {
                match name {
                    Some(n) => push_str(&mut out, n.as_str()),
                    None => push_str(&mut out, "{}"),
                }
            } else {
                match name {
                    Some(n) => {
                        push_str(&mut out, n.as_str());
                        push_str(&mut out, " {");
                    },
                    None => push_str(&mut out, "{"),
                }
                push_joined(&mut out, fields, names, Ghost(*v));
                push_str(&mut out, "}");
            }
        },
        LogValue::StackDump { sp, len } => {
            push_str(&mut out, "<stack dump: sp=");
            let a = format_address(*sp as u64);
            push_str(&mut out, a.as_str());
            push_str(&mut out, ", ");
            push_decimal(&mut out, *len as u64);
            push_str(&mut out, " bytes>");
        },
    }
    proof {
        let vv = *v;
        match vv {
            LogValue::Tuple { type_id, fields } => {
                if fields@.len() == 0 {
                    assert(joined(fields@, names.view()) =~= Seq::<char>::empty());
                }
            },
            _ => {},
        }
    }
    out
}


/// A format string with each `{}` replaced by the next value's text, and
/// by `???` once the values run out.
pub open spec fn species_text(fmt: Seq<char>, vals: Seq<LogValue>, names: Map<u64, String>) -> Seq<char>
    decreases fmt.len(),
{
    if fmt.len() == 0 {
        Seq::empty()
    } else if fmt.len() >= 2 && fmt[0] == '{' && fmt[1] == '}' {
        let rest = fmt.subrange(2, fmt.len() as int);
        if vals.len() > 0 {
            value_text(vals[0], names) + species_text(rest, vals.drop_first(), names)
        } else {
            "???"@ + species_text(rest, vals, names)
        }
    } else {
        seq![fmt[0]] + species_text(fmt.drop_first(), vals, names)
    }
}

/// Fill the `{}` holes of a log format string with the entry's values.
pub fn format_species(fmt: &str, values: &Vec<LogValue>, names: &HashTable<String>) -> (r: String)
    ensures
        r@ == species_text(fmt@, values@, names.view()),
{
    let cs = str_chars(fmt);
    let n = cs.len();
    let mut out = String::new();
    let mut i: usize = 0;
    let mut j: usize = 0;
    proof {
        assert(cs@.subrange(0, n as int) =~= cs@);
        assert(values@.subrange(0, values@.len() as int) =~= values@);
    }
    while i < n
        invariant
            n == cs@.len(),
            cs@ == fmt@,
            i <= n,
            j <= values@.len(),
            out@ + species_text(cs@.subrange(i as int, n as int), values@.subrange(j as int, values@.len() as int), names.view())
                == species_text(fmt@, values@, names.view()),
        decreases n - i,
    {
        let ghost f = cs@.subrange(i as int, n as int);
        let ghost vs = values@.subrange(j as int, values@.len() as int);
        if cs[i] == '{' && i + 1 < n && cs[i + 1] == '}' {
            proof {
                assert(f[0] == '{' && f[1] == '}');
                assert(f.subrange(2, f.len() as int) =~= cs@.subrange(i + 2, n as int));
            }
            if j < values.len() {
                let t = format_value(&values[j], names);
                push_str(&mut out, t.as_str());
                proof {
                    assert(vs[0] == values@[j as int]);
                    assert(vs.drop_first() =~= values@.subrange(j + 1, values@.len() as int));
                }
                j += 1;
            } else {
                push_str(&mut out, "???");
                proof {
                    assert(vs.len() == 0);
                }
            }
            i += 2;
            proof {
                assert(out@ + species_text(cs@.subrange(i as int, n as int), values@.subrange(j as int, values@.len() as int), names.view())
                    =~= species_text(fmt@, values@, names.view()));
            }
        } else {
            proof {
                assert(f[0] == cs@[i as int]);
                assert(f.drop_first() =~= cs@.subrange(i + 1, n as int));
            }
            push_char(&mut out, cs[i]);
            i += 1;
            proof {
                assert(out@ + species_text(cs@.subrange(i as int, n as int), vs, names.view())
                    =~= species_text(fmt@, values@, names.view()));
            }
        }
    }
    proof {
        assert(cs@.subrange(i as int, n as int) =~= Seq::<char>::empty());
        assert(out@ =~= species_text(fmt@, values@, names.view()));
    }
    out
}


// ── Wrapping ─────────────────────────────────────────────────────────

/// The pieces of `s` between newlines (one more than there are newlines).
pub open spec fn split_lines(s: Seq<char>) -> Seq<Seq<char>> {
    split_on(s, '\n')
}

/// The `w`-character pieces of `line` from `pos` on.
pub open spec fn chunks_from(line: Seq<char>, w: nat, pos: int) -> Seq<Seq<char>>
    decreases line.len() - pos,
{
    if w == 0 || pos < 0 || pos >= line.len() {
        Seq::empty()
    } else {
        let end = if pos + w < line.len() {
            pos + w
        } else {
            line.len() as int
        };
        seq![line.subrange(pos, end)] + chunks_from(line, w, end)
    }
}

/// A logical line cut into pieces of `w` characters; an empty line stays
/// one empty piece.
pub open spec fn chunks(line: Seq<char>, w: nat) -> Seq<Seq<char>> {
    if line.len() == 0 {
        seq![Seq::empty()]
    } else {
        chunks_from(line, w, 0)
    }
}

/// The pieces of all logical lines, in order.
pub open spec fn wrap_all(ls: Seq<Seq<char>>, w: nat) -> Seq<Seq<char>>
    decreases ls.len(),
{
    if ls.len() == 0 {
        Seq::empty()
    } else {
        wrap_all(ls.drop_last(), w) + chunks(ls.last(), w)
    }
}

/// A message cut into lines of at most `w` characters, breaking at each
/// newline too.
pub open spec fn wrapped(msg: Seq<char>, w: nat) -> Seq<Seq<char>> {
    wrap_all(split_lines(msg), w)
}

/// The texts of some strings.
pub open spec fn texts(v: Seq<String>) -> Seq<Seq<char>> {
    v.map_values(|s: String| s@)
}

proof fn lemma_wrapped_nonempty(msg: Seq<char>, w: nat)
    requires
        w > 0,
    ensures
        wrapped(msg, w).len() >= 1,
{
    lemma_split_on_len(msg, '\n');
    let ls = split_lines(msg);
    let last = ls.last();
    if last.len() > 0 {
        assert(chunks_from(last, w, 0).len() >= 1);
    }
}

fn string_of(cs: &Vec<char>, from: usize, to: usize) -> (r: String)
    requires
        from <= to <= cs@.len(),
    ensures
        r@ == cs@.subrange(from as int, to as int),
{
    let mut out = String::new();
    let mut k: usize = from;
    while k < to
        invariant
            from <= k <= to,
            to <= cs@.len(),
            out@ =~= cs@.subrange(from as int, k as int),
        decreases to - k,
    {
        push_char(&mut out, cs[k]);
        k += 1;
    }
    out
}

fn push_chunks(out: &mut Vec<String>, line: &Vec<char>, w: usize)
    requires
        w > 0,
    ensures
        texts(final(out)@) == texts(old(out)@) + chunks(line@, w as nat),
{
    let ghost start = texts(out@);
    if line.len() == 0 {
        out.push(String::new());
        assert(texts(out@) =~= start + chunks(line@, w as nat));
        return;
    }
    let mut pos: usize = 0;
    assert(texts(out@) =~= start);
    while pos < line.len()
        invariant
            w > 0,
            pos <= line@.len(),
            line@.len() > 0,
            texts(out@) + chunks_from(line@, w as nat, pos as int) == start + chunks_from(line@, w as nat, 0),
        decreases line.len() - pos,
    {
        let end = if w < line.len() - pos { pos + w } else { line.len() };
        let piece = string_of(line, pos, end);
        let ghost before = texts(out@);
        out.push(piece);
        proof {
            assert(texts(out@) =~= before.push(line@.subrange(pos as int, end as int)));
            assert(texts(out@) + chunks_from(line@, w as nat, end as int) =~= before + chunks_from(line@, w as nat, pos as int));
        }
        pos = end;
    }
    assert(chunks_from(line@, w as nat, pos as int) =~= Seq::<Seq<char>>::empty());
    assert(texts(out@) =~= start + chunks(line@, w as nat));
}

/// Cut a message into lines of at most `width` characters, breaking at
/// each newline too.
pub fn wrap_message(msg: &str, width: usize) -> (r: Vec<String>)
    requires
        width > 0,
    ensures
        texts(r@) == wrapped(msg@, width as nat),
{
    let cs = str_chars(msg);
    let mut out: Vec<String> = Vec::new();
    let mut cur: Vec<char> = Vec::new();
    let mut i: usize = 0;
    proof {
        assert(cs@.subrange(0, 0) =~= Seq::<char>::empty());
        assert(split_lines(Seq::<char>::empty()).drop_last() =~= Seq::<Seq<char>>::empty());
        assert(texts(out@) =~= Seq::<Seq<char>>::empty());
    }
    while i < cs.len()
        invariant
            width > 0,
            i <= cs@.len(),
            cs@ == msg@,
            split_lines(cs@.subrange(0, i as int)).len() >= 1,
            texts(out@) == wrap_all(split_lines(cs@.subrange(0, i as int)).drop_last(), width as nat),
            cur@ == split_lines(cs@.subrange(0, i as int)).last(),
        decreases cs.len() - i,
    {
        let ghost pre = cs@.subrange(0, i as int);
        let ghost next = cs@.subrange(0, i + 1);
        proof {
            assert(next.drop_last() =~= pre);
            assert(next.last() == cs@[i as int]);
        }
        let c = cs[i];
        if c == '\n' {
            push_chunks(&mut out, &cur, width);
            cur = Vec::new();
            proof {
                let l = split_lines(pre);
                assert(split_lines(next) == l.push(Seq::<char>::empty()));
                assert(l.push(Seq::<char>::empty()).drop_last() =~= l);
                assert(wrap_all(l, width as nat) == wrap_all(l.drop_last(), width as nat) + chunks(l.last(), width as nat));
            }
        } else {
            cur.push(c);
            proof {
                let l = split_lines(pre);
                let l2 = l.update(l.len() - 1, l.last().push(c));
                assert(split_lines(next) == l2);
                assert(l2.drop_last() =~= l.drop_last());
            }
        }
        i += 1;
    }
    proof {
        assert(cs@.subrange(0, i as int) =~= msg@);
    }
    push_chunks(&mut out, &cur, width);
    proof {
        let l = split_lines(msg@);
        assert(wrap_all(l, width as nat) == wrap_all(l.drop_last(), width as nat) + chunks(l.last(), width as nat));
    }
    out
}

/// `n` spaces.
pub open spec fn spaces(n: nat) -> Seq<char> {
    Seq::new(n, |_i: int| ' ')
}

fn push_spaces(out: &mut String, n: usize)
    ensures
        final(out)@ == old(out)@ + spaces(n as nat),
{
    let ghost start = out@;
    let mut k: usize = 0;
    while k < n
        invariant
            k <= n,
            out@ =~= start + spaces(k as nat),
        decreases n - k,
    {
        push_char(out, ' ');
        k += 1;
    }
}

/// Text shown dimmed.
pub open spec fn dim_text(s: Seq<char>) -> Seq<char> {
    "\x1b[2m"@ + s + "\x1b[0m"@
}

/// The prefix of continuation lines: a dimmed bar under the column
/// separator.
pub open spec fn cont_prefix(pw: nat) -> Seq<char> {
    spaces((pw - 3) as nat) + " "@ + dim_text("|"@) + " "@
}

/// The number of UTF-8 bytes of a text.
pub open spec fn byte_len(s: Seq<char>) -> nat {
    vstd::utf8::encode_utf8(s).len()
}

/// `a - b`, or zero when `b` is larger.
pub open spec fn sat_sub(a: nat, b: nat) -> nat {
    if a >= b {
        (a - b) as nat
    } else {
        0
    }
}

/// The last line of a message, with the source location right-aligned
/// after it when it fits, else on a line of its own.
pub open spec fn located(prefix: Seq<char>, line: Seq<char>, loc: Option<Seq<char>>, cw: nat, cp: Seq<char>) -> Seq<
    Seq<char>,
> {
    match loc {
        None => seq![prefix + line],
        Some(l) => if line.len() + byte_len(l) + 1 <= cw {
            seq![prefix + line + spaces((cw - line.len() - byte_len(l) - 1) as nat) + " "@ + dim_text(l)]
        } else {
            seq![prefix + line, cp + spaces(sat_sub(cw, byte_len(l))) + dim_text(l)]
        },
    }
}

/// The printed lines of a message after a `pw`-column prefix on a
/// `tw`-column terminal: wrapped to the remaining width, continuation lines
/// under a bar, the source location at the end.
pub open spec fn message_layout(msg: Seq<char>, loc: Option<Seq<char>>, tw: nat, pw: nat) -> Seq<Seq<char>> {
    let cw = sat_sub(tw, pw);
    if cw == 0 {
        seq![msg]
    } else {
        let ls = wrapped(msg, cw);
        let cp = cont_prefix(pw);
        if ls.len() == 1 {
            located(Seq::empty(), ls[0], loc, cw, cp)
        } else {
            seq![ls[0]] + Seq::new((ls.len() - 2) as nat, |i: int| cp + ls[i + 1]) + located(
                cp,
                ls.last(),
                loc,
                cw,
                cp,
            )
        }
    }
}

fn located_lines(out: &mut Vec<String>, prefix: &str, line: &str, loc: Option<&str>, cw: usize, cp: &str)
    ensures
        texts(final(out)@) == texts(old(out)@) + located(
            prefix@,
            line@,
            match loc {
                Some(l) => Some(l@),
                None => None,
            },
            cw as nat,
            cp@,
        ),
{
    let ghost start = texts(out@);
    proof {
        reveal_strlit(" ");
        reveal_strlit("\x1b[2m");
        reveal_strlit("\x1b[0m");
    }
    let mut first = String::new();
    push_str(&mut first, prefix);
    push_str(&mut first, line);
    match loc {
        None => {
            out.push(first);
            assert(texts(out@) =~= start + seq![prefix@ + line@]);
        },
        Some(l) => {
            let vis = str_chars(line).len();
            let lb = l.as_bytes().len();
            if vis <= cw && lb < cw - vis {
                push_spaces(&mut first, cw - vis - lb - 1);
                push_str(&mut first, " ");
                push_str(&mut first, "\x1b[2m");
                push_str(&mut first, l);
                push_str(&mut first, "\x1b[0m");
                assert(first@ =~= prefix@ + line@ + spaces((cw - vis - lb - 1) as nat) + " "@ + dim_text(l@));
                out.push(first);
                assert(texts(out@) =~= start + located(prefix@, line@, Some(l@), cw as nat, cp@));
            } else {
                out.push(first);
                let mut second = String::new();
                push_str(&mut second, cp);
                push_spaces(&mut second, if cw >= lb { cw - lb } else { 0 });
                push_str(&mut second, "\x1b[2m");
                push_str(&mut second, l);
                push_str(&mut second, "\x1b[0m");
                assert(first@ =~= prefix@ + line@);
                assert(second@ =~= cp@ + spaces(sat_sub(cw as nat, lb as nat)) + dim_text(l@));
                out.push(second);
                assert(texts(out@) =~= start + located(prefix@, line@, Some(l@), cw as nat, cp@));
            }
        },
    }
}

/// The lines printed for a message after a `prefix_width`-column prefix
/// on a `term_width`-column terminal (see `message_layout`).
pub fn wrapped_lines(msg: &str, location: Option<&str>, term_width: usize, prefix_width: usize) -> (r: Vec<String>)
    requires
        term_width > prefix_width ==> prefix_width >= 3,
    ensures
        texts(r@) == message_layout(
            msg@,
            match location {
                Some(l) => Some(l@),
                None => None,
            },
            term_width as nat,
            prefix_width as nat,
        ),
{
    let mut out: Vec<String> = Vec::new();
    let cw: usize = if term_width > prefix_width { term_width - prefix_width } else { 0 };
    if cw == 0 {
        let mut m = String::new();
        push_str(&mut m, msg);
        out.push(m);
        assert(texts(out@) =~= seq![msg@]);
        return out;
    }
    let mut cp = String::new();
    push_spaces(&mut cp, prefix_width - 3);
    push_str(&mut cp, " ");
    push_str(&mut cp, "\x1b[2m");
    push_str(&mut cp, "|");
    push_str(&mut cp, "\x1b[0m");
    push_str(&mut cp, " ");
    proof {
        reveal_strlit(" ");
        reveal_strlit("|");
        reveal_strlit("\x1b[2m");
        reveal_strlit("\x1b[0m");
        assert(cp@ =~= cont_prefix(prefix_width as nat));
    }
    let lines = wrap_message(msg, cw);
    proof {
        lemma_wrapped_nonempty(msg@, cw as nat);
    }
    let ghost ls = wrapped(msg@, cw as nat);
    assert(lines@.len() == ls.len());
    assert(lines@[0]@ == ls[0]);
    if lines.len() == 1 {
        located_lines(&mut out, "", lines[0].as_str(), location, cw, cp.as_str());
        proof {
            reveal_strlit("");
        }
        return out;
    }
    let mut first = String::new();
    push_str(&mut first, lines[0].as_str());
    out.push(first);
    let last = lines.len() - 1;
    let mut i: usize = 1;
    while i < last
        invariant
            1 <= i <= last,
            last == lines@.len() - 1,
            texts(lines@) == ls,
            ls.len() >= 2,
            texts(out@) =~= seq![ls[0]] + Seq::new((i - 1) as nat, |k: int| cp@ + ls[k + 1]),
        decreases last - i,
    {
        let mut l = String::new();
        push_str(&mut l, cp.as_str());
        push_str(&mut l, lines[i].as_str());
        assert(lines@[i as int]@ == ls[i as int]);
        assert(l@ =~= cp@ + ls[i as int]);
        let ghost before = texts(out@);
        out.push(l);
        proof {
            assert(texts(out@) =~= before.push(cp@ + ls[i as int]));
            assert(texts(out@) =~= seq![ls[0]] + Seq::new(i as nat, |k: int| cp@ + ls[k + 1]));
        }
        i += 1;
    }
    assert(lines@[last as int]@ == ls.last());
    located_lines(&mut out, cp.as_str(), lines[last].as_str(), location, cw, cp.as_str());
    out
}


// ── Metadata ─────────────────────────────────────────────────────────

/// What the build recorded of one log call site: its format string and,
/// when known, source file and line.
#[derive(Clone, Debug)]
pub struct Species {
    pub format: String,
    pub file: Option<String>,
    pub line: Option<u32>,
}

/// `file:line` of a species, when both are known.
pub open spec fn spec_source_location(sp: Species) -> Option<Seq<char>> {
    match (sp.file, sp.line) {
        (Some(f), Some(l)) => Some(f@ + ":"@ + decimal(l as nat)),
        _ => None,
    }
}

/// `file:line` of a species, when both are known.
pub fn source_location(species: &Species) -> (r: Option<String>)
    ensures
        match r {
            Some(t) => spec_source_location(*species) == Some(t@),
            None => spec_source_location(*species) is None,
        },
{
    match (&species.file, species.line) {
        (Some(f), Some(l)) => {
            let mut out = String::new();
            push_str(&mut out, f.as_str());
            push_str(&mut out, ":");
            push_decimal(&mut out, l as u64);
            proof {
                reveal_strlit(":");
                assert(out@ =~= f@ + ":"@ + decimal(l as nat));
            }
            Some(out)
        },
        _ => None,
    }
}

/// What a firmware archive's log metadata says: species and type names by
/// hash, the task names by index, and the tasks' ELFs.
pub struct TfwMetadata {
    pub species: HashTable<Species>,
    pub type_names: HashTable<String>,
    pub task_names: Vec<String>,
    pub elf_cache: ElfCache,
}

/// One metadata file of the archive: species and types under their hash
/// keys (as written, hex with or without `0x`), in the order read, and the
/// task names.
#[derive(Clone, Debug)]
pub struct MetadataFile {
    pub species: Vec<(String, Species)>,
    /// Each type's name, when its record has one.
    pub types: Vec<(String, Option<String>)>,
    pub task_names: Vec<String>,
}

/// The value of a hex digit, either case.
pub open spec fn hex_char_value(c: char) -> Option<nat> {
    if '0' <= c <= '9' {
        Some((c as int - '0' as int) as nat)
    } else if 'a' <= c <= 'f' {
        Some((c as int - 'a' as int + 10) as nat)
    } else if 'A' <= c <= 'F' {
        Some((c as int - 'A' as int + 10) as nat)
    } else {
        None
    }
}

/// Every character is a hex digit.
pub open spec fn all_hex_chars(s: Seq<char>) -> bool {
    forall|i: int| 0 <= i < s.len() ==> (#[trigger] hex_char_value(s[i])) is Some
}

/// Big-endian value of hex digits.
pub open spec fn hex_chars_value(s: Seq<char>) -> nat
    decreases s.len(),
{
    if s.len() == 0 {
        0
    } else {
        hex_chars_value(s.drop_last()) * 16 + hex_char_value(s.last())->0
    }
}

/// `s` with every leading `0x` removed.
pub open spec fn strip_0x(s: Seq<char>) -> Seq<char>
    decreases s.len(),
{
    if s.len() >= 2 && s[0] == '0' && s[1] == 'x' {
        strip_0x(s.subrange(2, s.len() as int))
    } else {
        s
    }
}

/// Base-16 parse of an unsigned 64-bit number: an optional `+`, then at
/// least one hex digit, the value in range.
pub open spec fn spec_parse_radix16(s: Seq<char>) -> Option<u64> {
    let d = if s.len() >= 1 && s[0] == '+' {
        s.drop_first()
    } else {
        s
    };
    if d.len() > 0 && all_hex_chars(d) && hex_chars_value(d) <= u64::MAX {
        Some(hex_chars_value(d) as u64)
    } else {
        None
    }
}

/// The hash a metadata key names: hex after any leading `0x`.
pub open spec fn spec_hash_key(s: Seq<char>) -> Option<u64> {
    spec_parse_radix16(strip_0x(s))
}

proof fn lemma_hex_value_mono(s: Seq<char>, k: int)
    requires
        0 <= k <= s.len(),
    ensures
        hex_chars_value(s) >= hex_chars_value(s.subrange(0, k)),
    decreases s.len(),
{
    if k == s.len() {
        assert(s.subrange(0, k) =~= s);
    } else {
        lemma_hex_value_mono(s.drop_last(), k);
        assert(s.drop_last().subrange(0, k) =~= s.subrange(0, k));
    }
}

fn hex_char_val(c: char) -> (r: Option<u64>)
    ensures
        match r {
            Some(v) => hex_char_value(c) == Some(v as nat) && v < 16,
            None => hex_char_value(c) is None,
        },
{
    if '0' <= c && c <= '9' {
        Some((c as u32 - '0' as u32) as u64)
    } else if 'a' <= c && c <= 'f' {
        Some((c as u32 - 'a' as u32 + 10) as u64)
    } else if 'A' <= c && c <= 'F' {
        Some((c as u32 - 'A' as u32 + 10) as u64)
    } else {
        None
    }
}

/// The hash a metadata key names: hex after any leading `0x`, `None` when
/// it is not a 64-bit hex number.
pub fn parse_hash_key(key: &str) -> (r: Option<u64>)
    ensures
        r == spec_hash_key(key@),
{
    let cs = str_chars(key);
    let n = cs.len();
    let mut i: usize = 0;
    assert(cs@.subrange(0, n as int) =~= cs@);
    while n - i >= 2 && cs[i] == '0' && cs[i + 1] == 'x'
        invariant
            i <= n,
            n == cs@.len(),
            cs@ == key@,
            strip_0x(key@) == strip_0x(cs@.subrange(i as int, n as int)),
        decreases n - i,
    {
        proof {
            let t = cs@.subrange(i as int, n as int);
            assert(t.subrange(2, t.len() as int) =~= cs@.subrange(i + 2, n as int));
        }
        i += 2;
    }
    let ghost d0 = cs@.subrange(i as int, n as int);
    proof {
        assert(!(d0.len() >= 2 && d0[0] == '0' && d0[1] == 'x'));
        assert(strip_0x(key@) == d0);
    }
    if i < n && cs[i] == '+' {
        i += 1;
        proof {
            assert(d0.drop_first() =~= cs@.subrange(i as int, n as int));
        }
    }
    let ghost d = cs@.subrange(i as int, n as int);
    assert(d == (if d0.len() >= 1 && d0[0] == '+' { d0.drop_first() } else { d0 }));
    if i == n {
        return None;
    }
    let start = i;
    let mut v: u64 = 0;
    while i < n
        invariant
            start <= i <= n,
            n == cs@.len(),
            d == cs@.subrange(start as int, n as int),
            spec_hash_key(key@) == spec_parse_radix16(d0),
            d == (if d0.len() >= 1 && d0[0] == '+' { d0.drop_first() } else { d0 }),
            all_hex_chars(cs@.subrange(start as int, i as int)),
            v as nat == hex_chars_value(cs@.subrange(start as int, i as int)),
        decreases n - i,
    {
        let ghost pre = cs@.subrange(start as int, i as int);
        let ghost next = cs@.subrange(start as int, i + 1);
        proof {
            assert(next.drop_last() =~= pre);
            assert(next.last() == cs@[i as int]);
        }
        match hex_char_val(cs[i]) {
            None => {
                proof {
                    assert(d[i - start] == cs@[i as int]);
                    assert(!all_hex_chars(d));
                }
                return None;
            },
            Some(h) => {
                if v > (u64::MAX - h) / 16 {
                    proof {
                        assert(hex_chars_value(next) > u64::MAX) by (nonlinear_arith)
                            requires
                                v > (u64::MAX - h) / 16,
                                hex_chars_value(next) == v * 16 + h,
                                h < 16,
                        ;
                        assert(d.subrange(0, (i + 1 - start) as int) =~= next);
                        lemma_hex_value_mono(d, (i + 1 - start) as int);
                    }
                    return None;
                }
                proof {
                    assert(v * 16 + h <= u64::MAX) by (nonlinear_arith)
                        requires
                            v <= (u64::MAX - h) / 16,
                            h < 16,
                    ;
                    assert forall|t: int| 0 <= t < next.len() implies (#[trigger] hex_char_value(next[t])) is Some by {
                        if t < pre.len() {
                            assert(next[t] == pre[t]);
                        }
                    }
                }
                v = v * 16 + h;
            },
        }
        i += 1;
    }
    Some(v)
}

/// The species and type names of a metadata file's keys that parse, in
/// order.
pub open spec fn keyed_species(items: Seq<(String, Species)>) -> Seq<(u64, Species)>
    decreases items.len(),
{
    if items.len() == 0 {
        Seq::empty()
    } else {
        let rest = keyed_species(items.drop_last());
        match spec_hash_key(items.last().0@) {
            Some(h) => rest.push((h, items.last().1)),
            None => rest,
        }
    }
}

/// The named types of a metadata file whose keys parse, in order.
pub open spec fn keyed_names(items: Seq<(String, Option<String>)>) -> Seq<(u64, String)>
    decreases items.len(),
{
    if items.len() == 0 {
        Seq::empty()
    } else {
        let rest = keyed_names(items.drop_last());
        match (spec_hash_key(items.last().0@), items.last().1) {
            (Some(h), Some(n)) => rest.push((h, n)),
            _ => rest,
        }
    }
}

/// The species of all files, in order.
pub open spec fn all_species(files: Seq<MetadataFile>) -> Seq<(u64, Species)>
    decreases files.len(),
{
    if files.len() == 0 {
        Seq::empty()
    } else {
        all_species(files.drop_last()) + keyed_species(files.last().species@)
    }
}

/// The type names of all files, in order.
pub open spec fn all_names(files: Seq<MetadataFile>) -> Seq<(u64, String)>
    decreases files.len(),
{
    if files.len() == 0 {
        Seq::empty()
    } else {
        all_names(files.drop_last()) + keyed_names(files.last().types@)
    }
}

/// The task names: those of the first file that has any.
pub open spec fn first_task_names(files: Seq<MetadataFile>) -> Seq<String>
    decreases files.len(),
{
    if files.len() == 0 {
        Seq::empty()
    } else if files[0].task_names@.len() > 0 {
        files[0].task_names@
    } else {
        first_task_names(files.drop_first())
    }
}

fn copy_species(sp: &Species) -> (r: Species)
    ensures
        r == *sp,
{
    let file = match &sp.file {
        Some(f) => Some(f.clone()),
        None => None,
    };
    Species { format: sp.format.clone(), file, line: sp.line }
}

fn copy_strings(v: &Vec<String>) -> (r: Vec<String>)
    ensures
        r@ == v@,
{
    let mut out: Vec<String> = Vec::new();
    let mut i: usize = 0;
    while i < v.len()
        invariant
            i <= v@.len(),
            out@ =~= v@.subrange(0, i as int),
        decreases v.len() - i,
    {
        out.push(v[i].clone());
        i += 1;
    }
    assert(v@.subrange(0, i as int) =~= v@);
    out
}

impl TfwMetadata {
    /// The metadata of an archive's log metadata files, in order: a later
    /// species or type name under a hash replaces an earlier one, keys that
    /// are not hex are skipped, and the task names are those of the first
    /// file that lists any.
    pub fn from_files(files: &Vec<MetadataFile>, elf_cache: ElfCache) -> (m: Self)
        ensures
            m.species.view() == table_map(all_species(files@)),
            m.type_names.view() == table_map(all_names(files@)),
            m.task_names@ == first_task_names(files@),
            m.elf_cache.view() == elf_cache.view(),
    {
        let mut species: Vec<(u64, Species)> = Vec::new();
        let mut names: Vec<(u64, String)> = Vec::new();
        let mut task_names: Vec<String> = Vec::new();
        let mut fi: usize = 0;
        while fi < files.len()
            invariant
                fi <= files@.len(),
                species@ == all_species(files@.subrange(0, fi as int)),
                names@ == all_names(files@.subrange(0, fi as int)),
                task_names@.len() == 0 ==> forall|t: int| 0 <= t < fi ==> (#[trigger] files@[t]).task_names@.len() == 0,
                task_names@.len() > 0 ==> task_names@ == first_task_names(files@),
            decreases files.len() - fi,
        {
            let f = &files[fi];
            proof {
                assert(files@.subrange(0, fi + 1).drop_last() =~= files@.subrange(0, fi as int));
            }
            let ghost sp0 = species@;
            let mut k: usize = 0;
            while k < f.species.len()
                invariant
                    k <= f.species@.len(),
                    species@ == sp0 + keyed_species(f.species@.subrange(0, k as int)),
                decreases f.species.len() - k,
            {
                proof {
                    assert(f.species@.subrange(0, k + 1).drop_last() =~= f.species@.subrange(0, k as int));
                }
                match parse_hash_key(f.species[k].0.as_str()) {
                    Some(h) => {
                        species.push((h, copy_species(&f.species[k].1)));
                    },
                    None => {},
                }
                proof {
                    assert(species@ =~= sp0 + keyed_species(f.species@.subrange(0, k + 1)));
                }
                k += 1;
            }
            assert(f.species@.subrange(0, k as int) =~= f.species@);
            let ghost nm0 = names@;
            let mut k: usize = 0;
            while k < f.types.len()
                invariant
                    k <= f.types@.len(),
                    names@ == nm0 + keyed_names(f.types@.subrange(0, k as int)),
                decreases f.types.len() - k,
            {
                proof {
                    assert(f.types@.subrange(0, k + 1).drop_last() =~= f.types@.subrange(0, k as int));
                }
                match (parse_hash_key(f.types[k].0.as_str()), &f.types[k].1) {
                    (Some(h), Some(n)) => {
                        names.push((h, n.clone()));
                    },
                    _ => {},
                }
                proof {
                    assert(names@ =~= nm0 + keyed_names(f.types@.subrange(0, k + 1)));
                }
                k += 1;
            }
            assert(f.types@.subrange(0, k as int) =~= f.types@);
            if task_names.len() == 0 {
                task_names = copy_strings(&f.task_names);
                proof {
                    lemma_first_task_names(files@, fi as int);
                }
            }
            fi += 1;
        }
        proof {
            assert(files@.subrange(0, fi as int) =~= files@);
            if task_names@.len() == 0 {
                lemma_first_task_names_empty(files@);
            }
        }
        TfwMetadata {
            species: HashTable { entries: species },
            type_names: HashTable { entries: names },
            task_names,
            elf_cache,
        }
    }
}

proof fn lemma_first_task_names(files: Seq<MetadataFile>, i: int)
    requires
        0 <= i < files.len(),
        forall|t: int| 0 <= t < i ==> (#[trigger] files[t]).task_names@.len() == 0,
    ensures
        files[i].task_names@.len() > 0 ==> first_task_names(files) == files[i].task_names@,
    decreases i,
{
    if i > 0 {
        assert(files[0].task_names@.len() == 0);
        let rest = files.drop_first();
        assert forall|t: int| 0 <= t < i - 1 implies (#[trigger] rest[t]).task_names@.len() == 0 by {
            assert(rest[t] == files[t + 1]);
        }
        lemma_first_task_names(rest, i - 1);
        assert(rest[i - 1] == files[i]);
    }
}

proof fn lemma_first_task_names_empty(files: Seq<MetadataFile>)
    requires
        forall|t: int| 0 <= t < files.len() ==> (#[trigger] files[t]).task_names@.len() == 0,
    ensures
        first_task_names(files) == Seq::<String>::empty(),
    decreases files.len(),
{
    if files.len() > 0 {
        assert(files[0].task_names@.len() == 0);
        let rest = files.drop_first();
        assert forall|t: int| 0 <= t < rest.len() implies (#[trigger] rest[t]).task_names@.len() == 0 by {
            assert(rest[t] == files[t + 1]);
        }
        lemma_first_task_names_empty(rest);
    }
}


// ── Log lines ────────────────────────────────────────────────────────

/// The columns taken by the level and task before a message, given the
/// task column's width.
pub fn prefix_width(task_pad: usize) -> (r: usize)
    requires
        task_pad + 10 <= usize::MAX,
    ensures
        r == task_pad + 10,
{
    task_pad + 10
}

/// A line from the hypervisor stream (USART1): plain text.
#[derive(Clone, Debug)]
pub struct Usart1Line {
    pub text: String,
}

/// A structured log entry as it is rendered.
#[derive(Debug)]
pub struct LogEntry {
    pub level: LogLevel,
    /// Task index on the device.
    pub source: u16,
    /// Key into the metadata's species.
    pub log_species: u64,
    pub values: Vec<LogValue>,
}

/// `s` right-aligned in `w` columns.
pub open spec fn right_aligned(s: Seq<char>, w: nat) -> Seq<char> {
    if s.len() < w {
        spaces((w - s.len()) as nat) + s
    } else {
        s
    }
}

fn push_right_aligned(out: &mut String, s: &str, w: usize)
    ensures
        final(out)@ == old(out)@ + right_aligned(s@, w as nat),
{
    let n = str_chars(s).len();
    let ghost start = out@;
    if n < w {
        push_spaces(out, w - n);
    }
    push_str(out, s);
    assert(out@ =~= start + right_aligned(s@, w as nat));
}

/// The name of task `source`, `?` when there is no such task.
pub open spec fn raw_task_name(task_names: Seq<String>, source: u16) -> Seq<char> {
    if source < task_names.len() {
        task_names[source as int]@
    } else {
        "?"@
    }
}

/// A task name as shown, and whether it names a system module (shown
/// without its `sysmodule_` prefix).
pub open spec fn shown_task(raw: Seq<char>) -> (Seq<char>, bool) {
    if seq_starts_with(raw, "sysmodule_"@) {
        (raw.subrange(10, raw.len() as int), true)
    } else {
        (raw, false)
    }
}

/// The styled level label that opens an entry's first line.
pub open spec fn level_prefix(level: LogLevel) -> Seq<char> {
    " "@ + spec_level_color(level) + "\x1b[1m"@ + spec_level_label(level) + "\x1b[0m"@ + " "@
}

/// The lines printed for a structured log entry on a `tw`-column terminal:
/// with a known species its format string filled in and wrapped after the
/// prefix, otherwise its values listed with the unknown species' hash.
pub open spec fn entry_layout(
    entry: LogEntry,
    species: Map<u64, Species>,
    names: Map<u64, String>,
    task_names: Seq<String>,
    task_pad: nat,
    pw: nat,
    tw: nat,
) -> Seq<Seq<char>> {
    let task = shown_task(raw_task_name(task_names, entry.source));
    if species.contains_key(entry.log_species) {
        let sp = species[entry.log_species];
        let head = level_prefix(entry.level) + (if task.1 {
            "\x1b[38;5;208m"@
        } else {
            "\x1b[36m"@
        }) + right_aligned(task.0, task_pad) + "\x1b[0m"@ + " "@ + dim_text("|"@) + " "@;
        let body = message_layout(
            species_text(sp.format@, entry.values@, names),
            spec_source_location(sp),
            tw,
            pw,
        );
        seq![head + body[0]] + body.drop_first()
    } else {
        let listed = if entry.values@.len() == 0 {
            "?"@
        } else {
            joined(entry.values@, names)
        };
        seq![
            level_prefix(entry.level) + "\x1b[35m"@ + right_aligned(task.0, task_pad) + "\x1b[0m"@ + " "@
                + dim_text("|"@) + " "@ + listed + " "@ + dim_text(
                "(species=0x"@ + hex_digits(entry.log_species as nat) + ")"@,
            ),
        ]
    }
}

/// The lines printed for a structured log entry (see `entry_layout`).
#[verifier::rlimit(50)]
#[verifier::spinoff_prover]
pub fn entry_lines(entry: &LogEntry, meta: &TfwMetadata, task_pad: usize, pw: usize, term_width: usize) -> (r: Vec<String>)
    requires
        term_width > pw ==> pw >= 3,
    ensures
        texts(r@) == entry_layout(
            *entry,
            meta.species.view(),
            meta.type_names.view(),
            meta.task_names@,
            task_pad as nat,
            pw as nat,
            term_width as nat,
        ),
{
    proof {
        reveal_strlit(" ");
        reveal_strlit("?");
        reveal_strlit("|");
        reveal_strlit("\x1b[1m");
        reveal_strlit("\x1b[0m");
        reveal_strlit("\x1b[2m");
        reveal_strlit("sysmodule_");
    }
    let raw: &str = if (entry.source as usize) < meta.task_names.len() {
        meta.task_names[entry.source as usize].as_str()
    } else {
        "?"
    };
    let (task, system): (&str, bool) = match strip_prefix_str(raw, "sysmodule_") {
        Some(t) => (t, true),
        None => (raw, false),
    };
    let ghost shown = shown_task(raw_task_name(meta.task_names@, entry.source));
    assert(task@ == shown.0 && system == shown.1);
    let mut head = String::new();
    push_str(&mut head, " ");
    push_str(&mut head, level_color(entry.level));
    push_str(&mut head, "\x1b[1m");
    push_str(&mut head, level_label(entry.level));
    push_str(&mut head, "\x1b[0m");
    push_str(&mut head, " ");
    assert(head@ =~= level_prefix(entry.level));
    let ghost h0 = head@;
    match meta.species.get(entry.log_species) {
        Some(sp) => {
            if system {
                push_str(&mut head, "\x1b[38;5;208m");
            } else {
                push_str(&mut head, "\x1b[36m");
            }
            push_right_aligned(&mut head, task, task_pad);
            push_str(&mut head, "\x1b[0m");
            push_str(&mut head, " ");
            push_str(&mut head, "\x1b[2m");
            push_str(&mut head, "|");
            push_str(&mut head, "\x1b[0m");
            push_str(&mut head, " ");
            let msg = format_species(sp.format.as_str(), &entry.values, &meta.type_names);
            let loc = source_location(sp);
            let body = match &loc {
                Some(l) => wrapped_lines(msg.as_str(), Some(l.as_str()), term_width, pw),
                None => wrapped_lines(msg.as_str(), None, term_width, pw),
            };
            let ghost b = texts(body@);
            proof {
                assert(head@ =~= h0 + (if system { "\x1b[38;5;208m"@ } else { "\x1b[36m"@ }) + right_aligned(task@, task_pad as nat)
                    + "\x1b[0m"@ + " "@ + dim_text("|"@) + " "@);
                let lv: Option<Seq<char>> = match loc {
                    Some(l) => Some(l@),
                    None => None,
                };
                assert(lv == spec_source_location(*sp));
                assert(b.len() >= 1) by {
                    let cw = sat_sub(term_width as nat, pw as nat);
                    if cw > 0 {
                        lemma_wrapped_nonempty(msg@, cw);
                    }
                }
            }
            let mut out: Vec<String> = Vec::new();
            let mut first = head;
            push_str(&mut first, body[0].as_str());
            out.push(first);
            let mut i: usize = 1;
            while i < body.len()
                invariant
                    1 <= i <= body@.len(),
                    b == texts(body@),
                    texts(out@) =~= seq![head@ + b[0]] + b.subrange(1, i as int),
                decreases body.len() - i,
            {
                let mut l = String::new();
                push_str(&mut l, body[i].as_str());
                assert(l@ =~= b[i as int]);
                let ghost before = texts(out@);
                out.push(l);
                proof {
                    assert(texts(out@) =~= before.push(b[i as int]));
                    assert(b.subrange(1, i + 1) =~= b.subrange(1, i as int).push(b[i as int]));
                }
                i += 1;
            }
            proof {
                assert(b.subrange(1, i as int) =~= b.drop_first());
                assert(b == message_layout(
                    species_text(sp.format@, entry.values@, meta.type_names.view()),
                    spec_source_location(*sp),
                    term_width as nat,
                    pw as nat,
                ));
            }
            out
        },
        None => {
            push_str(&mut head, "\x1b[35m");
            push_right_aligned(&mut head, task, task_pad);
            push_str(&mut head, "\x1b[0m");
            push_str(&mut head, " ");
            push_str(&mut head, "\x1b[2m");
            push_str(&mut head, "|");
            push_str(&mut head, "\x1b[0m");
            push_str(&mut head, " ");
            if entry.values.len() == 0 {
                push_str(&mut head, "?");
            } else {
                let ghost whole = LogValue::List(entry.values);
                proof {
                    assert(decreases_to!(whole => whole->List_0));
                    assert(decreases_to!(whole->List_0 => whole->List_0@));
                    assert(decreases_to!(whole => entry.values@));
                }
                push_joined(&mut head, &entry.values, &meta.type_names, Ghost(whole));
            }
            push_str(&mut head, " ");
            push_str(&mut head, "\x1b[2m");
            push_str(&mut head, "(species=0x");
            push_hex(&mut head, entry.log_species);
            push_str(&mut head, ")");
            push_str(&mut head, "\x1b[0m");
            let mut out: Vec<String> = Vec::new();
            let ghost line = head@;
            proof {
                reveal_strlit("(species=0x");
                reveal_strlit(")");
                reveal_strlit("\x1b[35m");
                let listed = if entry.values@.len() == 0 {
                    "?"@
                } else {
                    joined(entry.values@, meta.type_names.view())
                };
                assert(line =~= level_prefix(entry.level) + "\x1b[35m"@ + right_aligned(task@, task_pad as nat) + "\x1b[0m"@ + " "@
                    + dim_text("|"@) + " "@ + listed + " "@ + dim_text(
                    "(species=0x"@ + hex_digits(entry.log_species as nat) + ")"@,
                ));
            }
            out.push(head);
            assert(texts(out@) =~= seq![line]);
            out
        },
    }
}


// ── Backtraces ───────────────────────────────────────────────────────

/// Where a frame is: `file:line`, the file alone, or nothing.
pub open spec fn frame_location(f: Frame) -> Seq<char> {
    match (f.file, f.line) {
        (Some(fl), Some(l)) => fl@ + ":"@ + decimal(l as nat),
        (Some(fl), None) => fl@,
        _ => Seq::empty(),
    }
}

/// A frame's function, indented and tagged when inlined.
pub open spec fn frame_left(f: Frame) -> Seq<char> {
    "  "@ + f.function@ + (if f.is_inline {
        " [inline]"@
    } else {
        Seq::empty()
    })
}

/// The printed line of a frame: its location right-aligned when known.
pub open spec fn frame_line(f: Frame, cw: nat, cp: Seq<char>) -> Seq<char> {
    let loc = frame_location(f);
    let left = frame_left(f);
    if loc.len() > 0 {
        cp + left + spaces(sat_sub(cw, byte_len(left) + byte_len(loc) + 1)) + " "@ + dim_text(loc)
    } else {
        cp + left
    }
}

/// The printed lines of a backtrace: a heading, then every frame but the
/// first (the capture routine itself).
pub open spec fn backtrace_layout(frames: Seq<Frame>, tw: nat, pw: nat) -> Seq<Seq<char>> {
    let cp = cont_prefix(pw);
    let cw = sat_sub(tw, pw);
    seq![cp + dim_text("backtrace:"@)] + Seq::new(
        if frames.len() > 0 {
            (frames.len() - 1) as nat
        } else {
            0
        },
        |i: int| frame_line(frames[i + 1], cw, cp),
    )
}

fn frame_text(f: &Frame, cw: usize, cp: &str) -> (r: String)
    ensures
        r@ == frame_line(*f, cw as nat, cp@),
{
    proof {
        reveal_strlit("  ");
        reveal_strlit(" [inline]");
        reveal_strlit(":");
        reveal_strlit(" ");
        reveal_strlit("\x1b[2m");
        reveal_strlit("\x1b[0m");
    }
    let mut left = String::new();
    push_str(&mut left, "  ");
    push_str(&mut left, f.function.as_str());
    if f.is_inline {
        push_str(&mut left, " [inline]");
    }
    assert(left@ =~= frame_left(*f));
    let mut loc = String::new();
    match &f.file {
        Some(fl) => {
            push_str(&mut loc, fl.as_str());
            match f.line {
                Some(l) => {
                    push_str(&mut loc, ":");
                    push_decimal(&mut loc, l as u64);
                },
                None => {},
            }
        },
        None => {},
    }
    assert(loc@ =~= frame_location(*f));
    let mut out = String::new();
    push_str(&mut out, cp);
    push_str(&mut out, left.as_str());
    if loc.as_str().as_bytes().len() > 0 {
        let lb = left.as_str().as_bytes().len();
        let cb = loc.as_str().as_bytes().len();
        let pad: usize = if lb < cw && cb < cw - lb && cw - lb - cb >= 1 {
            cw - lb - cb - 1
        } else {
            0
        };
        push_spaces(&mut out, pad);
        push_str(&mut out, " ");
        push_str(&mut out, "\x1b[2m");
        push_str(&mut out, loc.as_str());
        push_str(&mut out, "\x1b[0m");
        proof {
            assert(loc@.len() > 0) by {
                if loc@.len() == 0 {
                    assert(loc@ =~= Seq::<char>::empty());
                    assert(vstd::utf8::encode_utf8(Seq::<char>::empty()).len() == 0) by {
                        vstd::utf8::encode_utf8_decode_utf8(Seq::<char>::empty());
                    }
                }
            }
            assert(out@ =~= frame_line(*f, cw as nat, cp@));
        }
    } else {
        proof {
            if loc@.len() > 0 {
                vstd::utf8::encode_utf8_first_scalar(loc@);
            }
            assert(out@ =~= frame_line(*f, cw as nat, cp@));
        }
    }
    out
}

/// The lines printed for a backtrace under a log entry with a
/// `pw`-column prefix on a `tw`-column terminal.
pub fn backtrace_lines(frames: &Vec<Frame>, term_width: usize, pw: usize) -> (r: Vec<String>)
    requires
        pw >= 3,
    ensures
        texts(r@) == backtrace_layout(frames@, term_width as nat, pw as nat),
{
    proof {
        reveal_strlit(" ");
        reveal_strlit("|");
        reveal_strlit("\x1b[2m");
        reveal_strlit("\x1b[0m");
        reveal_strlit("backtrace:");
    }
    let mut cp = String::new();
    push_spaces(&mut cp, pw - 3);
    push_str(&mut cp, " ");
    push_str(&mut cp, "\x1b[2m");
    push_str(&mut cp, "|");
    push_str(&mut cp, "\x1b[0m");
    push_str(&mut cp, " ");
    assert(cp@ =~= cont_prefix(pw as nat));
    let cw: usize = if term_width > pw { term_width - pw } else { 0 };
    let mut head = String::new();
    push_str(&mut head, cp.as_str());
    push_str(&mut head, "\x1b[2m");
    push_str(&mut head, "backtrace:");
    push_str(&mut head, "\x1b[0m");
    assert(head@ =~= cp@ + dim_text("backtrace:"@));
    let mut out: Vec<String> = Vec::new();
    out.push(head);
    let mut i: usize = 1;
    let ghost cpv = cp@;
    assert(texts(out@) =~= seq![cpv + dim_text("backtrace:"@)]);
    while i < frames.len()
        invariant
            1 <= i,
            i <= frames@.len() || (frames@.len() == 0 && i == 1),
            cpv == cp@,
            cpv == cont_prefix(pw as nat),
            cw as nat == sat_sub(term_width as nat, pw as nat),
            texts(out@) =~= seq![cpv + dim_text("backtrace:"@)] + Seq::new(
                (i - 1) as nat,
                |k: int| frame_line(frames@[k + 1], cw as nat, cpv),
            ),
        decreases frames.len() - i,
    {
        let t = frame_text(&frames[i], cw, cp.as_str());
        let ghost before = texts(out@);
        out.push(t);
        proof {
            assert(texts(out@) =~= before.push(frame_line(frames@[i as int], cw as nat, cpv)));
        }
        i += 1;
    }
    out
}

// ── Backend selection ────────────────────────────────────────────────

/// The pieces of `s` between occurrences of `sep` (one more than there are
/// occurrences).
pub open spec fn split_on(s: Seq<char>, sep: char) -> Seq<Seq<char>>
    decreases s.len(),
{
    if s.len() == 0 {
        seq![Seq::empty()]
    } else {
        let r = split_on(s.drop_last(), sep);
        if s.last() == sep {
            r.push(Seq::empty())
        } else {
            r.update(r.len() - 1, r.last().push(s.last()))
        }
    }
}

proof fn lemma_split_on_len(s: Seq<char>, sep: char)
    ensures
        split_on(s, sep).len() >= 1,
    decreases s.len(),
{
    if s.len() > 0 {
        lemma_split_on_len(s.drop_last(), sep);
    }
}

/// The pieces of `s` between occurrences of `sep`.
pub fn split_text(s: &str, sep: char) -> (r: Vec<String>)
    ensures
        texts(r@) == split_on(s@, sep),
{
    let cs = str_chars(s);
    let mut out: Vec<String> = Vec::new();
    let mut cur = String::new();
    let mut i: usize = 0;
    assert(cs@.subrange(0, 0) =~= Seq::<char>::empty());
    assert(texts(out@) =~= split_on(Seq::<char>::empty(), sep).drop_last());
    while i < cs.len()
        invariant
            i <= cs@.len(),
            cs@ == s@,
            split_on(cs@.subrange(0, i as int), sep).len() >= 1,
            texts(out@) == split_on(cs@.subrange(0, i as int), sep).drop_last(),
            cur@ == split_on(cs@.subrange(0, i as int), sep).last(),
        decreases cs.len() - i,
    {
        let ghost pre = cs@.subrange(0, i as int);
        let ghost next = cs@.subrange(0, i + 1);
        proof {
            assert(next.drop_last() =~= pre);
            assert(next.last() == cs@[i as int]);
        }
        let c = cs[i];
        if c == sep {
            let ghost before = texts(out@);
            let done = cur;
            out.push(done);
            cur = String::new();
            proof {
                let l = split_on(pre, sep);
                assert(texts(out@) =~= before.push(l.last()));
                assert(l.push(Seq::<char>::empty()).drop_last() =~= l);
                assert(l =~= l.drop_last().push(l.last()));
            }
        } else {
            push_char(&mut cur, c);
            proof {
                let l = split_on(pre, sep);
                let l2 = l.update(l.len() - 1, l.last().push(c));
                assert(l2.drop_last() =~= l.drop_last());
            }
        }
        i += 1;
    }
    proof {
        assert(cs@.subrange(0, i as int) =~= s@);
    }
    let ghost before = texts(out@);
    out.push(cur);
    proof {
        let l = split_on(s@, sep);
        assert(texts(out@) =~= before.push(l.last()));
        assert(l =~= l.drop_last().push(l.last()));
    }
    out
}

/// The backend a command line names: the emulator, or serial ports for the
/// two USARTs (either may be left empty).
#[derive(Debug, PartialEq, Eq)]
pub enum ConnectedBackend {
    Emulator,
    Serial { usart1: Option<String>, usart2: Option<String> },
}

/// A piece, when not empty.
pub open spec fn non_empty(p: Seq<char>) -> Option<Seq<char>> {
    if p.len() > 0 {
        Some(p)
    } else {
        None
    }
}

/// The backend `spec` names: `emulator`, or `serial:` and the two ports
/// separated by a comma (a missing or empty one left unset); none for
/// anything else.
pub open spec fn spec_parse_backend(spec: Seq<char>) -> Option<(bool, Option<Seq<char>>, Option<Seq<char>>)> {
    if spec == "emulator"@ {
        Some((true, None, None))
    } else if seq_starts_with(spec, "serial:"@) {
        let parts = split_on(spec.subrange(7, spec.len() as int), ',');
        Some(
            (
                false,
                non_empty(parts[0]),
                if parts.len() >= 2 {
                    non_empty(parts[1])
                } else {
                    None
                },
            ),
        )
    } else {
        None
    }
}

/// The backend's selection as plain values: whether it is the emulator,
/// and the two serial ports.
pub open spec fn backend_values(b: ConnectedBackend) -> (bool, Option<Seq<char>>, Option<Seq<char>>) {
    match b {
        ConnectedBackend::Emulator => (true, None, None),
        ConnectedBackend::Serial { usart1, usart2 } => (
            false,
            match usart1 {
                Some(p) => Some(p@),
                None => None,
            },
            match usart2 {
                Some(p) => Some(p@),
                None => None,
            },
        ),
    }
}

fn non_empty_string(p: &String) -> (r: Option<String>)
    ensures
        match r {
            Some(t) => non_empty(p@) == Some(t@),
            None => non_empty(p@) is None,
        },
{
    if p.as_str().as_bytes().len() > 0 {
        proof {
            if p@.len() == 0 {
                assert(p@ =~= Seq::<char>::empty());
                vstd::utf8::encode_utf8_decode_utf8(Seq::<char>::empty());
            }
        }
        Some(p.clone())
    } else {
        proof {
            if p@.len() > 0 {
                vstd::utf8::encode_utf8_first_scalar(p@);
            }
        }
        None
    }
}

/// Whether `spec` names a backend (`emulator`, or `serial:` and ports).
pub fn backend_known(spec: &str) -> (b: bool)
    ensures
        b == spec_parse_backend(spec@) is Some,
{
    proof {
        reveal_strlit("emulator");
        reveal_strlit("serial:");
    }
    str_eq(spec, "emulator") || strip_prefix_str(spec, "serial:").is_some()
}

/// The backend a `--backend` argument names (a spec that names none is
/// refused: see [`backend_known`]).
pub fn parse_backend(spec: &str) -> (r: ConnectedBackend)
    requires
        spec_parse_backend(spec@) is Some,
    ensures
        spec_parse_backend(spec@) == Some(backend_values(r)),
{
    proof {
        reveal_strlit("emulator");
        reveal_strlit("serial:");
    }
    if str_eq(spec, "emulator") {
        return ConnectedBackend::Emulator;
    }
    let ports = strip_prefix_str(spec, "serial:").unwrap();
    let parts = split_text(ports, ',');
    proof {
        lemma_split_on_len(ports@, ',');
        assert(parts@[0]@ == texts(parts@)[0]);
    }
    let usart1 = non_empty_string(&parts[0]);
    let usart2 = if parts.len() >= 2 {
        assert(parts@[1]@ == texts(parts@)[1]);
        non_empty_string(&parts[1])
    } else {
        None
    };
    ConnectedBackend::Serial { usart1, usart2 }
}


// ── Text lines and the task column ───────────────────────────────────

/// The width of the task column: the longest task name as shown (in
/// bytes), at least six.
pub open spec fn task_column(names: Seq<String>) -> nat
    decreases names.len(),
{
    if names.len() == 0 {
        6
    } else {
        let rest = task_column(names.drop_last());
        let n = byte_len(shown_task(names.last()@).0);
        if n > rest {
            n
        } else {
            rest
        }
    }
}

/// The width of the task column for these task names.
pub fn task_pad(task_names: &Vec<String>) -> (r: usize)
    ensures
        r == task_column(task_names@),
{
    proof {
        reveal_strlit("sysmodule_");
    }
    let mut best: usize = 6;
    let mut i: usize = 0;
    while i < task_names.len()
        invariant
            i <= task_names@.len(),
            best as nat == task_column(task_names@.subrange(0, i as int)),
        decreases task_names.len() - i,
    {
        proof {
            assert(task_names@.subrange(0, i + 1).drop_last() =~= task_names@.subrange(0, i as int));
        }
        let name = task_names[i].as_str();
        proof {
            reveal_strlit("sysmodule_");
        }
        assert(name@ == task_names@[i as int]@);
        let shown = match strip_prefix_str(name, "sysmodule_") {
            Some(t) => t,
            None => name,
        };
        let n = shown.as_bytes().len();
        assert(shown@ == shown_task(task_names@[i as int]@).0);
        assert(task_names@.subrange(0, i + 1).last() == task_names@[i as int]);
        if n > best {
            best = n;
        }
        i += 1;
    }
    assert(task_names@.subrange(0, i as int) =~= task_names@);
    best
}

/// A plain text line's source and text: a `name: ` prefix of the text
/// names its source, else the stream does.
pub open spec fn text_parts(source: Seq<char>, text: Seq<char>) -> (Seq<char>, Seq<char>) {
    match find_first(text, ": "@) {
        Some(i) => (text.subrange(0, i), text.subrange(i + 2, text.len() as int)),
        None => (source, text),
    }
}

/// The printed line of a plain text line from stream `source`.
pub open spec fn spec_text_line(source: Seq<char>, text: Seq<char>, task_pad: nat) -> Seq<char> {
    let p = text_parts(source, text);
    "       "@ + "\x1b[37m"@ + right_aligned(p.0, task_pad) + "\x1b[0m"@ + " "@ + dim_text("|"@) + " "@ + p.1
}

/// The printed line of a plain text line from stream `source`.
pub fn text_line(source: &str, text: &str, task_pad: usize) -> (r: String)
    ensures
        r@ == spec_text_line(source@, text@, task_pad as nat),
{
    proof {
        reveal_strlit(": ");
        reveal_strlit("       ");
        reveal_strlit(" ");
        reveal_strlit("|");
        reveal_strlit("\x1b[37m");
        reveal_strlit("\x1b[0m");
        reveal_strlit("\x1b[2m");
    }
    let cs = str_chars(text);
    let sep = str_chars(": ");
    let (src, body): (String, String) = match find_chars(&cs, &sep) {
        Some(i) => {
            proof {
                lemma_first_occurrence(cs@, sep@, 0);
                assert(occurs_at(cs@, sep@, i as int));
            }
            assert(sep@.len() == 2);
            assert(i + 2 <= cs.len());
            let after = i + 2;
            let mut a = String::new();
            let mut k: usize = 0;
            while k < i
                invariant
                    k <= i,
                    i + 2 <= cs@.len(),
                    a@ =~= cs@.subrange(0, k as int),
                decreases i - k,
            {
                push_char(&mut a, cs[k]);
                k += 1;
            }
            let mut b = String::new();
            let mut k: usize = after;
            while k < cs.len()
                invariant
                    after == i + 2,
                    i + 2 <= k <= cs@.len(),
                    b@ =~= cs@.subrange(i + 2, k as int),
                decreases cs.len() - k,
            {
                push_char(&mut b, cs[k]);
                k += 1;
            }
            (a, b)
        },
        None => {
            let mut a = String::new();
            push_str(&mut a, source);
            let mut b = String::new();
            push_str(&mut b, text);
            assert(a@ =~= source@);
            assert(b@ =~= text@);
            (a, b)
        },
    };
    assert(src@ == text_parts(source@, text@).0 && body@ == text_parts(source@, text@).1);
    let mut out = String::new();
    push_str(&mut out, "       ");
    push_str(&mut out, "\x1b[37m");
    push_right_aligned(&mut out, src.as_str(), task_pad);
    push_str(&mut out, "\x1b[0m");
    push_str(&mut out, " ");
    push_str(&mut out, "\x1b[2m");
    push_str(&mut out, "|");
    push_str(&mut out, "\x1b[0m");
    push_str(&mut out, " ");
    push_str(&mut out, body.as_str());
    assert(out@ =~= spec_text_line(source@, text@, task_pad as nat));
    out
}

} // verus!
