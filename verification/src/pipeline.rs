//! Build progress as the front end tracks it: pipeline phases, per-crate
//! state, memory devices, allocations and the IPC resources a firmware
//! exposes.

use vstd::prelude::*;

use crate::ids::{BuildId, FirmwareId};
use crate::state::Diagnostic;
use crate::text::{push_char, push_str};

verus! {

// ── Pipeline phases ──────────────────────────────────────────────────

/// Major phases of the build pipeline.
#[derive(Clone, Copy, Debug, PartialEq, Eq, Structural)]
pub enum PipelinePhase {
    Planning,
    CompilingTasks,
    Organizing { regions_placed: usize },
    CompilingApp,
    ExtractingMetadata,
    Packing,
    Done,
}

impl PipelinePhase {
    /// Position of the phase in the pipeline, from 0.
    pub open spec fn rank(self) -> u8 {
        match self {
            PipelinePhase::Planning => 0,
            PipelinePhase::CompilingTasks => 1,
            PipelinePhase::Organizing { .. } => 2,
            PipelinePhase::CompilingApp => 3,
            PipelinePhase::ExtractingMetadata => 4,
            PipelinePhase::Packing => 5,
            PipelinePhase::Done => 6,
        }
    }

    /// Short upper-case tag shown for the phase.
    pub open spec fn tag(self) -> Seq<char> {
        match self {
            PipelinePhase::Planning => "PLAN"@,
            PipelinePhase::CompilingTasks => "TASKS"@,
            PipelinePhase::Organizing { .. } => "ORGANIZE"@,
            PipelinePhase::CompilingApp => "APP"@,
            PipelinePhase::ExtractingMetadata => "METADATA"@,
            PipelinePhase::Packing => "PACK"@,
            PipelinePhase::Done => "DONE"@,
        }
    }

    /// Stable 0-based index for ordering / progress.
    pub fn order(&self) -> (r: u8)
        ensures
            r == self.rank(),
    {
        match self {
            PipelinePhase::Planning => 0,
            PipelinePhase::CompilingTasks => 1,
            PipelinePhase::Organizing { .. } => 2,
            PipelinePhase::CompilingApp => 3,
            PipelinePhase::ExtractingMetadata => 4,
            PipelinePhase::Packing => 5,
            PipelinePhase::Done => 6,
        }
    }

    /// Short label for the phase.
    pub fn label(&self) -> (r: &'static str)
        ensures
            r@ == self.tag(),
    {
        match self {
            PipelinePhase::Planning => "PLAN",
            PipelinePhase::CompilingTasks => "TASKS",
            PipelinePhase::Organizing { .. } => "ORGANIZE",
            PipelinePhase::CompilingApp => "APP",
            PipelinePhase::ExtractingMetadata => "METADATA",
            PipelinePhase::Packing => "PACK",
            PipelinePhase::Done => "DONE",
        }
    }
}

/// Distinct phases have distinct ranks, and ranks run from 0 to 6 with
/// planning first and done last.
pub proof fn law_phase_order(a: PipelinePhase, b: PipelinePhase)
    ensures
        a.rank() <= 6,
        a.rank() == b.rank() <==> (a is Organizing && b is Organizing) || a == b,
        PipelinePhase::Planning.rank() == 0,
        PipelinePhase::Done.rank() == 6,
{
}

// ── Crate states ─────────────────────────────────────────────────────

/// Which semantic category a crate belongs to in the UI grouping.
#[derive(Clone, Copy, Debug, PartialEq, Eq, Structural)]
pub enum CrateKind {
    Bootloader,
    Kernel,
    Task,
    /// Privileged modules that aren't tasks.
    Sysmodule,
    /// Host-side tooling, not deployed to the device.
    HostCrate,
}

/// Build-time state machine for an embedded crate.
#[derive(Clone, Copy, Debug, PartialEq, Eq, Structural)]
pub enum CrateBuildState {
    Queued,
    Building,
    Compiled,
    Measuring,
    Linking,
    Linked,
    Failed,
}

/// Build-time state machine for a host-side crate.
#[derive(Clone, Copy, Debug, PartialEq, Eq, Structural)]
pub enum HostCrateBuildState {
    Queued,
    Building,
    Running,
    Done,
    Failed,
}

/// The embedded state a host crate is shown with.
pub open spec fn spec_host_as_embedded(s: HostCrateBuildState) -> CrateBuildState {
    match s {
        HostCrateBuildState::Queued => CrateBuildState::Queued,
        HostCrateBuildState::Building => CrateBuildState::Building,
        HostCrateBuildState::Running => CrateBuildState::Measuring,
        HostCrateBuildState::Done => CrateBuildState::Linked,
        HostCrateBuildState::Failed => CrateBuildState::Failed,
    }
}

/// Map a host crate's state onto the embedded states for unified rendering.
pub fn host_as_embedded(s: HostCrateBuildState) -> (r: CrateBuildState)
    ensures
        r == spec_host_as_embedded(s),
{
    match s {
        HostCrateBuildState::Queued => CrateBuildState::Queued,
        HostCrateBuildState::Building => CrateBuildState::Building,
        HostCrateBuildState::Running => CrateBuildState::Measuring,
        HostCrateBuildState::Done => CrateBuildState::Linked,
        HostCrateBuildState::Failed => CrateBuildState::Failed,
    }
}

/// An IPC resource a crate serves.
#[derive(Clone, Debug)]
pub struct ProvidedResource {
    /// Resource trait name, e.g. `"Log"`.
    pub resource: String,
    pub method_count: usize,
}

/// An IPC resource a crate consumes from another server task.
#[derive(Clone, Debug)]
pub struct UsedResource {
    /// Task name that serves this resource.
    pub server_task: String,
    /// Resource trait name (empty when not known).
    pub resource: String,
}

/// Per-crate build progress, for embedded and host crates alike.
pub struct CrateProgress {
    pub name: String,
    pub kind: CrateKind,
    pub state: CrateBuildState,
    pub host_state: Option<HostCrateBuildState>,
    /// If this crate is a supervisor task.
    pub supervisor: bool,
    /// Scheduling priority (0 = highest), when known.
    pub priority: Option<u32>,
    /// Measured section sizes in bytes, one entry per region name, in the
    /// order the regions were first measured.
    pub sizes: Vec<(String, u64)>,
    /// Sum of all measured regions.
    pub total_size: Option<u64>,
    /// Cargo output lines.
    pub cargo_log: Vec<String>,
    /// Error message if this crate failed.
    pub error: Option<String>,
    pub provides: Vec<ProvidedResource>,
    pub uses: Vec<UsedResource>,
}

/// A crate's progress as plain values.
pub struct CrateView {
    pub name: Seq<char>,
    pub kind: CrateKind,
    pub state: CrateBuildState,
    pub host_state: Option<HostCrateBuildState>,
    pub supervisor: bool,
    pub priority: Option<u32>,
    pub sizes: Seq<(Seq<char>, u64)>,
    pub total_size: Option<u64>,
    pub cargo_log: Seq<Seq<char>>,
    pub error: Option<Seq<char>>,
    pub provides: Seq<(Seq<char>, usize)>,
    pub uses: Seq<(Seq<char>, Seq<char>)>,
}

pub open spec fn opt_text(o: Option<String>) -> Option<Seq<char>> {
    match o {
        Some(s) => Some(s@),
        None => None,
    }
}

pub open spec fn texts(v: Seq<String>) -> Seq<Seq<char>> {
    v.map_values(|s: String| s@)
}

pub open spec fn named_sizes(v: Seq<(String, u64)>) -> Seq<(Seq<char>, u64)> {
    v.map_values(|p: (String, u64)| (p.0@, p.1))
}

pub open spec fn provided_view(v: Seq<ProvidedResource>) -> Seq<(Seq<char>, usize)> {
    v.map_values(|p: ProvidedResource| (p.resource@, p.method_count))
}

pub open spec fn used_view(v: Seq<UsedResource>) -> Seq<(Seq<char>, Seq<char>)> {
    v.map_values(|u: UsedResource| (u.server_task@, u.resource@))
}

impl View for CrateProgress {
    type V = CrateView;

    open spec fn view(&self) -> CrateView {
        CrateView {
            name: self.name@,
            kind: self.kind,
            state: self.state,
            host_state: self.host_state,
            supervisor: self.supervisor,
            priority: self.priority,
            sizes: named_sizes(self.sizes@),
            total_size: self.total_size,
            cargo_log: texts(self.cargo_log@),
            error: opt_text(self.error),
            provides: provided_view(self.provides@),
            uses: used_view(self.uses@),
        }
    }
}

/// A crate nothing has been reported about yet.
pub open spec fn fresh_crate(name: Seq<char>, kind: CrateKind) -> CrateView {
    CrateView {
        name,
        kind,
        state: CrateBuildState::Queued,
        host_state: None,
        supervisor: false,
        priority: None,
        sizes: Seq::empty(),
        total_size: None,
        cargo_log: Seq::empty(),
        error: None,
        provides: Seq::empty(),
        uses: Seq::empty(),
    }
}

impl CrateProgress {
    /// A queued crate with nothing measured or logged.
    pub fn new(name: String, kind: CrateKind) -> (c: Self)
        ensures
            c@ == fresh_crate(name@, kind),
    {
        let c = CrateProgress {
            name,
            kind,
            state: CrateBuildState::Queued,
            host_state: None,
            supervisor: false,
            priority: None,
            sizes: Vec::new(),
            total_size: None,
            cargo_log: Vec::new(),
            error: None,
            provides: Vec::new(),
            uses: Vec::new(),
        };
        assert(c@.sizes =~= Seq::<(Seq<char>, u64)>::empty());
        assert(c@.cargo_log =~= Seq::<Seq<char>>::empty());
        assert(c@.provides =~= Seq::<(Seq<char>, usize)>::empty());
        assert(c@.uses =~= Seq::<(Seq<char>, Seq<char>)>::empty());
        c
    }
}

/// A crate shown as already linked (used for firmware loaded from disk).
pub open spec fn linked_crate(name: Seq<char>, kind: CrateKind, priority: Option<u32>, supervisor: bool) -> CrateView {
    CrateView {
        state: CrateBuildState::Linked,
        priority,
        supervisor,
        ..fresh_crate(name, kind)
    }
}

/// A linked crate with the given priority and supervisor flag.
fn synthesise_linked_crate(name: &str, kind: CrateKind, priority: Option<u32>, supervisor: bool) -> (c: CrateProgress)
    ensures
        c@ == linked_crate(name@, kind, priority, supervisor),
{
    let mut c = CrateProgress::new(name.to_owned(), kind);
    c.state = CrateBuildState::Linked;
    c.priority = priority;
    c.supervisor = supervisor;
    c
}

// ── Memory ───────────────────────────────────────────────────────────

/// A memory allocation emitted by the layout solver.
#[derive(Clone, Debug)]
pub struct MemoryAllocation {
    /// Place where this allocation actually landed.
    pub place: String,
    /// Crate name / "kernel" / "bootloader" owning this region.
    pub owner: String,
    /// Region name: "code", "data", "stack", etc.
    pub region: String,
    pub base: u64,
    pub size: u64,
    /// Place originally requested (differs from `place` if overflowed).
    pub requested_place: String,
}

/// A physical memory device on the board.
#[derive(Clone, Debug)]
pub struct MemoryDevice {
    pub name: String,
    /// Total capacity in bytes.
    pub size: u64,
    /// CPU-visible `(address, size)` pairs this device appears at.
    pub mappings: Vec<(u64, u64)>,
}

/// `addr` lies in the mapping `(start, size)`; the end saturates at the
/// top of the address space.
pub open spec fn in_mapping(m: (u64, u64), addr: u64) -> bool {
    addr >= m.0 && addr < (if m.0 + m.1 > u64::MAX {
        u64::MAX as int
    } else {
        m.0 + m.1
    })
}

impl MemoryDevice {
    /// Does the address fall inside any of this device's CPU mappings?
    pub fn contains_address(&self, addr: u64) -> (r: bool)
        ensures
            r == exists|i: int| 0 <= i < self.mappings@.len() && in_mapping(#[trigger] self.mappings@[i], addr),
    {
        let mut i: usize = 0;
        while i < self.mappings.len()
            invariant
                i <= self.mappings@.len(),
                forall|k: int| 0 <= k < i ==> !in_mapping(#[trigger] self.mappings@[k], addr),
            decreases self.mappings.len() - i,
        {
            let (start, size) = self.mappings[i];
            let end = start.saturating_add(size);
            if addr >= start && addr < end {
                return true;
            }
            assert(!in_mapping(self.mappings@[i as int], addr));
            i += 1;
        }
        false
    }
}

/// State of the output firmware image across the build.
#[derive(Clone, Debug)]
pub enum ImageProgress {
    /// No image work yet.
    NoImage,
    /// Flat binary was assembled in memory.
    Assembled { size: u64 },
    /// The archive was written to disk.
    Archived { size: u64, path: String },
}

// ── IPC resources ────────────────────────────────────────────────────

/// A parameter of an IPC method, as the firmware metadata records it.
#[derive(Clone, Debug)]
pub struct ParamMeta {
    pub name: String,
    pub ty: String,
}

/// An IPC method: name, parameters in order and optional return type.
#[derive(Clone, Debug)]
pub struct MethodMeta {
    pub name: String,
    pub params: Vec<ParamMeta>,
    pub return_type: Option<String>,
}

/// An IPC resource trait and its methods.
#[derive(Clone, Debug)]
pub struct ResourceMeta {
    pub methods: Vec<MethodMeta>,
}

/// A server task and the resource traits it serves.
#[derive(Clone, Debug)]
pub struct ServerMeta {
    pub serves: Vec<String>,
}

/// The IPC metadata of a firmware: resources by name and servers by task
/// name, each in the order the metadata lists them.
#[derive(Clone, Debug)]
pub struct IpcMetadataBundle {
    pub resources: Vec<(String, ResourceMeta)>,
    pub servers: Vec<(String, ServerMeta)>,
}

/// An IPC resource reachable from a firmware: the Resources card's data.
#[derive(Clone, Debug)]
pub struct ResourceSummary {
    /// Resource trait name, e.g. `"Log"`.
    pub name: String,
    /// Task that implements this resource, or empty if none was declared.
    pub provider_task: String,
    /// Method signatures in order, e.g. `"log(msg: &str)"`.
    pub methods: Vec<String>,
}

/// `name: ty`.
pub open spec fn param_text(p: ParamMeta) -> Seq<char> {
    p.name@ + seq![':', ' '] + p.ty@
}

/// The parameters joined with `", "`.
pub open spec fn param_list(ps: Seq<ParamMeta>) -> Seq<char>
    decreases ps.len(),
{
    if ps.len() == 0 {
        Seq::empty()
    } else if ps.len() == 1 {
        param_text(ps[0])
    } else {
        param_list(ps.drop_last()) + seq![',', ' '] + param_text(ps.last())
    }
}

/// ` -> T` for a return type `T`, nothing otherwise.
pub open spec fn return_text(t: Option<String>) -> Seq<char> {
    match t {
        Some(t) => seq![' ', '-', '>', ' '] + t@,
        None => Seq::empty(),
    }
}

/// `name(params) -> ret`.
pub open spec fn method_signature(m: MethodMeta) -> Seq<char> {
    m.name@ + seq!['('] + param_list(m.params@) + seq![')'] + return_text(m.return_type)
}

/// The server that `r` is attributed to: the last one in `servers` that
/// serves it (later entries win), or empty text if none does.
pub open spec fn provider_of(servers: Seq<(String, ServerMeta)>, r: Seq<char>) -> Seq<char>
    decreases servers.len(),
{
    if servers.len() == 0 {
        Seq::empty()
    } else if exists|j: int| 0 <= j < servers.last().1.serves@.len() && (#[trigger] servers.last().1.serves@[j])@ == r {
        servers.last().0@
    } else {
        provider_of(servers.drop_last(), r)
    }
}

/// The summary of resource `i` of the bundle.
pub open spec fn summary_of(bundle: IpcMetadataBundle, i: int) -> (Seq<char>, Seq<char>, Seq<Seq<char>>) {
    let (name, res) = bundle.resources@[i];
    (
        name@,
        provider_of(bundle.servers@, name@),
        res.methods@.map_values(|m: MethodMeta| method_signature(m)),
    )
}

impl ResourceSummary {
    /// The summary as plain values: name, provider, method signatures.
    pub open spec fn view(&self) -> (Seq<char>, Seq<char>, Seq<Seq<char>>) {
        (self.name@, self.provider_task@, texts(self.methods@))
    }

    /// The Resources card data of an IPC metadata bundle: one summary per
    /// resource, in the bundle's order.
    pub fn list_from_bundle(bundle: &IpcMetadataBundle) -> (r: Vec<ResourceSummary>)
        ensures
            r@.len() == bundle.resources@.len(),
            forall|i: int| 0 <= i < r@.len() ==> (#[trigger] r@[i]).view() == summary_of(*bundle, i),
    {
        let mut out: Vec<ResourceSummary> = Vec::new();
        let mut i: usize = 0;
        while i < bundle.resources.len()
            invariant
                i <= bundle.resources@.len(),
                out@.len() == i,
                forall|k: int| 0 <= k < i ==> (#[trigger] out@[k]).view() == summary_of(*bundle, k),
            decreases bundle.resources.len() - i,
        {
            let (name, res) = &bundle.resources[i];
            let provider = provider_task(&bundle.servers, name);
            let mut methods: Vec<String> = Vec::new();
            let mut j: usize = 0;
            while j < res.methods.len()
                invariant
                    j <= res.methods@.len(),
                    methods@.len() == j,
                    forall|k: int|
                        0 <= k < j ==> (#[trigger] methods@[k])@ == method_signature(res.methods@[k]),
                decreases res.methods.len() - j,
            {
                methods.push(signature(&res.methods[j]));
                j += 1;
            }
            assert(texts(methods@) =~= res.methods@.map_values(|m: MethodMeta| method_signature(m)));
            out.push(ResourceSummary { name: name.clone(), provider_task: provider, methods });
            i += 1;
        }
        out
    }
}

/// Whether `serves` lists `name`.
fn serves_name(serves: &Vec<String>, name: &String) -> (r: bool)
    ensures
        r == exists|j: int| 0 <= j < serves@.len() && (#[trigger] serves@[j])@ == name@,
{
    let mut j: usize = 0;
    while j < serves.len()
        invariant
            j <= serves@.len(),
            forall|k: int| 0 <= k < j ==> (#[trigger] serves@[k])@ != name@,
        decreases serves.len() - j,
    {
        if serves[j] == *name {
            return true;
        }
        j += 1;
    }
    false
}

/// The task a resource is attributed to (see [`provider_of`]).
fn provider_task(servers: &Vec<(String, ServerMeta)>, name: &String) -> (r: String)
    ensures
        r@ == provider_of(servers@, name@),
{
    let mut k: usize = servers.len();
    assert(servers@.subrange(0, k as int) =~= servers@);
    while k > 0
        invariant
            k <= servers@.len(),
            provider_of(servers@, name@) == provider_of(servers@.subrange(0, k as int), name@),
        decreases k,
    {
        let ghost sub = servers@.subrange(0, k as int);
        assert(sub.drop_last() =~= servers@.subrange(0, k - 1));
        assert(sub.last() == servers@[k - 1]);
        if serves_name(&servers[k - 1].1.serves, name) {
            return servers[k - 1].0.clone();
        }
        k -= 1;
    }
    String::new()
}

/// The signature text of a method.
fn signature(m: &MethodMeta) -> (r: String)
    ensures
        r@ == method_signature(*m),
{
    let mut out = String::new();
    push_str(&mut out, m.name.as_str());
    push_char(&mut out, '(');
    let ghost head = out@;
    let mut j: usize = 0;
    assert(m.params@.subrange(0, 0) =~= Seq::<ParamMeta>::empty());
    while j < m.params.len()
        invariant
            j <= m.params@.len(),
            head == m.name@ + seq!['('],
            out@ == head + param_list(m.params@.subrange(0, j as int)),
        decreases m.params.len() - j,
    {
        let ghost before = out@;
        if j > 0 {
            push_char(&mut out, ',');
            push_char(&mut out, ' ');
        }
        let p = &m.params[j];
        push_str(&mut out, p.name.as_str());
        push_char(&mut out, ':');
        push_char(&mut out, ' ');
        push_str(&mut out, p.ty.as_str());
        let ghost sub = m.params@.subrange(0, j + 1);
        assert(sub.drop_last() =~= m.params@.subrange(0, j as int));
        assert(sub.last() == *p);
        if j == 0 {
            assert(out@ =~= head + param_list(sub));
        } else {
            assert(out@ =~= head + param_list(sub));
        }
        j += 1;
    }
    assert(m.params@.subrange(0, j as int) =~= m.params@);
    push_char(&mut out, ')');
    match &m.return_type {
        Some(t) => {
            push_char(&mut out, ' ');
            push_char(&mut out, '-');
            push_char(&mut out, '>');
            push_char(&mut out, ' ');
            push_str(&mut out, t.as_str());
        },
        None => {},
    }
    assert(out@ =~= method_signature(*m));
    out
}

// ── Builds ───────────────────────────────────────────────────────────

/// Configuration for a firmware build.
#[derive(Clone, Debug)]
pub struct BuildConfig {
    pub config: String,
    pub board: String,
    pub layout: String,
}

/// Coarse status of a build.
pub enum BuildStatus {
    Running,
    Succeeded { tfw_path: String, firmware_id: Option<FirmwareId> },
    Failed { error: String },
}

/// A build tracked by the front end: coarse status, live pipeline phase,
/// per-crate progress, memory allocations, image state, diagnostics and a
/// free-form pipeline log. Times are milliseconds on the front end's
/// monotonic clock.
pub struct BuildHandle {
    pub id: BuildId,
    pub config: BuildConfig,
    pub status: BuildStatus,
    /// UUID of the build, once known.
    pub uuid: Option<String>,
    /// Current phase, once the first phase event arrived.
    pub phase: Option<PipelinePhase>,
    /// All crates seen, embedded and host, in order of first report.
    pub crates: Vec<CrateProgress>,
    pub allocations: Vec<MemoryAllocation>,
    /// Capacity in bytes of each named place, one entry per name.
    pub place_capacities: Vec<(String, u64)>,
    pub memories: Vec<MemoryDevice>,
    pub resources: Vec<ResourceSummary>,
    pub image: ImageProgress,
    pub diagnostics: Vec<Diagnostic>,
    pub log: Vec<String>,
    pub started_at_ms: u64,
    pub finished_at_ms: Option<u64>,
}

/// Index of the first crate called `name`, or the length when none is.
pub open spec fn crate_slot(cs: Seq<CrateProgress>, name: Seq<char>) -> int
    decreases cs.len(),
{
    if cs.len() == 0 {
        0
    } else if crate_slot(cs.drop_last(), name) < cs.len() - 1 {
        crate_slot(cs.drop_last(), name)
    } else if cs.last().name@ == name {
        cs.len() - 1
    } else {
        cs.len() as int
    }
}

/// `crate_slot` is the first match, or the length when there is none.
pub proof fn lemma_crate_slot(cs: Seq<CrateProgress>, name: Seq<char>)
    ensures
        0 <= crate_slot(cs, name) <= cs.len(),
        crate_slot(cs, name) < cs.len() ==> cs[crate_slot(cs, name)].name@ == name,
        forall|j: int| 0 <= j < crate_slot(cs, name) ==> (#[trigger] cs[j]).name@ != name,
    decreases cs.len(),
{
    if cs.len() > 0 {
        lemma_crate_slot(cs.drop_last(), name);
        assert forall|j: int| 0 <= j < crate_slot(cs, name) implies (#[trigger] cs[j]).name@ != name by {
            if j < cs.len() - 1 {
                assert(cs[j] == cs.drop_last()[j]);
            }
        }
    }
}

impl BuildHandle {
    /// Look up the crate called `name`, adding a fresh one of kind `kind`
    /// at the end if there is none.
    pub fn crate_mut(&mut self, name: &str, kind: CrateKind) -> (c: &mut CrateProgress)
        ensures
            ({
                let i = crate_slot(old(self).crates@, name@);
                &&& i < old(self).crates@.len() ==> *c == old(self).crates@[i]
                    && final(self).crates@.len() == old(self).crates@.len()
                &&& i == old(self).crates@.len() ==> c@ == fresh_crate(name@, kind)
                    && final(self).crates@.len() == old(self).crates@.len() + 1
                &&& final(self).crates@[i] == *final(c)
                &&& forall|j: int| 0 <= j < old(self).crates@.len() && j != i ==> #[trigger] final(self).crates@[j] == old(self).crates@[j]
            }),
            *final(self) == (BuildHandle { crates: final(self).crates, ..*old(self) }),
    {
        proof {
            lemma_crate_slot(self.crates@, name@);
        }
        let mut idx: usize = 0;
        while idx < self.crates.len()
            invariant
                idx <= self.crates@.len(),
                idx <= crate_slot(self.crates@, name@),
                0 <= crate_slot(self.crates@, name@) <= self.crates@.len(),
                crate_slot(self.crates@, name@) < self.crates@.len() ==> self.crates@[crate_slot(self.crates@, name@)].name@ == name@,
                forall|j: int| 0 <= j < crate_slot(self.crates@, name@) ==> (#[trigger] self.crates@[j]).name@ != name@,
            ensures
                idx <= crate_slot(self.crates@, name@),
                idx < self.crates@.len() ==> self.crates@[idx as int].name@ == name@,
                idx <= self.crates@.len(),
            decreases self.crates.len() - idx,
        {
            if crate::text::str_eq(self.crates[idx].name.as_str(), name) {
                break;
            }
            idx += 1;
        }
        if idx == self.crates.len() {
            self.crates.push(CrateProgress::new(name.to_owned(), kind));
        }
        &mut self.crates[idx]
    }

    /// Time from start to finish, or to `now_ms` while still running (0 if
    /// the clock reads earlier than the start).
    pub open spec fn elapsed_at(&self, now_ms: u64) -> int {
        match self.finished_at_ms {
            Some(f) => if f >= self.started_at_ms { f - self.started_at_ms } else { 0 },
            None => if now_ms >= self.started_at_ms { now_ms - self.started_at_ms } else { 0 },
        }
    }

    /// Time from start to finish, or to `now_ms` while still running (0 if
    /// the clock reads earlier than the start).
    pub fn elapsed(&self, now_ms: u64) -> (r: u64)
        ensures
            r == self.elapsed_at(now_ms),
    {
        let end = match self.finished_at_ms {
            Some(f) => f,
            None => now_ms,
        };
        end.saturating_sub(self.started_at_ms)
    }

    /// The crates of one kind, in order.
    pub fn crates_by_kind(&self, kind: CrateKind) -> (r: Vec<&CrateProgress>)
        ensures
            r@.len() == self.crates@.filter(|c: CrateProgress| c.kind == kind).len(),
            forall|i: int| 0 <= i < r@.len() ==> *(#[trigger] r@[i]) == self.crates@.filter(|c: CrateProgress| c.kind == kind)[i],
    {
        let ghost pred = |c: CrateProgress| c.kind == kind;
        let mut out: Vec<&CrateProgress> = Vec::new();
        let mut i: usize = 0;
        assert(self.crates@.subrange(0, 0).filter(pred) =~= Seq::<CrateProgress>::empty());
        while i < self.crates.len()
            invariant
                i <= self.crates@.len(),
                pred == (|c: CrateProgress| c.kind == kind),
                out@.len() == self.crates@.subrange(0, i as int).filter(pred).len(),
                forall|k: int| 0 <= k < out@.len() ==> *(#[trigger] out@[k]) == self.crates@.subrange(0, i as int).filter(pred)[k],
            decreases self.crates.len() - i,
        {
            let ghost sub = self.crates@.subrange(0, i + 1);
            assert(sub.drop_last() =~= self.crates@.subrange(0, i as int));
            reveal(Seq::filter);
            assert(sub.filter(pred) == if pred(sub.last()) { sub.drop_last().filter(pred).push(sub.last()) } else { sub.drop_last().filter(pred) });
            if self.crates[i].kind == kind {
                out.push(&self.crates[i]);
            }
            i += 1;
        }
        assert(self.crates@.subrange(0, i as int) =~= self.crates@);
        out
    }
}

// ── Firmware archives ────────────────────────────────────────────────

/// Build information recorded in a firmware archive.
#[derive(Clone, Debug)]
pub struct BuildInfo {
    pub name: String,
    pub version: Option<String>,
    /// UUID of the build.
    pub build_id: String,
    pub board: String,
    pub layout: String,
    pub build_duration_ms: Option<u64>,
    /// The allocations the layout solver settled on.
    pub allocations: Vec<MemoryAllocation>,
}

/// A task of the firmware configuration and the tasks it depends on.
pub struct TaskConfig {
    pub name: String,
    pub priority: u32,
    pub supervisor: bool,
    pub depends_on: Vec<TaskConfig>,
}

/// A physical memory bank of the configuration.
#[derive(Clone, Debug)]
pub struct MemoryConfig {
    pub size: u64,
    /// `(address, size)` CPU mappings.
    pub mappings: Vec<(u64, u64)>,
}

/// The resolved configuration recorded in a firmware archive.
pub struct FirmwareConfig {
    /// Package name of the kernel crate.
    pub kernel: String,
    /// Package name of the bootloader crate, if there is one.
    pub bootloader: Option<String>,
    /// Top-level task entries.
    pub entries: Vec<TaskConfig>,
    /// Place name and capacity.
    pub places: Vec<(String, u64)>,
    /// Memory bank name and description.
    pub memory: Vec<(String, MemoryConfig)>,
}

/// What a firmware archive says about itself.
pub struct FirmwareMetadata {
    pub build: Option<BuildInfo>,
    pub config: Option<FirmwareConfig>,
    pub ipc: Option<IpcMetadataBundle>,
}

/// A firmware known to the front end.
pub struct FirmwareHandle {
    pub id: FirmwareId,
    /// On-disk location, or `None` for builtin (in-memory) entries.
    pub path: Option<String>,
    pub metadata: FirmwareMetadata,
}

/// The last component of a path, if it has one.
pub uninterp spec fn path_file_name(path: Seq<char>) -> Option<Seq<char>>;

/// `std::path::Path::file_name`, read back as text. The result is named by
/// [`path_file_name`]: it depends on the path text alone.
#[verifier::external_body]
fn file_name_of(path: &str) -> (r: Option<String>)
    ensures
        opt_text(r) == path_file_name(path@),
{
    std::path::Path::new(path).file_name().map(|f| f.to_string_lossy().to_string())
}

/// Byte length of the short build id: the first eight bytes at most.
pub open spec fn short_id_len(id: Seq<char>) -> int {
    let n = vstd::utf8::encode_utf8(id).len() as int;
    if n < 8 { n } else { 8 }
}

/// The short build id: the text of the first `short_id_len` bytes.
pub open spec fn short_id(id: Seq<char>) -> Seq<char> {
    vstd::utf8::decode_utf8(vstd::utf8::encode_utf8(id).subrange(0, short_id_len(id)))
}

/// `name v<version> - <short id>`, with ` (builtin)` after the version for
/// an entry that has no file.
pub open spec fn build_title(b: BuildInfo, builtin: bool) -> Seq<char> {
    b.name@ + seq![' ', 'v'] + (match b.version {
        Some(v) => v@,
        None => seq!['?'],
    }) + (if builtin { " (builtin)"@ } else { Seq::empty() }) + seq![' ', '-', ' '] + short_id(b.build_id@)
}

/// The short build id can be cut from the build id without splitting a
/// character.
pub open spec fn short_id_cuttable(m: FirmwareMetadata) -> bool {
    match m.build {
        Some(b) => vstd::utf8::is_char_boundary(vstd::utf8::encode_utf8(b.build_id@), short_id_len(b.build_id@)),
        None => true,
    }
}

impl FirmwareHandle {
    /// The display name: from the build metadata, else the file name, else
    /// `unknown` / `builtin`.
    pub open spec fn display_text(&self) -> Seq<char> {
        match self.metadata.build {
            Some(b) => build_title(b, self.path.is_none()),
            None => match self.path {
                Some(p) => match path_file_name(p@) {
                    Some(f) => f,
                    None => "unknown"@,
                },
                None => "builtin"@,
            },
        }
    }

    /// An in-memory entry, not loaded from a file.
    pub fn is_builtin(&self) -> (r: bool)
        ensures
            r == self.path.is_none(),
    {
        self.path.is_none()
    }

    /// Short display name: from the build metadata, else the file name,
    /// else `unknown` / `builtin`.
    pub fn display_name(&self) -> (r: String)
        requires
            short_id_cuttable(self.metadata),
        ensures
            r@ == self.display_text(),
    {
        match &self.metadata.build {
            Some(b) => {
                let mut out = String::new();
                push_str(&mut out, b.name.as_str());
                push_char(&mut out, ' ');
                push_char(&mut out, 'v');
                match &b.version {
                    Some(v) => push_str(&mut out, v.as_str()),
                    None => push_char(&mut out, '?'),
                }
                if self.path.is_none() {
                    push_str(&mut out, " (builtin)");
                }
                push_char(&mut out, ' ');
                push_char(&mut out, '-');
                push_char(&mut out, ' ');
                let id = b.build_id.as_str();
                let n = id.as_bytes().len();
                let k = if n < 8 { n } else { 8 };
                assert(id@ == b.build_id@);
                assert(k as int == short_id_len(b.build_id@));
                assert(short_id_cuttable(self.metadata));
                let (head, _) = id.split_at(k);
                proof {
                    vstd::utf8::encode_utf8_decode_utf8(head@);
                }
                push_str(&mut out, head);
                proof {
                    reveal_strlit(" (builtin)");
                }
                assert(out@ =~= build_title(*b, self.path.is_none()));
                out
            },
            None => match &self.path {
                Some(p) => match file_name_of(p.as_str()) {
                    Some(f) => f,
                    None => "unknown".to_owned(),
                },
                None => "builtin".to_owned(),
            },
        }
    }

    /// Build ID if available.
    pub fn build_id(&self) -> (r: Option<&str>)
        ensures
            r.is_some() == self.metadata.build.is_some(),
            r.is_some() ==> r.unwrap()@ == self.metadata.build.unwrap().build_id@,
    {
        match &self.metadata.build {
            Some(b) => Some(b.build_id.as_str()),
            None => None,
        }
    }
}

// ── Snapshot of a firmware archive ───────────────────────────────────

/// The tasks reached from `t` in depth-first preorder, skipping names in
/// `seen`; and `seen` with the names visited added.
pub open spec fn walk(t: TaskConfig, seen: Seq<Seq<char>>) -> (Seq<TaskConfig>, Seq<Seq<char>>)
    decreases t, 0int,
{
    if seen.contains(t.name@) {
        (Seq::empty(), seen)
    } else {
        let r = walk_list(t.depends_on@, 0, seen.push(t.name@));
        (seq![t] + r.0, r.1)
    }
}

/// [`walk`] over `ts[i..]` in order, threading `seen` through.
pub open spec fn walk_list(ts: Seq<TaskConfig>, i: int, seen: Seq<Seq<char>>) -> (Seq<TaskConfig>, Seq<Seq<char>>)
    decreases ts, ts.len() - i,
{
    if i < 0 || i >= ts.len() {
        (Seq::empty(), seen)
    } else {
        let a = walk(ts[i], seen);
        let b = walk_list(ts, i + 1, a.1);
        (a.0 + b.0, b.1)
    }
}

/// Names starting with `sysmodule_` are sysmodules, the rest tasks.
pub open spec fn task_kind(name: Seq<char>) -> CrateKind {
    if crate::text::seq_starts_with(name, "sysmodule_"@) {
        CrateKind::Sysmodule
    } else {
        CrateKind::Task
    }
}

/// A task is a sysmodule exactly when its name is `sysmodule_` followed by
/// something (possibly nothing); every other task is shown as a task.
pub proof fn law_task_kind_by_prefix(name: Seq<char>)
    ensures
        task_kind(name) == CrateKind::Sysmodule <==> exists|rest: Seq<char>| name == "sysmodule_"@ + rest,
        task_kind(name) == CrateKind::Task <==> !exists|rest: Seq<char>| name == "sysmodule_"@ + rest,
{
    let p = "sysmodule_"@;
    if crate::text::seq_starts_with(name, p) {
        let rest = name.subrange(p.len() as int, name.len() as int);
        assert(name =~= p + rest);
    }
    if exists|rest: Seq<char>| name == p + rest {
        let rest = choose|rest: Seq<char>| name == p + rest;
        assert(name.subrange(0, p.len() as int) =~= p);
    }
}

/// The resource traits task `task` serves: the last server entry for it.
pub open spec fn serves_of(servers: Seq<(String, ServerMeta)>, task: Seq<char>) -> Option<Seq<String>>
    decreases servers.len(),
{
    if servers.len() == 0 {
        None
    } else if servers.last().0@ == task {
        Some(servers.last().1.serves@)
    } else {
        serves_of(servers.drop_last(), task)
    }
}

/// Number of methods of resource `r`: from its last entry, 0 if none.
pub open spec fn method_count_of(resources: Seq<(String, ResourceMeta)>, r: Seq<char>) -> usize
    decreases resources.len(),
{
    if resources.len() == 0 {
        0
    } else if resources.last().0@ == r {
        resources.last().1.methods@.len() as usize
    } else {
        method_count_of(resources.drop_last(), r)
    }
}

/// What a crate called `name` provides, per the bundle.
pub open spec fn provides_for(name: Seq<char>, b: IpcMetadataBundle) -> Seq<(Seq<char>, usize)> {
    match serves_of(b.servers@, name) {
        Some(sv) => sv.map_values(|r: String| (r@, method_count_of(b.resources@, r@))),
        None => Seq::empty(),
    }
}

/// The `uses` of a crate depending on `deps`: one entry per resource each
/// dependency serves, or the bare dependency when the bundle has no server
/// entry for it (or there is no bundle).
pub open spec fn uses_for(deps: Seq<Seq<char>>, ipc: Option<IpcMetadataBundle>) -> Seq<(Seq<char>, Seq<char>)>
    decreases deps.len(),
{
    if deps.len() == 0 {
        Seq::empty()
    } else {
        let d = deps.last();
        uses_for(deps.drop_last(), ipc) + match ipc {
            Some(b) => match serves_of(b.servers@, d) {
                Some(sv) => sv.map_values(|r: String| (d, r@)),
                None => seq![(d, Seq::<char>::empty())],
            },
            None => seq![(d, Seq::<char>::empty())],
        }
    }
}

/// A crate of a loaded archive: linked, with its provides and uses.
pub open spec fn archived_crate(
    name: Seq<char>,
    kind: CrateKind,
    priority: Option<u32>,
    supervisor: bool,
    deps: Seq<Seq<char>>,
    ipc: Option<IpcMetadataBundle>,
) -> CrateView {
    CrateView {
        provides: match ipc {
            Some(b) => provides_for(name, b),
            None => Seq::empty(),
        },
        uses: uses_for(deps, ipc),
        ..linked_crate(name, kind, priority, supervisor)
    }
}

/// The names of a task's direct dependencies.
pub open spec fn dep_names(t: TaskConfig) -> Seq<Seq<char>> {
    names_of(t.depends_on@)
}

/// The crate shown for a task of a loaded archive.
pub open spec fn task_crate(t: TaskConfig, ipc: Option<IpcMetadataBundle>) -> CrateView {
    archived_crate(t.name@, task_kind(t.name@), Some(t.priority), t.supervisor, dep_names(t), ipc)
}

/// The crates of a loaded archive: kernel, bootloader if any, then every
/// task reached from the entries in depth-first preorder, each once.
pub open spec fn archived_crates(m: FirmwareMetadata) -> Seq<CrateView> {
    match m.config {
        None => Seq::empty(),
        Some(cfg) => seq![archived_crate(cfg.kernel@, CrateKind::Kernel, Some(0), false, Seq::empty(), m.ipc)]
            + match cfg.bootloader {
            Some(bl) => seq![archived_crate(bl@, CrateKind::Bootloader, Some(0), false, Seq::empty(), m.ipc)],
            None => Seq::empty(),
        } + walk_list(cfg.entries@, 0, Seq::empty()).0.map_values(|t: TaskConfig| task_crate(t, m.ipc)),
    }
}

/// Whether the name is in the list.
fn seen_contains(seen: &Vec<String>, name: &String) -> (r: bool)
    ensures
        r == texts(seen@).contains(name@),
{
    let mut j: usize = 0;
    while j < seen.len()
        invariant
            j <= seen@.len(),
            forall|k: int| 0 <= k < j ==> (#[trigger] seen@[k])@ != name@,
        decreases seen.len() - j,
    {
        if seen[j] == *name {
            assert(texts(seen@)[j as int] == name@);
            return true;
        }
        j += 1;
    }
    assert(!texts(seen@).contains(name@)) by {
        if texts(seen@).contains(name@) {
            let k = choose|k: int| 0 <= k < texts(seen@).len() && texts(seen@)[k] == name@;
            assert(seen@[k]@ == name@);
        }
    }
    false
}

/// Tasks as the sequence of task values they refer to.
pub open spec fn derefs(v: Seq<&TaskConfig>) -> Seq<TaskConfig> {
    v.map_values(|t: &TaskConfig| *t)
}

/// Visit `t` and its dependencies depth-first, each name once.
fn walk_tasks<'a>(t: &'a TaskConfig, out: &mut Vec<&'a TaskConfig>, seen: &mut Vec<String>)
    ensures
        derefs(final(out)@) == derefs(old(out)@) + walk(*t, texts(old(seen)@)).0,
        texts(final(seen)@) == walk(*t, texts(old(seen)@)).1,
    decreases t,
{
    if seen_contains(seen, &t.name) {
        assert(derefs(out@) =~= derefs(out@) + Seq::<TaskConfig>::empty());
        return;
    }
    let ghost seen0 = texts(seen@).push(t.name@);
    seen.push(t.name.clone());
    assert(texts(seen@) =~= seen0);
    let ghost out0 = derefs(out@);
    out.push(t);
    assert(derefs(out@) =~= out0 + seq![*t]);
    let ghost base = derefs(out@);
    let deps = &t.depends_on;
    let mut j: usize = 0;
    while j < deps.len()
        invariant
            j <= deps@.len(),
            deps == &t.depends_on,
            base.len() <= derefs(out@).len(),
            derefs(out@).subrange(0, base.len() as int) == base,
            derefs(out@).subrange(base.len() as int, derefs(out@).len() as int) + walk_list(deps@, j as int, texts(seen@)).0
                == walk_list(deps@, 0, seen0).0,
            walk_list(deps@, j as int, texts(seen@)).1 == walk_list(deps@, 0, seen0).1,
        decreases deps.len() - j,
    {
        let ghost before = derefs(out@);
        let ghost s_before = texts(seen@);
        walk_tasks(&deps[j], out, seen);
        proof {
            let a = walk(deps@[j as int], s_before);
            assert(derefs(out@) == before + a.0);
            assert(derefs(out@).subrange(0, base.len() as int) =~= base);
            assert(derefs(out@).subrange(base.len() as int, derefs(out@).len() as int) =~= before.subrange(
                base.len() as int,
                before.len() as int,
            ) + a.0);
        }
        j += 1;
    }
    proof {
        let r = walk_list(deps@, 0, seen0);
        assert(derefs(out@) =~= out0 + seq![*t] + r.0);
    }
}

/// The serves list of the last server entry for `task`.
fn serves_lookup<'a>(servers: &'a Vec<(String, ServerMeta)>, task: &String) -> (r: Option<&'a Vec<String>>)
    ensures
        r.is_some() == serves_of(servers@, task@).is_some(),
        r.is_some() ==> r.unwrap()@ == serves_of(servers@, task@).unwrap(),
{
    let mut k: usize = servers.len();
    assert(servers@.subrange(0, k as int) =~= servers@);
    while k > 0
        invariant
            k <= servers@.len(),
            serves_of(servers@, task@) == serves_of(servers@.subrange(0, k as int), task@),
        decreases k,
    {
        let ghost sub = servers@.subrange(0, k as int);
        assert(sub.drop_last() =~= servers@.subrange(0, k - 1));
        assert(sub.last() == servers@[k - 1]);
        if servers[k - 1].0 == *task {
            return Some(&servers[k - 1].1.serves);
        }
        k -= 1;
    }
    None
}

/// Method count of resource `r` (see [`method_count_of`]).
fn method_count(resources: &Vec<(String, ResourceMeta)>, r: &String) -> (n: usize)
    ensures
        n == method_count_of(resources@, r@),
{
    let mut k: usize = resources.len();
    assert(resources@.subrange(0, k as int) =~= resources@);
    while k > 0
        invariant
            k <= resources@.len(),
            method_count_of(resources@, r@) == method_count_of(resources@.subrange(0, k as int), r@),
        decreases k,
    {
        let ghost sub = resources@.subrange(0, k as int);
        assert(sub.drop_last() =~= resources@.subrange(0, k - 1));
        assert(sub.last() == resources@[k - 1]);
        if resources[k - 1].0 == *r {
            return resources[k - 1].1.methods.len();
        }
        k -= 1;
    }
    0
}

/// What a crate called `name` provides (see [`provides_for`]).
fn provides_list(name: &String, b: &IpcMetadataBundle) -> (r: Vec<ProvidedResource>)
    ensures
        provided_view(r@) == provides_for(name@, *b),
{
    let mut out: Vec<ProvidedResource> = Vec::new();
    match serves_lookup(&b.servers, name) {
        Some(sv) => {
            let mut j: usize = 0;
            while j < sv.len()
                invariant
                    j <= sv@.len(),
                    provided_view(out@) =~= sv@.subrange(0, j as int).map_values(
                        |r: String| (r@, method_count_of(b.resources@, r@)),
                    ),
                decreases sv.len() - j,
            {
                let n = method_count(&b.resources, &sv[j]);
                let ghost pre = provided_view(out@);
                out.push(ProvidedResource { resource: sv[j].clone(), method_count: n });
                assert(provided_view(out@) =~= pre.push((sv@[j as int]@, n)));
                assert(sv@.subrange(0, j + 1) =~= sv@.subrange(0, j as int).push(sv@[j as int]));
                j += 1;
            }
            assert(sv@.subrange(0, j as int) =~= sv@);
        },
        None => {
            assert(provided_view(out@) =~= Seq::<(Seq<char>, usize)>::empty());
        },
    }
    out
}

/// Names of a list of tasks.
pub open spec fn names_of(v: Seq<TaskConfig>) -> Seq<Seq<char>> {
    v.map_values(|d: TaskConfig| d.name@)
}

/// The uses of a crate depending on `deps` (see [`uses_for`]).
fn uses_list(deps: &Vec<TaskConfig>, ipc: Option<&IpcMetadataBundle>) -> (r: Vec<UsedResource>)
    ensures
        used_view(r@) == uses_for(names_of(deps@), match ipc {
            Some(b) => Some(*b),
            None => None,
        }),
{
    let ghost ipcv = match ipc {
        Some(b) => Some(*b),
        None => None,
    };
    let mut out: Vec<UsedResource> = Vec::new();
    let mut j: usize = 0;
    assert(names_of(deps@).subrange(0, 0) =~= Seq::<Seq<char>>::empty());
    while j < deps.len()
        invariant
            j <= deps@.len(),
            ipcv == (match ipc {
                Some(b) => Some(*b),
                None => None,
            }),
            used_view(out@) == uses_for(names_of(deps@).subrange(0, j as int), ipcv),
        decreases deps.len() - j,
    {
        let d = &deps[j].name;
        let ghost before = used_view(out@);
        let ghost sub = names_of(deps@).subrange(0, j + 1);
        assert(sub.drop_last() =~= names_of(deps@).subrange(0, j as int));
        assert(sub.last() == d@);
        let found = match ipc {
            Some(b) => serves_lookup(&b.servers, d),
            None => None,
        };
        match found {
            Some(sv) => {
                let mut k: usize = 0;
                while k < sv.len()
                    invariant
                        k <= sv@.len(),
                        used_view(out@) =~= before + sv@.subrange(0, k as int).map_values(|r: String| (d@, r@)),
                    decreases sv.len() - k,
                {
                    let ghost pre = used_view(out@);
                    out.push(UsedResource { server_task: d.clone(), resource: sv[k].clone() });
                    assert(used_view(out@) =~= pre.push((d@, sv@[k as int]@)));
                    assert(sv@.subrange(0, k + 1) =~= sv@.subrange(0, k as int).push(sv@[k as int]));
                    k += 1;
                }
                assert(sv@.subrange(0, k as int) =~= sv@);
            },
            None => {
                out.push(UsedResource { server_task: d.clone(), resource: String::new() });
                assert(used_view(out@) =~= before + seq![(d@, Seq::<char>::empty())]);
            },
        }
        assert(used_view(out@) =~= uses_for(sub, ipcv));
        j += 1;
    }
    assert(names_of(deps@).subrange(0, j as int) =~= names_of(deps@));
    out
}

/// A linked crate of a loaded archive with its provides and uses.
fn archived(
    name: &str,
    kind: CrateKind,
    priority: Option<u32>,
    supervisor: bool,
    deps: &Vec<TaskConfig>,
    ipc: Option<&IpcMetadataBundle>,
) -> (c: CrateProgress)
    ensures
        c@ == archived_crate(name@, kind, priority, supervisor, names_of(deps@), match ipc {
            Some(b) => Some(*b),
            None => None,
        }),
{
    let mut c = synthesise_linked_crate(name, kind, priority, supervisor);
    let owned = name.to_owned();
    match ipc {
        Some(b) => {
            c.provides = provides_list(&owned, b);
        },
        None => {},
    }
    c.uses = uses_list(deps, ipc);
    c
}

/// The crate kind a task is shown as.
fn kind_of_task(name: &str) -> (k: CrateKind)
    ensures
        k == task_kind(name@),
{
    if crate::text::strip_prefix_str(name, "sysmodule_").is_some() {
        CrateKind::Sysmodule
    } else {
        CrateKind::Task
    }
}

// ── Named values ─────────────────────────────────────────────────────

/// Index of the first entry keyed `k`, or the length when there is none.
pub open spec fn key_index(m: Seq<(Seq<char>, u64)>, k: Seq<char>) -> int
    decreases m.len(),
{
    if m.len() == 0 {
        0
    } else if m[0].0 == k {
        0
    } else {
        1 + key_index(m.drop_first(), k)
    }
}

/// `m` with the value under `k` set to `v`: replaced in place when the key
/// is present, appended otherwise.
pub open spec fn upsert(m: Seq<(Seq<char>, u64)>, k: Seq<char>, v: u64) -> Seq<(Seq<char>, u64)> {
    let i = key_index(m, k);
    if i < m.len() {
        m.update(i, (k, v))
    } else {
        m.push((k, v))
    }
}

/// `key_index` is the first match, or the length when there is none.
pub proof fn lemma_key_index(m: Seq<(Seq<char>, u64)>, k: Seq<char>)
    ensures
        0 <= key_index(m, k) <= m.len(),
        key_index(m, k) < m.len() ==> m[key_index(m, k)].0 == k,
        forall|j: int| 0 <= j < key_index(m, k) ==> (#[trigger] m[j]).0 != k,
    decreases m.len(),
{
    if m.len() > 0 && m[0].0 != k {
        lemma_key_index(m.drop_first(), k);
        assert forall|j: int| 0 <= j < key_index(m, k) implies (#[trigger] m[j]).0 != k by {
            if j > 0 {
                assert(m[j] == m.drop_first()[j - 1]);
            }
        }
    }
}

/// Set the value under `k`, keeping one entry per key.
pub fn upsert_named(v: &mut Vec<(String, u64)>, k: String, val: u64)
    ensures
        named_sizes(final(v)@) == upsert(named_sizes(old(v)@), k@, val),
{
    proof {
        lemma_key_index(named_sizes(v@), k@);
    }
    let ghost m = named_sizes(v@);
    let mut i: usize = 0;
    while i < v.len()
        invariant
            m == named_sizes(v@),
            i <= v@.len(),
            i <= key_index(m, k@),
            0 <= key_index(m, k@) <= m.len(),
            key_index(m, k@) < m.len() ==> m[key_index(m, k@)].0 == k@,
            forall|j: int| 0 <= j < key_index(m, k@) ==> (#[trigger] m[j]).0 != k@,
        ensures
            i <= key_index(m, k@),
            i < v@.len() ==> m[i as int].0 == k@,
            i <= v@.len(),
        decreases v.len() - i,
    {
        if v[i].0 == k {
            assert(m[i as int].0 == v@[i as int].0@);
            break;
        }
        i += 1;
    }
    if i < v.len() {
        v.set(i, (k, val));
    } else {
        v.push((k, val));
    }
    assert(named_sizes(v@) =~= upsert(m, k@, val));
}

/// The place capacities of a configuration, one entry per place name (a
/// later entry for the same name replaces the value).
pub open spec fn capacities(places: Seq<(String, u64)>) -> Seq<(Seq<char>, u64)>
    decreases places.len(),
{
    if places.len() == 0 {
        Seq::empty()
    } else {
        upsert(capacities(places.drop_last()), places.last().0@, places.last().1)
    }
}

/// A memory device as plain values: name, size, mappings.
pub open spec fn memory_view(d: MemoryDevice) -> (Seq<char>, u64, Seq<(u64, u64)>) {
    (d.name@, d.size, d.mappings@)
}

/// The memory devices a configuration describes, in order.
pub open spec fn config_memories(cfg: FirmwareConfig) -> Seq<(Seq<char>, u64, Seq<(u64, u64)>)> {
    cfg.memory@.map_values(|p: (String, MemoryConfig)| (p.0@, p.1.size, p.1.mappings@))
}

/// A copy of a list of mappings.
fn copy_mappings(m: &Vec<(u64, u64)>) -> (r: Vec<(u64, u64)>)
    ensures
        r@ == m@,
{
    let mut out: Vec<(u64, u64)> = Vec::new();
    let mut i: usize = 0;
    while i < m.len()
        invariant
            i <= m@.len(),
            out@ =~= m@.subrange(0, i as int),
        decreases m.len() - i,
    {
        out.push(m[i]);
        i += 1;
    }
    out
}

/// A copy of an allocation.
fn copy_allocation(a: &MemoryAllocation) -> (r: MemoryAllocation)
    ensures
        r == *a,
{
    MemoryAllocation {
        place: a.place.clone(),
        owner: a.owner.clone(),
        region: a.region.clone(),
        base: a.base,
        size: a.size,
        requested_place: a.requested_place.clone(),
    }
}

/// The start and finish times of an archived build seen at `now_ms`: the
/// recorded duration back from now (from 0 when it is longer than the
/// clock has run), finished now.
pub open spec fn archived_times(m: FirmwareMetadata, now_ms: u64) -> (u64, Option<u64>) {
    let d = match m.build {
        Some(b) => b.build_duration_ms,
        None => None,
    };
    match d {
        Some(ms) => (if ms <= now_ms { (now_ms - ms) as u64 } else { 0 }, Some(now_ms)),
        None => (now_ms, Some(now_ms)),
    }
}

/// The number of resource summaries of an archive: one per resource of its
/// IPC bundle (the list a live build gets from the same bundle), none
/// without a bundle.
pub open spec fn archived_resources_len(m: FirmwareMetadata) -> int {
    match m.ipc {
        Some(b) => b.resources@.len() as int,
        None => 0,
    }
}

/// `h` describes archive `fw` (file of `archive_size` bytes) as seen at
/// `now_ms`; its id aside.
pub open spec fn is_snapshot(h: BuildHandle, fw: FirmwareHandle, archive_size: u64, now_ms: u64) -> bool {
    &&& h.config.config@ == (match fw.metadata.build {
        Some(b) => b.name@,
        None => fw.display_text(),
    })
    &&& h.config.board@ == (match fw.metadata.build {
        Some(b) => b.board@,
        None => seq!['?'],
    })
    &&& h.config.layout@ == (match fw.metadata.build {
        Some(b) => b.layout@,
        None => seq!['?'],
    })
    &&& h.status matches BuildStatus::Succeeded { tfw_path, firmware_id } && firmware_id == Some(fw.id)
        && tfw_path@ == (match fw.path {
        Some(p) => p@,
        None => Seq::empty(),
    })
    &&& opt_text(h.uuid) == (match fw.metadata.build {
        Some(b) => Some(b.build_id@),
        None => None,
    })
    &&& h.phase == Some(PipelinePhase::Done)
    &&& h.crates@.len() == archived_crates(fw.metadata).len()
    &&& forall|i: int| 0 <= i < h.crates@.len() ==> (#[trigger] h.crates@[i])@ == archived_crates(fw.metadata)[i]
    &&& h.allocations@ == (match fw.metadata.build {
        Some(b) => b.allocations@,
        None => Seq::empty(),
    })
    &&& named_sizes(h.place_capacities@) == (match fw.metadata.config {
        Some(c) => capacities(c.places@),
        None => Seq::empty(),
    })
    &&& h.memories@.map_values(|d: MemoryDevice| memory_view(d)) == (match fw.metadata.config {
        Some(c) => config_memories(c),
        None => Seq::empty(),
    })
    &&& h.resources@.len() == archived_resources_len(fw.metadata)
    &&& forall|i: int| 0 <= i < h.resources@.len() ==> (#[trigger] h.resources@[i]).view() == summary_of(fw.metadata.ipc.unwrap(), i)
    &&& h.image == (match fw.path {
        Some(p) => ImageProgress::Archived { size: archive_size, path: p },
        None => ImageProgress::NoImage,
    })
    &&& h.diagnostics@.len() == 0
    &&& h.log@.len() == 0
    &&& (h.started_at_ms, h.finished_at_ms) == archived_times(fw.metadata, now_ms)
}


/// The elapsed time of a build never goes back as the clock moves on, and
/// once the build has finished it no longer moves at all.
pub proof fn law_elapsed_never_goes_back(h: BuildHandle, t1: u64, t2: u64)
    requires
        t1 <= t2,
    ensures
        h.elapsed_at(t1) <= h.elapsed_at(t2),
        h.finished_at_ms is Some ==> h.elapsed_at(t1) == h.elapsed_at(t2),
{
}

impl BuildHandle {
    /// A `BuildHandle` describing a finished firmware archive, built from its
    /// metadata. `archive_size` is the size of the archive file and `now_ms`
    /// the current time; the id is `BuildId(0)`, for the caller
    /// to replace.
    #[verifier::spinoff_prover]
    #[verifier::rlimit(40)]
    pub fn snapshot_from_firmware(fw: &FirmwareHandle, archive_size: u64, now_ms: u64) -> (h: BuildHandle)
        ensures
            h.id == BuildId(0),
            is_snapshot(h, *fw, archive_size, now_ms),
    {
        let (started_at_ms, finished_at_ms) = match &fw.metadata.build {
            Some(b) => match b.build_duration_ms {
                Some(ms) => (now_ms.saturating_sub(ms), Some(now_ms)),
                None => (now_ms, Some(now_ms)),
            },
            None => (now_ms, Some(now_ms)),
        };
        let mut crates: Vec<CrateProgress> = Vec::new();
        let mut place_capacities: Vec<(String, u64)> = Vec::new();
        let mut memories: Vec<MemoryDevice> = Vec::new();
        let mut allocations: Vec<MemoryAllocation> = Vec::new();
        let mut resources: Vec<ResourceSummary> = Vec::new();
        let (build_name, board, layout_name) = match &fw.metadata.build {
            Some(b) => (b.name.clone(), b.board.clone(), b.layout.clone()),
            None => (fw.display_name(), "?".to_owned(), "?".to_owned()),
        };
        proof {
            reveal_strlit("?");
            assert("?"@ =~= seq!['?']);
        }
        let ipc: Option<&IpcMetadataBundle> = match &fw.metadata.ipc {
            Some(b) => Some(b),
            None => None,
        };
        let ghost ipcv = fw.metadata.ipc;
        assert(ipcv == (match ipc {
            Some(b) => Some(*b),
            None => None,
        }));
        // The resources card, the same list a live build derives from the
        // same bundle.
        match ipc {
            Some(b) => {
                resources = ResourceSummary::list_from_bundle(b);
            },
            None => {},
        }
        match &fw.metadata.config {
            Some(config) => {
                let none: Vec<TaskConfig> = Vec::new();
                assert(names_of(none@) =~= Seq::<Seq<char>>::empty());
                crates.push(archived(config.kernel.as_str(), CrateKind::Kernel, Some(0), false, &none, ipc));
                match &config.bootloader {
                    Some(bl) => {
                        crates.push(archived(bl.as_str(), CrateKind::Bootloader, Some(0), false, &none, ipc));
                    },
                    None => {},
                }
                let ghost head = crates@.map_values(|c: CrateProgress| c@);
                // Flatten the task tree, each task once.
                let mut tasks: Vec<&TaskConfig> = Vec::new();
                let mut seen: Vec<String> = Vec::new();
                let mut e: usize = 0;
                assert(texts(seen@) =~= Seq::<Seq<char>>::empty());
                assert(derefs(tasks@) =~= Seq::<TaskConfig>::empty());
                while e < config.entries.len()
                    invariant
                        e <= config.entries@.len(),
                        derefs(tasks@) + walk_list(config.entries@, e as int, texts(seen@)).0 == walk_list(
                            config.entries@,
                            0,
                            Seq::empty(),
                        ).0,
                    decreases config.entries.len() - e,
                {
                    let ghost before = derefs(tasks@);
                    let ghost s0 = texts(seen@);
                    walk_tasks(&config.entries[e], &mut tasks, &mut seen);
                    assert(derefs(tasks@) == before + walk(config.entries@[e as int], s0).0);
                    e += 1;
                }
                let ghost flat = walk_list(config.entries@, 0, Seq::empty()).0;
                assert(derefs(tasks@) =~= flat);
                let mut t: usize = 0;
                while t < tasks.len()
                    invariant
                        t <= tasks@.len(),
                        derefs(tasks@) == flat,
                        ipcv == (match ipc {
                            Some(b) => Some(*b),
                            None => None,
                        }),
                        crates@.map_values(|c: CrateProgress| c@) == head + flat.subrange(0, t as int).map_values(
                            |x: TaskConfig| task_crate(x, ipcv),
                        ),
                    decreases tasks.len() - t,
                {
                    let task = tasks[t];
                    assert(*task == flat[t as int]);
                    let kind = kind_of_task(task.name.as_str());
                    let c = archived(task.name.as_str(), kind, Some(task.priority), task.supervisor, &task.depends_on, ipc);
                    let ghost pre = crates@.map_values(|c: CrateProgress| c@);
                    crates.push(c);
                    assert(crates@.map_values(|c: CrateProgress| c@) =~= pre.push(c@));
                    assert(flat.subrange(0, t + 1) =~= flat.subrange(0, t as int).push(flat[t as int]));
                    assert(flat.subrange(0, t + 1).map_values(|x: TaskConfig| task_crate(x, ipcv)) =~= flat.subrange(
                        0,
                        t as int,
                    ).map_values(|x: TaskConfig| task_crate(x, ipcv)).push(task_crate(flat[t as int], ipcv)));
                    t += 1;
                }
                assert(flat.subrange(0, t as int) =~= flat);
                assert(crates@.map_values(|c: CrateProgress| c@) =~= archived_crates(fw.metadata));
                // Capacities of the resolved places.
                let mut p: usize = 0;
                while p < config.places.len()
                    invariant
                        p <= config.places@.len(),
                        named_sizes(place_capacities@) == capacities(config.places@.subrange(0, p as int)),
                    decreases config.places.len() - p,
                {
                    let ghost sub = config.places@.subrange(0, p + 1);
                    assert(sub.drop_last() =~= config.places@.subrange(0, p as int));
                    upsert_named(&mut place_capacities, config.places[p].0.clone(), config.places[p].1);
                    p += 1;
                }
                assert(config.places@.subrange(0, p as int) =~= config.places@);
                // Physical memory banks.
                let mut m: usize = 0;
                while m < config.memory.len()
                    invariant
                        m <= config.memory@.len(),
                        memories@.map_values(|d: MemoryDevice| memory_view(d)) =~= config_memories(*config).subrange(
                            0,
                            m as int,
                        ),
                    decreases config.memory.len() - m,
                {
                    let (name, mem) = &config.memory[m];
                    let d = MemoryDevice { name: name.clone(), size: mem.size, mappings: copy_mappings(&mem.mappings) };
                    let ghost pre = memories@.map_values(|d: MemoryDevice| memory_view(d));
                    memories.push(d);
                    assert(memories@.map_values(|d: MemoryDevice| memory_view(d)) =~= pre.push(memory_view(d)));
                    assert(config_memories(*config)[m as int] == memory_view(d));
                    m += 1;
                }
                assert(config_memories(*config).subrange(0, m as int) =~= config_memories(*config));
            },
            None => {
                assert(crates@.map_values(|c: CrateProgress| c@) =~= archived_crates(fw.metadata));
                assert(named_sizes(place_capacities@) =~= Seq::<(Seq<char>, u64)>::empty());
                assert(memories@.map_values(|d: MemoryDevice| memory_view(d)) =~= Seq::<(Seq<char>, u64, Seq<(u64, u64)>)>::empty());
            },
        }
        match &fw.metadata.build {
            Some(b) => {
                let mut k: usize = 0;
                while k < b.allocations.len()
                    invariant
                        k <= b.allocations@.len(),
                        allocations@ =~= b.allocations@.subrange(0, k as int),
                    decreases b.allocations.len() - k,
                {
                    allocations.push(copy_allocation(&b.allocations[k]));
                    k += 1;
                }
                assert(allocations@ =~= b.allocations@);
            },
            None => {
                assert(allocations@ =~= Seq::<MemoryAllocation>::empty());
            },
        }
        let image = match &fw.path {
            Some(path) => ImageProgress::Archived { size: archive_size, path: path.clone() },
            None => ImageProgress::NoImage,
        };
        let uuid = match &fw.metadata.build {
            Some(b) => Some(b.build_id.clone()),
            None => None,
        };
        let tfw_path = match &fw.path {
            Some(path) => path.clone(),
            None => String::new(),
        };
        let h = BuildHandle {
            id: BuildId(0),
            config: BuildConfig { config: build_name, board, layout: layout_name },
            status: BuildStatus::Succeeded { tfw_path, firmware_id: Some(fw.id) },
            uuid,
            phase: Some(PipelinePhase::Done),
            crates,
            allocations,
            place_capacities,
            memories,
            resources,
            image,
            diagnostics: Vec::new(),
            log: Vec::new(),
            started_at_ms,
            finished_at_ms,
        };
        assert forall|i: int| 0 <= i < h.crates@.len() implies (#[trigger] h.crates@[i])@ == archived_crates(fw.metadata)[i] by {
            assert(h.crates@.map_values(|c: CrateProgress| c@)[i] == h.crates@[i]@);
        }
        assert(h.allocations@ == (match fw.metadata.build {
            Some(b) => b.allocations@,
            None => Seq::empty(),
        }));
        h
    }
}

} // verus!
