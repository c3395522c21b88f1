//! The processing run: where output goes, the order of the phases, and the
//! reactive rendering passes.
//!
//! A run loads the project, cleans the output directory, refuses
//! dependency cycles, then renders in passes while some template is ready,
//! reports what was never rendered, validates analysis outputs and flushes
//! the output. The driver performs each phase and reports what it saw;
//! `next_step` decides what comes next.

use vstd::prelude::*;
use crate::config::{output_path, spec_output_path, OutputType, VVConfig};
use crate::schedule::{is_ready, mark_rendered, RenderState, TemplateState};
use crate::text::{chars_of, string_from_chars, string_views};
use crate::value::build_output_path;

verus! {

// =============================================================================
// Output plan
// =============================================================================

/// Where a run writes, and what it copies first.
#[derive(Debug, Clone, PartialEq)]
pub enum OutputPlan {
    /// Write into the output directory beside the input.
    InPlace { output_dir: String },
    /// Copy the project to `dest`, then write into its output directory.
    CopyToDirectory { dest: String, output_dir: String },
    /// Copy the project into a new archive, then write its outputs there.
    CopyToArchive { archive: String },
}

/// Decides where a run writes: in place into the configured output
/// directory; into a copy of the project in a directory; or into a new
/// archive holding a copy of the project.
pub fn plan_output(config: &VVConfig) -> (res: OutputPlan)
    ensures
        match config.output_type {
            OutputType::InPlace => res matches OutputPlan::InPlace { output_dir } && output_dir@ == spec_output_path(*config),
            OutputType::Directory(d) => res matches OutputPlan::CopyToDirectory { dest, output_dir }
                && dest@ == d@ && output_dir@ == spec_output_path(*config),
            OutputType::Archive(a) => res matches OutputPlan::CopyToArchive { archive } && archive@ == a@,
        },
{
    match &config.output_type {
        OutputType::InPlace => OutputPlan::InPlace { output_dir: output_path(config) },
        OutputType::Directory(d) => OutputPlan::CopyToDirectory {
            dest: string_from_chars(chars_of(d.as_str()).as_slice()),
            output_dir: output_path(config),
        },
        OutputType::Archive(a) => OutputPlan::CopyToArchive { archive: string_from_chars(chars_of(a.as_str()).as_slice()) },
    }
}

// =============================================================================
// Phases
// =============================================================================

/// The phases of a run.
#[derive(Debug, Clone, Copy, PartialEq, Eq)]
pub enum RunPhase {
    /// Load the project and discover analyses.
    Load,
    /// Empty the output directory.
    Clean,
    /// Look for dependency cycles between templates.
    CheckCycles,
    /// Compute every template's unmet requirements.
    Prepare,
    /// Render ready templates, load new output data, run analyses.
    React,
    /// Report templates that were never rendered.
    Report,
    /// Check that analyses produced their outputs.
    Validate,
    /// Finish writing the output.
    Flush,
    /// The run is over.
    Done,
}

/// The state of a run: its current phase and whether an error occurred.
#[derive(Debug, Clone, Copy, PartialEq, Eq)]
pub struct RunState {
    pub phase: RunPhase,
    pub has_errors: bool,
}

/// What the driver saw after performing a phase.
#[derive(Debug, Clone, Copy, PartialEq, Eq)]
pub struct PhaseOutcome {
    /// The processing status records an error.
    pub errors: bool,
    /// A dependency cycle was found (checked in `CheckCycles`).
    pub cycles: bool,
    /// Some template is ready to render (checked in `React`).
    pub work_remaining: bool,
}

/// The step after performing `s.phase` and seeing `o`.
pub open spec fn spec_next_step(s: RunState, o: PhaseOutcome) -> RunState {
    match s.phase {
        RunPhase::Load => RunState {
            phase: if o.errors { RunPhase::Flush } else { RunPhase::Clean },
            has_errors: s.has_errors || o.errors,
        },
        RunPhase::Clean => RunState { phase: RunPhase::CheckCycles, has_errors: s.has_errors },
        RunPhase::CheckCycles => RunState {
            phase: if o.cycles { RunPhase::Flush } else { RunPhase::Prepare },
            has_errors: s.has_errors || o.cycles,
        },
        RunPhase::Prepare => RunState { phase: RunPhase::React, has_errors: s.has_errors },
        RunPhase::React => RunState {
            phase: if o.errors || !o.work_remaining { RunPhase::Report } else { RunPhase::React },
            has_errors: s.has_errors || o.errors,
        },
        RunPhase::Report => RunState { phase: RunPhase::Validate, has_errors: s.has_errors },
        RunPhase::Validate => RunState { phase: RunPhase::Flush, has_errors: s.has_errors || o.errors },
        RunPhase::Flush => RunState { phase: RunPhase::Done, has_errors: s.has_errors },
        RunPhase::Done => s,
    }
}

/// The state a run starts in.
pub fn start_run() -> (res: RunState)
    ensures
        res.phase == RunPhase::Load,
        !res.has_errors,
{
    RunState { phase: RunPhase::Load, has_errors: false }
}

/// Decides the next phase of a run from the phase just performed and what
/// the driver saw: an error while loading, or a dependency cycle, ends the
/// run after flushing; the reactive phase repeats while no error occurred
/// and some template is ready; validation leads to the flush.
pub fn next_step(s: RunState, o: PhaseOutcome) -> (res: RunState)
    ensures
        res == spec_next_step(s, o),
{
    match s.phase {
        RunPhase::Load => RunState {
            phase: if o.errors { RunPhase::Flush } else { RunPhase::Clean },
            has_errors: s.has_errors || o.errors,
        },
        RunPhase::Clean => RunState { phase: RunPhase::CheckCycles, has_errors: s.has_errors },
        RunPhase::CheckCycles => RunState {
            phase: if o.cycles { RunPhase::Flush } else { RunPhase::Prepare },
            has_errors: s.has_errors || o.cycles,
        },
        RunPhase::Prepare => RunState { phase: RunPhase::React, has_errors: s.has_errors },
        RunPhase::React => RunState {
            phase: if o.errors || !o.work_remaining { RunPhase::Report } else { RunPhase::React },
            has_errors: s.has_errors || o.errors,
        },
        RunPhase::Report => RunState { phase: RunPhase::Validate, has_errors: s.has_errors },
        RunPhase::Validate => RunState { phase: RunPhase::Flush, has_errors: s.has_errors || o.errors },
        RunPhase::Flush => RunState { phase: RunPhase::Done, has_errors: s.has_errors },
        RunPhase::Done => s,
    }
}

/// A run ends only through the flush: the step into `Done` is taken from
/// `Flush` (or the run was over already).
pub proof fn lemma_done_only_after_flush(s: RunState, o: PhaseOutcome)
    ensures
        spec_next_step(s, o).phase == RunPhase::Done ==> s.phase == RunPhase::Flush || s.phase == RunPhase::Done,
{
}

/// Once an error occurred, the run keeps it: no step clears it.
pub proof fn lemma_errors_stick(s: RunState, o: PhaseOutcome)
    requires
        s.has_errors,
    ensures
        spec_next_step(s, o).has_errors,
{
}

/// An error while loading, or a dependency cycle, leads straight to the
/// flush with the run marked failed: nothing is rendered.
pub proof fn lemma_failed_setup_skips_rendering(s: RunState, o: PhaseOutcome)
    requires
        (s.phase == RunPhase::Load && o.errors) || (s.phase == RunPhase::CheckCycles && o.cycles),
    ensures
        spec_next_step(s, o).phase == RunPhase::Flush,
        spec_next_step(s, o).has_errors,
{
}

/// The reactive phase is entered again only when no error occurred and some
/// template is ready.
pub proof fn lemma_react_repeats_only_with_work(s: RunState, o: PhaseOutcome)
    requires
        s.phase == RunPhase::React,
        spec_next_step(s, o).phase == RunPhase::React,
    ensures
        !o.errors,
        o.work_remaining,
{
}

// =============================================================================
// Render passes
// =============================================================================

/// One template to render in a pass: its index in the render state, its
/// name, and the output file it renders to.
#[derive(Debug, Clone)]
pub struct RenderJob {
    pub index: usize,
    pub template_name: String,
    pub output_path: String,
}

/// The render jobs of a pass: one per ready template, in order, each with
/// the output path its name gives below `output_dir`.
pub fn render_jobs(state: &RenderState, output_dir: &str) -> (res: Vec<RenderJob>)
    ensures
        forall|k: int| 0 <= k < res@.len() ==> {
            let j = #[trigger] res@[k];
            &&& j.index < state.templates@.len()
            &&& is_ready(state.templates@[j.index as int])
            &&& j.template_name@ == state.templates@[j.index as int].template_name@
            &&& j.output_path@ == crate::value::spec_output_path(output_dir@, j.template_name@)
        },
        forall|i: int| 0 <= i < state.templates@.len() && is_ready(#[trigger] state.templates@[i]) ==>
            exists|k: int| 0 <= k < res@.len() && res@[k].index == i,
        forall|k: int, m: int| 0 <= k < m < res@.len() ==> res@[k].index < res@[m].index,
{
    let ready = crate::schedule::ready_templates(state);
    let mut res: Vec<RenderJob> = Vec::new();
    let mut k: usize = 0;
    while k < ready.len()
        invariant
            k <= ready@.len(),
            res@.len() == k,
            forall|q: int| 0 <= q < ready@.len() ==> (#[trigger] ready@[q]) < state.templates@.len() && is_ready(state.templates@[ready@[q] as int]),
            forall|q: int| 0 <= q < k ==> (#[trigger] res@[q]).index == ready@[q],
            forall|q: int| 0 <= q < k ==> {
                let j = #[trigger] res@[q];
                &&& j.index < state.templates@.len()
                &&& is_ready(state.templates@[j.index as int])
                &&& j.template_name@ == state.templates@[j.index as int].template_name@
                &&& j.output_path@ == crate::value::spec_output_path(output_dir@, j.template_name@)
            },
        decreases ready.len() - k,
    {
        let idx = ready[k];
        let name = string_from_chars(chars_of(state.templates[idx].template_name.as_str()).as_slice());
        let out = build_output_path(output_dir, name.as_str());
        res.push(RenderJob { index: idx, template_name: name, output_path: out });
        k = k + 1;
    }
    let n = state.templates.len();
    assert forall|i: int| 0 <= i < state.templates@.len() && is_ready(#[trigger] state.templates@[i]) implies
        exists|k: int| 0 <= k < res@.len() && res@[k].index == i by {
        assert(i < n);
        assert(ready@.contains(i as usize));
        let q = choose|q: int| 0 <= q < ready@.len() && ready@[q] == i as usize;
        assert(0 <= q < res@.len());
        assert(res@[q].index == ready@[q]);
        assert((i as usize) as int == i);
    }
    res
}

/// Records the outcome of one render job: a written output marks the
/// template rendered; a failed render or write marks the run failed and
/// leaves the template as it was.
pub fn finish_render_job(state: &mut RenderState, status: &mut crate::events::ProcessingStatus, index: usize, written: bool)
    requires
        index < old(state).templates@.len(),
    ensures
        final(state).templates@.len() == old(state).templates@.len(),
        written ==> final(state).templates@[index as int].rendered && final(status).has_errors == old(status).has_errors,
        written ==> final(state).templates@[index as int].entity == old(state).templates@[index as int].entity
            && final(state).templates@[index as int].template_name == old(state).templates@[index as int].template_name
            && final(state).templates@[index as int].requirements == old(state).templates@[index as int].requirements
            && final(state).templates@[index as int].needs == old(state).templates@[index as int].needs,
        !written ==> final(state).templates@ == old(state).templates@ && final(status).has_errors,
        forall|i: int| 0 <= i < final(state).templates@.len() && i != index ==> #[trigger] final(state).templates@[i] == old(state).templates@[i],
{
    if written {
        mark_rendered(state, index);
    } else {
        crate::events::mark_error(status);
    }
}

/// The number of templates not rendered yet.
pub open spec fn unrendered_count(ts: Seq<TemplateState>) -> nat
    decreases ts.len(),
{
    if ts.len() == 0 {
        0
    } else {
        unrendered_count(ts.drop_last()) + if ts.last().rendered { 0nat } else { 1nat }
    }
}

proof fn lemma_unrendered_update(ts: Seq<TemplateState>, i: int, t: TemplateState)
    requires
        0 <= i < ts.len(),
        !ts[i].rendered,
        t.rendered,
    ensures
        unrendered_count(ts.update(i, t)) + 1 == unrendered_count(ts),
    decreases ts.len(),
{
    let u = ts.update(i, t);
    if i == ts.len() - 1 {
        assert(u.drop_last() == ts.drop_last());
    } else {
        lemma_unrendered_update(ts.drop_last(), i, t);
        assert(u.drop_last() == ts.drop_last().update(i, t));
        assert(u.last() == ts.last());
    }
}

/// Rendering a ready template leaves one template fewer to render; as a
/// pass renders every ready template or fails, the reactive phase repeats at
/// most once per template.
pub proof fn lemma_render_progress(before: Seq<TemplateState>, after: Seq<TemplateState>, index: int)
    requires
        0 <= index < before.len(),
        is_ready(before[index]),
        after.len() == before.len(),
        after[index].rendered,
        forall|i: int| 0 <= i < after.len() && i != index ==> #[trigger] after[i] == before[i],
    ensures
        unrendered_count(after) + 1 == unrendered_count(before),
{
    lemma_unrendered_update(before, index, after[index]);
    assert(after == before.update(index, after[index]));
}

// =============================================================================
// Unmet needs
// =============================================================================

/// The templates never rendered that still have unmet requirements: name
/// and requirements, in order.
pub open spec fn spec_unmet_report(ts: Seq<TemplateState>) -> Seq<(Seq<char>, Seq<Seq<char>>)>
    decreases ts.len(),
{
    if ts.len() == 0 {
        Seq::empty()
    } else {
        let r = spec_unmet_report(ts.drop_last());
        let t = ts.last();
        match t.needs {
            Some(v) => if !t.rendered && v@.len() > 0 {
                r.push((t.template_name@, string_views(v@)))
            } else {
                r
            },
            None => r,
        }
    }
}

/// The view of a report.
pub open spec fn report_view(r: Seq<(String, Vec<String>)>) -> Seq<(Seq<char>, Seq<Seq<char>>)> {
    r.map_values(|e: (String, Vec<String>)| (e.0@, string_views(e.1@)))
}

fn copy_strings(v: &Vec<String>) -> (res: Vec<String>)
    ensures
        string_views(res@) == string_views(v@),
{
    let mut res: Vec<String> = Vec::new();
    let mut i: usize = 0;
    while i < v.len()
        invariant
            i <= v.len(),
            string_views(res@) == string_views(v@).take(i as int),
        decreases v.len() - i,
    {
        let s = string_from_chars(chars_of(v[i].as_str()).as_slice());
        let ghost before = string_views(res@);
        res.push(s);
        assert(string_views(res@) == before.push(s@));
        assert(string_views(v@).take(i + 1) == string_views(v@).take(i as int).push(string_views(v@)[i as int]));
        i = i + 1;
    }
    assert(string_views(v@).take(v.len() as int) == string_views(v@));
    res
}

/// The templates to warn about at the end of a run: those never rendered
/// whose requirements are not all met, with what they still need.
pub fn unmet_report(state: &RenderState) -> (res: Vec<(String, Vec<String>)>)
    ensures
        report_view(res@) == spec_unmet_report(state.templates@),
{
    let mut res: Vec<(String, Vec<String>)> = Vec::new();
    let mut i: usize = 0;
    while i < state.templates.len()
        invariant
            i <= state.templates@.len(),
            report_view(res@) == spec_unmet_report(state.templates@.take(i as int)),
        decreases state.templates.len() - i,
    {
        let t = &state.templates[i];
        let ghost ts = state.templates@.take(i + 1);
        assert(ts.drop_last() == state.templates@.take(i as int));
        assert(ts.last() == state.templates@[i as int]);
        match &t.needs {
            Some(v) => {
                if !t.rendered && v.len() > 0 {
                    let ghost before = report_view(res@);
                    let name = string_from_chars(chars_of(t.template_name.as_str()).as_slice());
                    let needs = copy_strings(v);
                    res.push((name, needs));
                    assert(report_view(res@) == before.push((t.template_name@, string_views(v@))));
                }
            },
            None => {},
        }
        i = i + 1;
    }
    assert(state.templates@.take(state.templates@.len() as int) == state.templates@);
    res
}

} // verus!
