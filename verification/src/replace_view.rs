//! The "Replace in files" view as a state machine: it scans for matches,
//! waits for the user to confirm, replaces, and reports the counts.  The
//! background search and replace and the drawing stay with the caller,
//! which feeds their outcomes in as events.

use vstd::prelude::*;

verus! {

/// Where the replace view stands.
#[derive(PartialEq, Eq, Structural, Debug, Clone, Copy)]
pub enum ReplacePhase {
    Scanning,
    Confirming,
    Replacing,
    Done,
}

/// The state the view shows.
#[derive(PartialEq, Eq, Structural, Debug, Clone, Copy)]
pub struct ReplaceViewState {
    pub phase: ReplacePhase,
    /// Files being searched.
    pub file_count: u64,
    /// Matches found so far.
    pub match_count: u64,
    /// Occurrences replaced and files written, as the replace reported.
    pub replaced_count: i64,
    pub replaced_files: i64,
    /// Whether the status line was just lit up (it fades while drawn).
    pub flash: bool,
}

/// What happens to the view.
#[derive(PartialEq, Eq, Structural, Debug, Clone, Copy)]
pub enum ReplaceEvent {
    /// A scan starts over `files` files.
    BeginScan { files: u64 },
    /// The scan delivered this many more matches.
    ScanResults { count: u64 },
    /// The scan failed.
    ScanError,
    /// The scan finished.
    ScanDone,
    /// The user confirmed: replacing starts.
    ApplyReplace,
    /// The replace failed.
    ReplaceError,
    /// The replace finished, with its counts.
    ReplaceDone { replaced: i64, written: i64 },
}

/// The view when it opens: scanning, nothing found or replaced yet.
pub open spec fn initial_state_spec(files: u64) -> ReplaceViewState {
    ReplaceViewState {
        phase: ReplacePhase::Scanning,
        file_count: files,
        match_count: 0,
        replaced_count: 0,
        replaced_files: 0,
        flash: false,
    }
}

/// The state after `event`.  Matches are counted as they arrive (never
/// beyond `u64::MAX`); a finished scan or replace lights the status line;
/// the counts of a finished replace are copied into the state.
pub open spec fn replace_view_spec(s: ReplaceViewState, event: ReplaceEvent) -> ReplaceViewState {
    match event {
        ReplaceEvent::BeginScan { files } => ReplaceViewState {
            phase: ReplacePhase::Scanning,
            file_count: files,
            match_count: 0,
            ..s
        },
        ReplaceEvent::ScanResults { count } => ReplaceViewState {
            match_count: if s.match_count + count > u64::MAX {
                u64::MAX
            } else {
                (s.match_count + count) as u64
            },
            ..s
        },
        ReplaceEvent::ScanError => ReplaceViewState { phase: ReplacePhase::Confirming, ..s },
        ReplaceEvent::ScanDone => ReplaceViewState { phase: ReplacePhase::Confirming, flash: true, ..s },
        ReplaceEvent::ApplyReplace => ReplaceViewState {
            phase: ReplacePhase::Replacing,
            replaced_count: 0,
            replaced_files: 0,
            ..s
        },
        ReplaceEvent::ReplaceError => ReplaceViewState { phase: ReplacePhase::Done, flash: true, ..s },
        ReplaceEvent::ReplaceDone { replaced, written } => ReplaceViewState {
            phase: ReplacePhase::Done,
            replaced_count: replaced,
            replaced_files: written,
            flash: true,
            ..s
        },
    }
}

/// The view when it opens on `files` files.
pub fn initial_replace_state(files: u64) -> (r: ReplaceViewState)
    ensures
        r == initial_state_spec(files),
{
    ReplaceViewState {
        phase: ReplacePhase::Scanning,
        file_count: files,
        match_count: 0,
        replaced_count: 0,
        replaced_files: 0,
        flash: false,
    }
}

/// One step of the replace view.
pub fn replace_view_step(state: ReplaceViewState, event: ReplaceEvent) -> (r: ReplaceViewState)
    ensures
        r == replace_view_spec(state, event),
{
    match event {
        ReplaceEvent::BeginScan { files } => ReplaceViewState {
            phase: ReplacePhase::Scanning,
            file_count: files,
            match_count: 0,
            ..state
        },
        ReplaceEvent::ScanResults { count } => ReplaceViewState {
            match_count: state.match_count.saturating_add(count),
            ..state
        },
        ReplaceEvent::ScanError => ReplaceViewState { phase: ReplacePhase::Confirming, ..state },
        ReplaceEvent::ScanDone => ReplaceViewState { phase: ReplacePhase::Confirming, flash: true, ..state },
        ReplaceEvent::ApplyReplace => ReplaceViewState {
            phase: ReplacePhase::Replacing,
            replaced_count: 0,
            replaced_files: 0,
            ..state
        },
        ReplaceEvent::ReplaceError => ReplaceViewState { phase: ReplacePhase::Done, flash: true, ..state },
        ReplaceEvent::ReplaceDone { replaced, written } => ReplaceViewState {
            phase: ReplacePhase::Done,
            replaced_count: replaced,
            replaced_files: written,
            flash: true,
            ..state
        },
    }
}

/// The view's phases follow the run of a replace: a scan started and
/// finished leads to confirming, and confirming then a finished replace
/// leads to done with the replace's counts, whatever came before.
pub proof fn replace_run_reaches_done(s: ReplaceViewState, files: u64, replaced: i64, written: i64)
    ensures
        ({
            let s1 = replace_view_spec(s, ReplaceEvent::BeginScan { files });
            let s2 = replace_view_spec(s1, ReplaceEvent::ScanDone);
            let s3 = replace_view_spec(s2, ReplaceEvent::ApplyReplace);
            let s4 = replace_view_spec(s3, ReplaceEvent::ReplaceDone { replaced, written });
            &&& s1.phase == ReplacePhase::Scanning && s1.match_count == 0
            &&& s2.phase == ReplacePhase::Confirming
            &&& s3.phase == ReplacePhase::Replacing && s3.replaced_count == 0 && s3.replaced_files == 0
            &&& s4.phase == ReplacePhase::Done && s4.replaced_count == replaced && s4.replaced_files
                == written && s4.match_count == s2.match_count
        }),
{
}

} // verus!
