//! The whole suite: every check, run on one model, and what they found.
//!
//! The checks do not depend on each other. Each one reads the model and
//! reports all that it finds, whatever the others find.

use vstd::prelude::*;
use crate::canvas::{
    CanvasModel,
    Diagnostic,
    RepeatedWrite,
    diagnostics,
    index_reflects,
    lemma_index_determined,
};
use crate::cardinality::{
    ArtistCountMismatch,
    PixelShortfall,
    check_all_artists_draw,
    check_enough_artists,
    shortfall_pick,
    shortfalls,
};
use crate::connectivity::{
    IslandFinding,
    IslandFindingView,
    check_no_islands,
    island_findings,
    island_pick,
};
use crate::geometry::{AdjacencyRule, CanvasPixel};
use crate::model::{Holding, holdings_wf};
use crate::listing::{lemma_pair_of_listed, lemma_position_is_listed, of_each};
use crate::overlap::{
    Overlap,
    OverlapView,
    check_no_overlapping,
    lemma_shared_is_intersection,
    overlap_of,
    overlap_pick,
    overlaps,
    shared_points,
};
use crate::pattern::{
    DuplicatePattern,
    check_no_repeating_patterns,
    duplicate_of,
    duplicate_pick,
    duplicates,
};
use crate::uniqueness::{ColorClash, check_colors_unique, color_clashes};
use crate::views::views;

verus! {

/// How much a finding weighs.
#[derive(Clone, Copy, Debug, PartialEq, Eq, Structural)]
pub enum Severity {
    /// The finding is reported and does not fail the run.
    Advisory,
    /// The finding fails the run.
    Fatal,
}

/// What the suite is run with.
#[derive(Clone, Copy, Debug, PartialEq, Eq, Structural)]
pub struct Config {
    /// The number of distinct artists that the log must hold.
    pub expected_artist_count: usize,
    /// The least number of pixels that each artist must have painted.
    pub minimum_pixels_per_artist: usize,
    /// Which coordinates count as neighbours in the connectivity check.
    pub adjacency_rule: AdjacencyRule,
    /// How much it weighs that an artist painted a coordinate twice.
    pub repeated_write_severity: Severity,
}

/// What the suite found. An empty list means that the check passed.
#[derive(Debug, PartialEq, Eq)]
pub struct Report {
    /// The number of artists, where it is not the expected one.
    pub artist_count: Option<ArtistCountMismatch>,
    /// The artists with too few pixels.
    pub shortfalls: Vec<PixelShortfall>,
    /// The events that reuse another artist's colour.
    pub color_clashes: Vec<ColorClash>,
    /// The pairs of artists that share coordinates.
    pub overlaps: Vec<Overlap>,
    /// The artists without pixels, and those with several islands.
    pub islands: Vec<IslandFinding>,
    /// The pairs of artists with the same shape.
    pub duplicate_patterns: Vec<DuplicatePattern>,
    /// The events in which an artist painted a coordinate again.
    pub repeated_writes: Vec<RepeatedWrite>,
}

/// What a [`Report`] says.
pub struct ReportView {
    pub artist_count: Option<ArtistCountMismatch>,
    pub shortfalls: Seq<PixelShortfall>,
    pub color_clashes: Seq<ColorClash>,
    pub overlaps: Seq<OverlapView>,
    pub islands: Seq<IslandFindingView>,
    pub duplicate_patterns: Seq<DuplicatePattern>,
    pub repeated_writes: Seq<RepeatedWrite>,
}

impl View for Report {
    type V = ReportView;

    /// The report, with every list as a sequence.
    open spec fn view(&self) -> ReportView {
        ReportView {
            artist_count: self.artist_count,
            shortfalls: self.shortfalls@,
            color_clashes: self.color_clashes@,
            overlaps: views(self.overlaps@),
            islands: views(self.islands@),
            duplicate_patterns: self.duplicate_patterns@,
            repeated_writes: self.repeated_writes@,
        }
    }
}

/// The repeated write that a diagnostic reports, if it reports one.
pub open spec fn repeated_write_pick(noticed: Seq<Diagnostic>) -> spec_fn(int) -> Option<
    RepeatedWrite,
> {
    |k: int|
        match noticed[k] {
            Diagnostic::RepeatedWrite(w) => Some(w),
            Diagnostic::ColorClash(_) => None,
        }
}

/// The repeated writes among the first `n` diagnostics, in order.
pub open spec fn repeated_writes(noticed: Seq<Diagnostic>, n: int) -> Seq<RepeatedWrite> {
    of_each(repeated_write_pick(noticed), n)
}

/// The finding of the artist count check.
pub open spec fn artist_count_finding(m: Seq<Holding>, expected: usize) -> Option<
    ArtistCountMismatch,
> {
    if m.len() == expected {
        None
    } else {
        Some(ArtistCountMismatch { expected, found: m.len() as usize })
    }
}

/// What the suite finds on a model with the events `events`, the index `m`
/// and the diagnostics `noticed`.
pub open spec fn findings(
    events: Seq<CanvasPixel>,
    m: Seq<Holding>,
    noticed: Seq<Diagnostic>,
    config: Config,
) -> ReportView {
    ReportView {
        artist_count: artist_count_finding(m, config.expected_artist_count),
        shortfalls: shortfalls(m, m.len() as int, config.minimum_pixels_per_artist),
        color_clashes: color_clashes(events, events.len() as int),
        overlaps: overlaps(m, m.len() as int),
        islands: island_findings(config.adjacency_rule, m, m.len() as int),
        duplicate_patterns: duplicates(m, m.len() as int),
        repeated_writes: repeated_writes(noticed, noticed.len() as int),
    }
}

/// Whether a report lets the run succeed: no check found anything, and
/// there is no repeated write unless repeated writes are advisory.
pub open spec fn clean(report: ReportView, config: Config) -> bool {
    &&& report.artist_count is None
    &&& report.shortfalls.len() == 0
    &&& report.color_clashes.len() == 0
    &&& report.overlaps.len() == 0
    &&& report.islands.len() == 0
    &&& report.duplicate_patterns.len() == 0
    &&& (config.repeated_write_severity == Severity::Fatal ==> report.repeated_writes.len() == 0)
}

/// The list that a check returned: empty where it passed.
fn found<T>(r: Result<(), Vec<T>>) -> (v: Vec<T>)
    ensures
        r is Ok ==> v@.len() == 0,
        r matches Err(e) ==> v == e,
{
    match r {
        Ok(_) => Vec::new(),
        Err(e) => e,
    }
}

/// The repeated writes among the diagnostics of a model.
fn collect_repeated_writes(noticed: &Vec<Diagnostic>) -> (v: Vec<RepeatedWrite>)
    ensures
        v@ == repeated_writes(noticed@, noticed@.len() as int),
{
    let mut v: Vec<RepeatedWrite> = Vec::new();
    let mut k: usize = 0;
    while k < noticed.len()
        invariant
            k <= noticed@.len(),
            v@ == repeated_writes(noticed@, k as int),
        decreases noticed@.len() - k,
    {
        match noticed[k] {
            Diagnostic::RepeatedWrite(w) => {
                v.push(w);
            },
            Diagnostic::ColorClash(_) => {},
        }
        k = k + 1;
    }
    v
}

/// Runs every check on the model and gathers what they find.
pub fn analyze(model: &CanvasModel, config: &Config) -> (report: Report)
    ensures
        report@ == findings(model.canvas@, model.occupancy@, model.diagnostics@, *config),
{
    let artist_count = match check_enough_artists(&model.occupancy, config.expected_artist_count) {
        Ok(_) => None,
        Err(e) => Some(e),
    };
    let few = found(check_all_artists_draw(&model.occupancy, config.minimum_pixels_per_artist));
    let clashes = found(check_colors_unique(&model.canvas));
    let shared = found(check_no_overlapping(&model.occupancy));
    let scattered = found(check_no_islands(&model.occupancy, config.adjacency_rule));
    let repeated = found(check_no_repeating_patterns(&model.occupancy));
    let rewritten = collect_repeated_writes(&model.diagnostics);
    proof {
        let m = model.occupancy@;
        assert(views(shared@) =~= overlaps(m, m.len() as int));
        assert(views(scattered@) =~= island_findings(config.adjacency_rule, m, m.len() as int));
        assert(few@ =~= shortfalls(m, m.len() as int, config.minimum_pixels_per_artist));
        assert(clashes@ =~= color_clashes(model.canvas@, model.canvas@.len() as int));
        assert(repeated@ =~= duplicates(m, m.len() as int));
    }
    Report {
        artist_count,
        shortfalls: few,
        color_clashes: clashes,
        overlaps: shared,
        islands: scattered,
        duplicate_patterns: repeated,
        repeated_writes: rewritten,
    }
}

impl Report {
    /// Whether the run succeeds on this report.
    pub fn passed(&self, config: &Config) -> (b: bool)
        ensures
            b == clean(self@, *config),
    {
        let advisory = match config.repeated_write_severity {
            Severity::Advisory => true,
            Severity::Fatal => false,
        };
        self.artist_count.is_none() && self.shortfalls.len() == 0 && self.color_clashes.len() == 0
            && self.overlaps.len() == 0 && self.islands.len() == 0
            && self.duplicate_patterns.len() == 0 && (advisory || self.repeated_writes.len() == 0)
    }
}

/// Whether the index `m` and the diagnostics `noticed` are those of a model
/// built from `events`: what [`crate::canvas::build`] promises of them.
pub open spec fn built_from(m: Seq<Holding>, noticed: Seq<Diagnostic>, events: Seq<CanvasPixel>) -> bool {
    &&& index_reflects(m, events, events.len() as int)
    &&& noticed == diagnostics(events, events.len() as int)
}

/// Running the suite again gives the same report, also where the model is
/// built anew from the same events: the events have one index and one list
/// of diagnostics, and what the suite finds is a function of these and of
/// the configuration.
pub proof fn lemma_analysis_repeats(
    events: Seq<CanvasPixel>,
    config: Config,
    first_index: Seq<Holding>,
    first_noticed: Seq<Diagnostic>,
    second_index: Seq<Holding>,
    second_noticed: Seq<Diagnostic>,
)
    requires
        built_from(first_index, first_noticed, events),
        built_from(second_index, second_noticed, events),
    ensures
        findings(events, first_index, first_noticed, config) == findings(
            events,
            second_index,
            second_noticed,
            config,
        ),
{
    lemma_index_determined(first_index, second_index, events, events.len() as int);
}

/// An artist without pixels is held to account and does not disturb the
/// rest: where at least one pixel is required, the artist's shortfall is
/// listed; the connectivity check lists the artist as one without pixels;
/// and the artist is in no pair of equal shapes and in no overlap.
pub proof fn lemma_artist_without_pixels(
    events: Seq<CanvasPixel>,
    m: Seq<Holding>,
    noticed: Seq<Diagnostic>,
    config: Config,
    i: int,
)
    requires
        holdings_wf(m),
        0 <= i < m.len(),
        m[i].pixels.len() == 0,
        config.minimum_pixels_per_artist >= 1,
    ensures
        findings(events, m, noticed, config).shortfalls.contains(
            PixelShortfall {
                artist: m[i].artist,
                drawn: 0,
                required: config.minimum_pixels_per_artist,
            },
        ),
        findings(events, m, noticed, config).islands.contains(
            IslandFindingView::NoPixels { artist: m[i].artist },
        ),
        forall|d: DuplicatePattern| #[trigger]
            findings(events, m, noticed, config).duplicate_patterns.contains(d) ==> d.first
                != m[i].artist && d.second != m[i].artist,
        forall|o: OverlapView| #[trigger]
            findings(events, m, noticed, config).overlaps.contains(o) ==> o.first != m[i].artist
                && o.second != m[i].artist,
{
    let n = m.len() as int;
    let required = config.minimum_pixels_per_artist;
    let artist = m[i].artist;
    let short = PixelShortfall { artist, drawn: 0, required };
    assert(shortfall_pick(m, required)(i) == Some(short));
    lemma_position_is_listed(shortfall_pick(m, required), n, i);
    let bare = IslandFindingView::NoPixels { artist };
    assert(island_pick(config.adjacency_rule, m)(i) == Some(bare));
    lemma_position_is_listed(island_pick(config.adjacency_rule, m), n, i);
    assert forall|d: DuplicatePattern| #[trigger]
        duplicates(m, n).contains(d) implies d.first != artist && d.second != artist by {
        let (a, b) = lemma_pair_of_listed(duplicate_pick(m), n, n, d);
        assert(duplicate_of(m, a, b) == Some(d));
        lemma_other_artist(m, i, a);
        lemma_other_artist(m, i, b);
    }
    assert forall|o: OverlapView| #[trigger]
        overlaps(m, n).contains(o) implies o.first != artist && o.second != artist by {
        let (a, b) = lemma_pair_of_listed(overlap_pick(m), n, n, o);
        assert(overlap_of(m, a, b) == Some(o));
        let shared = shared_points(m[a].pixels, m[b].pixels);
        lemma_shared_is_intersection(m[a].pixels, m[b].pixels);
        assert(shared.to_set().contains(shared[0]));
        assert(m[a].pixels.contains(shared[0]) && m[b].pixels.contains(shared[0]));
        lemma_other_artist(m, i, a);
        lemma_other_artist(m, i, b);
    }
}

/// Two positions of a well-formed index hold two artists.
proof fn lemma_other_artist(m: Seq<Holding>, i: int, j: int)
    requires
        holdings_wf(m),
        0 <= i < m.len(),
        0 <= j < m.len(),
        i != j,
    ensures
        m[i].artist != m[j].artist,
{
    if i < j {
        assert(m[i].artist != m[j].artist);
    } else {
        assert(m[j].artist != m[i].artist);
    }
}

} // verus!
