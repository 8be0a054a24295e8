//! Scan-to-map matching: CSM against the accumulated occupancy grid.
//!
//! Matching each incoming scan against the *map* rather than the previous scan is
//! what kills incremental drift: errors stop compounding because the reference is
//! the global model, not the last (already slightly wrong) estimate.

use vstd::prelude::*;

use crate::error::{Reason, SlamError};
use crate::float::{F32, F64};
use crate::grid::image::PGM_OCCUPIED_THRESHOLD;
use crate::grid::{centres, least_log_odds, GridConfig, OccupancyGrid};
use crate::matcher::csm::{match_points, matched, query_fault, CsmConfig};
use crate::matcher::MatchResult;
use crate::numerics::{deterministic, Numerics};
use crate::pose::{Point2, Pose2};
use crate::scan::ScanCloud;

verus! {

/// Tunables for [`ScanToMapMatcher`].
#[derive(Debug, Clone, Copy, PartialEq, Eq, Structural)]
pub struct ScanToMapConfig {
    /// The underlying correlative search. Defaults to [`CsmConfig::default`] with
    /// a smaller window (±0.3 m, ±0.25 rad) — incremental motion between
    /// consecutive scans is small.
    pub csm: CsmConfig,
    /// Occupancy probability above which a grid cell counts as an obstacle for
    /// the likelihood field. Default `0.65` (the PGM export convention).
    pub occupied_threshold: F32,
    /// Minimum occupied cells required for a meaningful match. Default `10`.
    pub min_occupied_cells: usize,
}

impl ScanToMapConfig {
    /// The default values.
    pub open spec fn standard() -> ScanToMapConfig {
        ScanToMapConfig {
            csm: CsmConfig {
                search_x_m: F64 { bits: 0x3fd3_3333_3333_3333 },
                search_y_m: F64 { bits: 0x3fd3_3333_3333_3333 },
                search_theta_rad: F64 { bits: 0x3fd0_0000_0000_0000 },
                ..CsmConfig::standard()
            },
            occupied_threshold: F32 { bits: PGM_OCCUPIED_THRESHOLD },
            min_occupied_cells: 10,
        }
    }
}

impl Default for ScanToMapConfig {
    fn default() -> (r: ScanToMapConfig)
        ensures
            r == ScanToMapConfig::standard(),
            r.csm.usable(),
    {
        ScanToMapConfig {
            csm: CsmConfig {
                search_x_m: F64 { bits: 0x3fd3_3333_3333_3333 },
                search_y_m: F64 { bits: 0x3fd3_3333_3333_3333 },
                search_theta_rad: F64 { bits: 0x3fd0_0000_0000_0000 },
                ..CsmConfig::default()
            },
            occupied_threshold: F32 { bits: PGM_OCCUPIED_THRESHOLD },
            min_occupied_cells: 10,
        }
    }
}

/// The centres of the occupied cells of a map.
pub open spec fn obstacles<N: Numerics>(cells: Seq<F32>, grid: GridConfig, threshold: F32) -> Seq<
    Point2,
> {
    centres::<N>(cells, grid, least_log_odds::<N>(threshold), cells.len())
}

/// The error of a map with only `found` obstacles.
pub open spec fn too_few(found: nat, config: ScanToMapConfig) -> SlamError {
    SlamError::MatchFailed {
        reason: Reason::TooFewOccupiedCells {
            found: found as usize,
            need: config.min_occupied_cells,
        },
    }
}

/// What matching a query against obstacles gives.
pub open spec fn matched_to<N: Numerics>(
    occupied: Seq<Point2>,
    query: Seq<Point2>,
    guess: Pose2,
    config: ScanToMapConfig,
) -> Result<MatchResult, SlamError> {
    if occupied.len() < config.min_occupied_cells {
        Err(too_few(occupied.len(), config))
    } else {
        matched::<N>(occupied, query, guess, config.csm)
    }
}

/// The obstacles of a map, if there are enough of them to match against.
pub fn find_obstacles<N: Numerics>(grid: &OccupancyGrid, config: &ScanToMapConfig) -> (r: Result<
    Vec<Point2>,
    SlamError,
>)
    requires
        grid.wf(),
    ensures
        deterministic::<N>() ==> ({
            let found = obstacles::<N>(
                grid.spec_cells(),
                grid.spec_config(),
                config.occupied_threshold,
            );
            if found.len() < config.min_occupied_cells {
                r == Err::<Vec<Point2>, SlamError>(too_few(found.len(), *config))
            } else {
                r matches Ok(v) && v@ == found
            }
        }),
        match r {
            Ok(v) => config.min_occupied_cells <= v@.len() <= grid.spec_cells().len(),
            Err(e) => exists|n: nat|
                n < config.min_occupied_cells && n <= grid.spec_cells().len() && e
                    == #[trigger] too_few(n, *config),
        },
{
    let occupied = grid.occupied_cell_centres::<N>(config.occupied_threshold);
    if occupied.len() < config.min_occupied_cells {
        let e = SlamError::MatchFailed {
            reason: Reason::TooFewOccupiedCells {
                found: occupied.len(),
                need: config.min_occupied_cells,
            },
        };
        proof {
            assert(e == too_few(occupied@.len(), *config));
        }
        return Err(e);
    }
    Ok(occupied)
}

/// What matching a query against a map gives.
pub open spec fn matched_to_map<N: Numerics>(
    cells: Seq<F32>,
    grid: GridConfig,
    query: Seq<Point2>,
    guess: Pose2,
    config: ScanToMapConfig,
) -> Result<MatchResult, SlamError> {
    matched_to::<N>(
        obstacles::<N>(cells, grid, config.occupied_threshold),
        query,
        guess,
        config,
    )
}

/// Matches an incoming scan against an [`OccupancyGrid`] using the CSM search.
#[derive(Debug, Clone, Copy)]
pub struct ScanToMapMatcher {
    config: ScanToMapConfig,
}

impl Default for ScanToMapMatcher {
    fn default() -> (r: ScanToMapMatcher)
        ensures
            r.spec_config() == ScanToMapConfig::standard(),
            r.spec_config().csm.usable(),
    {
        ScanToMapMatcher { config: ScanToMapConfig::default() }
    }
}

impl ScanToMapMatcher {
    /// The active configuration.
    pub closed spec fn spec_config(&self) -> ScanToMapConfig {
        self.config
    }

    /// Create a matcher with the given configuration.
    pub fn new(config: ScanToMapConfig) -> (r: ScanToMapMatcher)
        ensures
            r.spec_config() == config,
    {
        ScanToMapMatcher { config }
    }

    /// The active configuration.
    pub fn config(&self) -> (r: &ScanToMapConfig)
        ensures
            *r == self.spec_config(),
    {
        &self.config
    }

    /// Estimate the world pose of `query`'s frame by matching against `grid`,
    /// searching around `initial_guess` (metres and radians).
    ///
    /// [`SlamError::MatchFailed`] if the grid has too few occupied cells or the
    /// query is degenerate; [`SlamError::ScanTooLarge`] or
    /// [`SlamError::GridTooLarge`] on inputs beyond the configured guards.
    pub fn match_scan<N: Numerics>(
        &self,
        grid: &OccupancyGrid,
        query: &ScanCloud,
        initial_guess: &Pose2,
    ) -> (r: Result<MatchResult, SlamError>)
        requires
            grid.wf(),
            self.spec_config().csm.usable(),
        ensures
            deterministic::<N>() ==> r == matched_to_map::<N>(
                grid.spec_cells(),
                grid.spec_config(),
                query.points@,
                *initial_guess,
                self.spec_config(),
            ),
            grid.spec_cells().len() < self.spec_config().min_occupied_cells ==> (r matches Err(e)
                && e is MatchFailed),
            query_fault(query.points@.len(), self.spec_config().csm) is Some ==> r is Err,
            r matches Err(e) ==> e is MatchFailed || e is ScanTooLarge || e is GridTooLarge,
    {
        match find_obstacles::<N>(grid, &self.config) {
            Err(e) => Err(e),
            Ok(occupied) => match_points::<N>(
                &occupied,
                &query.points,
                initial_guess,
                &self.config.csm,
            ),
        }
    }
}

/// A map without enough obstacles is refused, whatever the scan.
pub proof fn law_empty_map_is_refused<N: Numerics>(
    cells: Seq<F32>,
    grid: GridConfig,
    query: Seq<Point2>,
    guess: Pose2,
    config: ScanToMapConfig,
)
    requires
        forall|i: int|
            0 <= i < cells.len() ==> !least_log_odds::<N>(config.occupied_threshold).lt(
                #[trigger] cells[i],
            ),
        config.min_occupied_cells > 0,
    ensures
        matched_to_map::<N>(cells, grid, query, guess, config) == Err::<MatchResult, SlamError>(
            SlamError::MatchFailed {
                reason: Reason::TooFewOccupiedCells {
                    found: 0,
                    need: config.min_occupied_cells,
                },
            },
        ),
{
    lemma_no_centres::<N>(
        cells,
        grid,
        least_log_odds::<N>(config.occupied_threshold),
        cells.len(),
    );
}

/// Without a cell above the threshold there is no centre.
proof fn lemma_no_centres<N: Numerics>(cells: Seq<F32>, grid: GridConfig, least: F32, n: nat)
    requires
        n <= cells.len(),
        forall|i: int| 0 <= i < cells.len() ==> !least.lt(#[trigger] cells[i]),
    ensures
        centres::<N>(cells, grid, least, n).len() == 0,
    decreases n,
{
    if n > 0 {
        lemma_no_centres::<N>(cells, grid, least, (n - 1) as nat);
    }
}

} // verus!
