//! Density-based spatial clustering (DBSCAN and OPTICS) over points given in
//! fixed-point angular coordinates.

use vstd::prelude::*;

mod counts;
mod dbscan;
mod labeler;
mod labels;
mod laws;
mod neighbors;
mod optics;
mod point;
mod relabel;

pub use relabel::id_in_prefix;
pub use relabel::is_first_occurrence;
pub use relabel::new_ids_before;
pub use relabel::relabel_dense;
pub use relabel::relabel_post;

pub use laws::lemma_extraction_deterministic;
pub use laws::lemma_isolated_point_is_noise;
pub use laws::lemma_min_pts_one_no_noise;
pub use laws::lemma_optics_core_distance_bounded;
pub use laws::lemma_range_query_deterministic;
pub use laws::lemma_relabel_deterministic;
pub use laws::seq_contains;
pub use laws::lemma_zero_radius_groups_coincident;

pub use labeler::core_within;
pub use labeler::extract_clusters;
pub use labeler::extract_entry_ok;
pub use labeler::extract_post;
pub use labeler::num_starts;
pub use labeler::reach_above;
pub use labeler::starts_new;
pub use optics::OpticsEntry;
pub use optics::appears;
pub use optics::attained;
pub use optics::core_ok;
pub use optics::optics;
pub use optics::optics_post;
pub use optics::reach_val_ok;

pub use dbscan::dbscan;
pub use dbscan::dbscan_post;
pub use dbscan::id_used;
pub use dbscan::ids_dense;
pub use labels::ClusterError;
pub use labels::Label;
pub use labels::labeled;
pub use labels::params_ok;

pub use neighbors::all_points_valid;
pub use neighbors::all_valid;
pub use neighbors::count_dist_le;
pub use neighbors::count_le;
pub use neighbors::count_within;
pub use neighbors::is_core;
pub use neighbors::lemma_count_within_self;
pub use neighbors::lemma_min_pts_one_all_core;
pub use neighbors::range_query;
pub use neighbors::within;
pub use point::Point;
pub use point::MAX_COORD;
pub use point::dist_sq;
pub use point::lemma_dist_symmetric;
pub use point::lemma_dist_zero_iff_eq;
pub use point::sq_dist;
pub use point::valid_point;

verus! {

/// Which clustering engine to run.
#[derive(Debug, Clone, Copy, PartialEq, Eq, Structural)]
pub enum Algorithm {
    Dbscan,
    Optics,
}

/// Runs the chosen engine to completion and returns the flat labeling: for
/// the ordering engine, the ordering is walked with the query radius itself
/// as the extraction threshold.
///
/// A negative radius or a zero minimum neighborhood size is rejected before
/// any processing, as is a point outside the representable coordinate range;
/// an empty input yields an empty labeling and no error.
pub fn cluster(points: &Vec<Point>, eps: i64, min_pts: usize, algorithm: Algorithm) -> (r: Result<
    Vec<Label>,
    ClusterError,
>)
    ensures
        r is Ok <==> params_ok(eps as int, min_pts as int) && all_valid(points@),
        (eps < 0 || min_pts == 0) ==> r == Result::<Vec<Label>, ClusterError>::Err(
            ClusterError::InvalidParameter,
        ),
        (params_ok(eps as int, min_pts as int) && !all_valid(points@)) ==> r == Result::<
            Vec<Label>,
            ClusterError,
        >::Err(ClusterError::NonFiniteCoordinate),
        algorithm == Algorithm::Dbscan ==> (r matches Ok(l) ==> dbscan_post(
            points@,
            eps as int,
            min_pts as int,
            l@,
        )),
        algorithm == Algorithm::Optics ==> (r matches Ok(l) ==> exists|ord: Seq<OpticsEntry>|
            #[trigger] optics_post(points@, eps as int, min_pts as int, ord) && extract_post(
                ord,
                eps as int,
                points@.len() as int,
                l@,
            )),
        r matches Ok(l) ==> l@.len() == points@.len(),
{
    match algorithm {
        Algorithm::Dbscan => dbscan(points, eps, min_pts),
        Algorithm::Optics => {
            let n = points.len();
            match optics(points, eps, min_pts) {
                Ok(ord) => {
                    let l = extract_clusters(&ord, eps, n);
                    proof {
                        assert(optics_post(points@, eps as int, min_pts as int, ord@)
                            && extract_post(ord@, eps as int, points@.len() as int, l@));
                    }
                    Ok(l)
                },
                Err(e) => Err(e),
            }
        },
    }
}

} // verus!
