use fuzzy_cluster::error::ClusterError;
use fuzzy_cluster::membership::{shares, Share};

fn bits(values: &[f64]) -> Vec<u64> {
    values.iter().map(|v| v.to_bits()).collect()
}

#[test]
fn the_formula_applies_where_no_distance_is_zero() {
    assert_eq!(
        shares(&bits(&[0.5, 1.5, 2.0])),
        Ok(vec![Share::Formula, Share::Formula, Share::Formula])
    );
}

#[test]
fn a_centroid_on_the_point_takes_the_whole_membership() {
    assert_eq!(
        shares(&bits(&[0.7, 0.0, 1.2])),
        Ok(vec![Share::Excluded, Share::Coincident { among: 1 }, Share::Excluded])
    );
}

#[test]
fn centroids_on_the_point_share_equally() {
    assert_eq!(
        shares(&bits(&[0.0, 0.3, -0.0, 0.0])),
        Ok(vec![
            Share::Coincident { among: 3 },
            Share::Excluded,
            Share::Coincident { among: 3 },
            Share::Coincident { among: 3 },
        ])
    );
}

#[test]
fn no_centroid_gives_no_share() {
    assert_eq!(shares(&bits(&[])), Ok(vec![]));
}

#[test]
fn a_distance_that_is_not_finite_is_refused() {
    assert_eq!(shares(&bits(&[0.0, f64::NAN])), Err(ClusterError::NotFinite));
    assert_eq!(shares(&bits(&[f64::INFINITY, 1.0])), Err(ClusterError::NotFinite));
}

#[test]
fn coincident_shares_add_up_to_one() {
    let plan = shares(&bits(&[0.0, 2.0, 0.0, 0.0, 1.0, 0.0])).unwrap();
    let mut total = 0.0;
    for share in plan {
        total += match share {
            Share::Formula => panic!("a centroid sits on the point"),
            Share::Coincident { among } => 1.0 / among as f64,
            Share::Excluded => 0.0,
        };
    }
    assert_eq!(total, 1.0);
}
