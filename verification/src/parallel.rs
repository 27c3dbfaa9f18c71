//! Work that is shared out over rayon's pool of threads, cell by cell.

use rayon::iter::{IndexedParallelIterator, IntoParallelRefMutIterator, ParallelIterator};
use vstd::prelude::*;

use crate::fixed::Real;
use crate::forces::{cell_impulses, forces_ready, impulses_of_cell};
use crate::matrix::Matrix;
use crate::organize::{cell_fits, extract, kept, strays};
use crate::params::ParticleSimulationParams;
use crate::particle::Particle;
use crate::type_data::ParticleTypeData;

verus! {

/// Fills every list of `impulses` with the impulses of its cell, by
/// `for_each` on rayon's `par_iter_mut().enumerate()`. Believed of rayon:
/// each list is handed out once, together with its own position, and the
/// call returns when all are done. Each list is then as [`cell_impulses`]
/// left it for its position.
#[verifier::external_body]
pub(crate) fn impulses_in_parallel(
    buckets: &Matrix<Vec<Particle>>,
    bucket_size: Real,
    type_data: &ParticleTypeData,
    params: &ParticleSimulationParams,
    impulses: &mut Vec<Vec<[Real; 2]>>,
)
    requires
        forces_ready(*buckets, bucket_size, *type_data),
        old(impulses).len() == buckets.data.len(),
    ensures
        final(impulses).len() == old(impulses).len(),
        forall|k: int|
            0 <= k < final(impulses).len() ==> impulses_of_cell(
                *buckets,
                bucket_size as int,
                *type_data,
                *params,
                k,
                (#[trigger] final(impulses)[k])@,
            ),
{
    impulses.par_iter_mut().enumerate().for_each(
        |(k, list)| cell_impulses(buckets, bucket_size, type_data, params, k, list),
    );
}

/// Takes out of every list the particles that are not in its cell, by
/// `map` and `collect` on rayon's `par_iter_mut().enumerate()`. Believed of
/// rayon: each list is handed out once, together with its own position, and
/// what the calls return is collected into the vector in the order of the
/// lists, as a sequential iterator would collect it. Each list is then as
/// [`extract`] left it, and what it returned stands at the list's position
/// in the result.
#[verifier::external_body]
pub(crate) fn extract_in_parallel(
    buckets: &mut Vec<Vec<Particle>>,
    width: usize,
    bucket_size: Real,
) -> (out: Vec<Vec<Particle>>)
    requires
        width >= 1,
        bucket_size >= 1,
        forall|k: int|
            0 <= k < old(buckets).len() ==> #[trigger] cell_fits(
                k,
                width as int,
                bucket_size as int,
            ),
    ensures
        final(buckets).len() == old(buckets).len(),
        out.len() == old(buckets).len(),
        forall|k: int|
            0 <= k < out.len() ==> (#[trigger] final(buckets)[k])@ == kept(
                old(buckets)[k]@,
                bucket_size as int,
                k % (width as int),
                k / (width as int),
            ),
        forall|k: int|
            0 <= k < out.len() ==> (#[trigger] out[k])@ == strays(
                old(buckets)[k]@,
                bucket_size as int,
                k % (width as int),
                k / (width as int),
            ),
{
    buckets.par_iter_mut().enumerate().map(
        |(k, bucket)| extract(bucket, k, width, bucket_size),
    ).collect()
}

} // verus!
