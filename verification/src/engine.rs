//! The dispatch engine: decompose a raster into one job per pixel, run the
//! transform on each job, and reassemble the delivered results into a
//! complete output raster.
//!
//! The per-job computation is pixel-local, so results may be produced and
//! delivered in any order; `assemble` writes each result to its own
//! coordinate and succeeds exactly when every coordinate was delivered once.
//! The lemmas at the end state the order-independence and completeness of
//! that reassembly.

use vstd::arithmetic::div_mod::lemma_fundamental_div_mod_converse;
use vstd::prelude::*;

use crate::color::{transform_pixel, transform_spec, Pixel};
use crate::raster::{
    lemma_grid_index, lemma_grid_index_injective, lemma_grid_index_inverse, rasters_equal, Raster,
};

verus! {

/// One unit of dispatched work: a coordinate and the source pixel there.
#[derive(Clone, Copy, PartialEq, Eq, Structural, Debug)]
pub struct Job {
    pub x: usize,
    pub y: usize,
    pub pixel: Pixel,
}

/// The completed output of a job: its coordinate and the transformed pixel.
#[derive(Clone, Copy, PartialEq, Eq, Structural, Debug)]
pub struct JobResult {
    pub x: usize,
    pub y: usize,
    pub pixel: Pixel,
}

/// Execute one job: apply the pixel transform to its source pixel and tag
/// the result with the job's own coordinate.
pub fn run_job(job: &Job) -> (res: JobResult)
    ensures
        res.x == job.x,
        res.y == job.y,
        res.pixel == transform_spec(job.pixel),
{
    JobResult { x: job.x, y: job.y, pixel: transform_pixel(job.pixel) }
}

/// The job list enumerates the input raster in row-major order: one job per
/// coordinate, the job at position `i` covering `(i % width, i / width)`
/// and carrying the input pixel there.
pub open spec fn jobs_for(jobs: Seq<Job>, input: Raster) -> bool {
    &&& jobs.len() == input.spec_width() * input.spec_height()
    &&& forall|i: int|
        0 <= i < jobs.len() ==> {
            &&& (#[trigger] jobs[i]).x as int == i % input.spec_width()
            &&& jobs[i].y as int == i / input.spec_width()
            &&& jobs[i].pixel == input.spec_at(i % input.spec_width(), i / input.spec_width())
        }
}

/// Each result answers the job at its own position: same coordinate, and
/// the transformed source pixel — what `run_job` produces for every job.
pub open spec fn results_of(rs: Seq<JobResult>, jobs: Seq<Job>) -> bool {
    &&& rs.len() == jobs.len()
    &&& forall|i: int|
        0 <= i < rs.len() ==> {
            &&& (#[trigger] rs[i]).x == jobs[i].x
            &&& rs[i].y == jobs[i].y
            &&& rs[i].pixel == transform_spec(jobs[i].pixel)
        }
}

/// Enumerate one job per coordinate of the input, in row-major order.
pub fn make_jobs(input: &Raster) -> (jobs: Vec<Job>)
    requires
        input.wf(),
    ensures
        jobs_for(jobs@, *input),
{
    let w = input.width();
    let h = input.height();
    let mut jobs: Vec<Job> = Vec::new();
    let mut y: usize = 0;
    while y < h
        invariant
            input.wf(),
            w as int == input.spec_width(),
            h as int == input.spec_height(),
            y <= h,
            jobs@.len() == y * w,
            forall|i: int|
                0 <= i < jobs@.len() ==> {
                    &&& (#[trigger] jobs@[i]).x as int == i % input.spec_width()
                    &&& jobs@[i].y as int == i / input.spec_width()
                    &&& jobs@[i].pixel == input.spec_at(
                        i % input.spec_width(),
                        i / input.spec_width(),
                    )
                },
        decreases h - y,
    {
        let mut x: usize = 0;
        while x < w
            invariant
                input.wf(),
                w as int == input.spec_width(),
                h as int == input.spec_height(),
                y < h,
                x <= w,
                jobs@.len() == y * w + x,
                forall|i: int|
                    0 <= i < jobs@.len() ==> {
                        &&& (#[trigger] jobs@[i]).x as int == i % input.spec_width()
                        &&& jobs@[i].y as int == i / input.spec_width()
                        &&& jobs@[i].pixel == input.spec_at(
                            i % input.spec_width(),
                            i / input.spec_width(),
                        )
                    },
            decreases w - x,
        {
            let pixel = input.get(x, y);
            proof {
                lemma_fundamental_div_mod_converse(
                    y as int * w as int + x as int,
                    w as int,
                    y as int,
                    x as int,
                );
            }
            jobs.push(Job { x, y, pixel });
            x = x + 1;
        }
        proof {
            assert(y * w + w == (y + 1) * w) by (nonlinear_arith);
        }
        y = y + 1;
    }
    proof {
        assert(h * w == w * h) by (nonlinear_arith);
    }
    jobs
}

/// Transform a whole raster in row-major order on the calling thread: the
/// reference engine that a worker pool of any size must agree with.  The
/// output has the dimensions of the input, and the pixel at every coordinate
/// is the transform of the input pixel there.
pub fn transform_raster(input: &Raster) -> (out: Raster)
    requires
        input.wf(),
    ensures
        out.wf(),
        out.spec_width() == input.spec_width(),
        out.spec_height() == input.spec_height(),
        forall|x: int, y: int|
            0 <= x < input.spec_width() && 0 <= y < input.spec_height()
                ==> #[trigger] out.spec_at(x, y) == transform_spec(input.spec_at(x, y)),
{
    let w = input.width();
    let h = input.height();
    let mut data: Vec<Pixel> = Vec::new();
    let mut y: usize = 0;
    while y < h
        invariant
            input.wf(),
            w as int == input.spec_width(),
            h as int == input.spec_height(),
            y <= h,
            data@.len() == y * w,
            forall|i: int|
                0 <= i < data@.len() ==> #[trigger] data@[i] == transform_spec(
                    input.spec_at(i % input.spec_width(), i / input.spec_width()),
                ),
        decreases h - y,
    {
        let mut x: usize = 0;
        while x < w
            invariant
                input.wf(),
                w as int == input.spec_width(),
                h as int == input.spec_height(),
                y < h,
                x <= w,
                data@.len() == y * w + x,
                forall|i: int|
                    0 <= i < data@.len() ==> #[trigger] data@[i] == transform_spec(
                        input.spec_at(i % input.spec_width(), i / input.spec_width()),
                    ),
            decreases w - x,
        {
            proof {
                lemma_fundamental_div_mod_converse(
                    y as int * w as int + x as int,
                    w as int,
                    y as int,
                    x as int,
                );
            }
            data.push(transform_pixel(input.get(x, y)));
            x = x + 1;
        }
        proof {
            assert(y * w + w == (y + 1) * w) by (nonlinear_arith);
        }
        y = y + 1;
    }
    proof {
        assert(h * w == w * h) by (nonlinear_arith);
    }
    let ghost gdata = data@;
    let out = Raster::from_pixels(w, h, data);
    proof {
        assert forall|x: int, y: int|
            0 <= x < input.spec_width() && 0 <= y < input.spec_height() implies #[trigger] out
            .spec_at(x, y) == transform_spec(input.spec_at(x, y)) by {
            lemma_grid_index(x, y, w as int, h as int);
            lemma_fundamental_div_mod_converse(y * w as int + x, w as int, y, x);
            assert(gdata[y * w as int + x] == transform_spec(input.spec_at(x, y)));
        }
    }
    out
}

/// The row-major cell a result is written to.
pub open spec fn cell_index(r: JobResult, w: int) -> int {
    (r.y as int) * w + (r.x as int)
}

/// The result's coordinate lies inside a `w x h` grid.
pub open spec fn result_in_range(r: JobResult, w: int, h: int) -> bool {
    (r.x as int) < w && (r.y as int) < h
}

/// No two results claim the same coordinate.
pub open spec fn distinct_coords(rs: Seq<JobResult>) -> bool {
    forall|i: int, j: int|
        0 <= i < rs.len() && 0 <= j < rs.len() && i != j ==> !((#[trigger] rs[i]).x
            == (#[trigger] rs[j]).x && rs[i].y == rs[j].y)
}

/// Some delivered result covers the coordinate `(x, y)`.
pub open spec fn has_result_at(rs: Seq<JobResult>, x: int, y: int) -> bool {
    exists|i: int| 0 <= i < rs.len() && (#[trigger] rs[i]).x as int == x && rs[i].y as int == y
}

/// The delivered results cover a `w x h` grid exactly: every result is in
/// range, no coordinate is claimed twice, and every coordinate is claimed.
pub open spec fn complete_coverage(rs: Seq<JobResult>, w: int, h: int) -> bool {
    &&& forall|i: int| 0 <= i < rs.len() ==> result_in_range(#[trigger] rs[i], w, h)
    &&& distinct_coords(rs)
    &&& forall|x: int, y: int| 0 <= x < w && 0 <= y < h ==> #[trigger] has_result_at(rs, x, y)
}

/// The raster reflects every delivered result at the result's own
/// coordinate.
pub open spec fn is_assembly_of(out: Raster, rs: Seq<JobResult>) -> bool {
    forall|i: int|
        0 <= i < rs.len() ==> out.spec_at((#[trigger] rs[i]).x as int, rs[i].y as int)
            == rs[i].pixel
}

/// Every delivered result carries the transform of the input pixel at its
/// own coordinate — what honest workers produce.
pub open spec fn results_from(rs: Seq<JobResult>, input: Raster) -> bool {
    forall|i: int|
        0 <= i < rs.len() ==> (#[trigger] rs[i]).pixel == transform_spec(
            input.spec_at(rs[i].x as int, rs[i].y as int),
        )
}

/// Reassemble delivered results into the output raster, writing each result
/// to its own coordinate in arrival order.  Succeeds exactly when the
/// results cover every coordinate of the grid once: a result out of range, a
/// coordinate delivered twice, or a coordinate never delivered yields
/// `None`.
#[verifier::loop_isolation(false)]
#[verifier::rlimit(30)]
pub fn assemble(width: usize, height: usize, results: &Vec<JobResult>) -> (out: Option<Raster>)
    requires
        width * height <= usize::MAX,
    ensures
        out is Some <==> complete_coverage(results@, width as int, height as int),
        out matches Some(o) ==> {
            &&& o.wf()
            &&& o.spec_width() == width
            &&& o.spec_height() == height
            &&& is_assembly_of(o, results@)
        },
{
    let w = width;
    let n: usize = width * height;

    // The output grid, initially unset at every coordinate.
    let mut cells: Vec<Option<Pixel>> = Vec::new();
    while cells.len() < n
        invariant
            cells@.len() <= n,
            forall|c: int| 0 <= c < cells@.len() ==> (#[trigger] cells@[c]) is None,
        decreases n - cells@.len(),
    {
        cells.push(None);
    }

    // Write each result to its own cell; each coordinate takes one write.
    let mut j: usize = 0;
    while j < results.len()
        invariant
            j <= results@.len(),
            cells@.len() == n,
            forall|k: int|
                0 <= k < j ==> result_in_range(#[trigger] results@[k], width as int, height as int),
            forall|k: int|
                0 <= k < j ==> cells@[cell_index(#[trigger] results@[k], width as int)] == Some(
                    results@[k].pixel,
                ),
            forall|c: int|
                0 <= c < n ==> ((#[trigger] cells@[c]) is Some <==> exists|k: int|
                    0 <= k < j && cell_index(#[trigger] results@[k], width as int) == c),
            distinct_coords(results@.subrange(0, j as int)),
        decreases results@.len() - j,
    {
        let r = results[j];
        if r.x >= width || r.y >= height {
            assert(!result_in_range(results@[j as int], width as int, height as int));
            return None;
        }
        proof {
            lemma_grid_index(r.x as int, r.y as int, width as int, height as int);
        }
        let idx: usize = r.y * w + r.x;
        if cells[idx].is_some() {
            // The cell already holds an earlier result for this coordinate.
            proof {
                let k = choose|k: int|
                    0 <= k < j && cell_index(results@[k], width as int) == idx as int;
                lemma_grid_index_injective(
                    results@[k].x as int,
                    results@[k].y as int,
                    r.x as int,
                    r.y as int,
                    width as int,
                );
                assert(!distinct_coords(results@));
            }
            return None;
        }
        let ghost cells_before = cells@;
        cells[idx] = Some(r.pixel);
        proof {
            let wi = width as int;
            assert(cell_index(results@[j as int], wi) == idx as int);
            assert(cells@[idx as int] == Some(r.pixel));
            assert forall|k: int|
                0 <= k < j + 1 implies cells@[cell_index(#[trigger] results@[k], wi)] == Some(
                results@[k].pixel,
            ) by {
                if k < j {
                    lemma_grid_index(
                        results@[k].x as int,
                        results@[k].y as int,
                        wi,
                        height as int,
                    );
                    assert(cells_before[cell_index(results@[k], wi)] == Some(results@[k].pixel));
                    assert(cells_before[idx as int] is None);
                    assert(cell_index(results@[k], wi) != idx as int);
                }
            }
            assert forall|c2: int|
                0 <= c2 < n implies ((#[trigger] cells@[c2]) is Some <==> exists|k: int|
                0 <= k < j + 1 && cell_index(#[trigger] results@[k], wi) == c2) by {
                if c2 == idx as int {
                    assert(0 <= j as int && (j as int) < j + 1 && cell_index(
                        results@[j as int],
                        wi,
                    ) == c2);
                } else {
                    assert(cells@[c2] == cells_before[c2]);
                    if cells@[c2] is Some {
                        let k = choose|k: int| 0 <= k < j && cell_index(results@[k], wi) == c2;
                        assert(0 <= k < j + 1 && cell_index(results@[k], wi) == c2);
                    }
                    if exists|k: int| 0 <= k < j + 1 && cell_index(#[trigger] results@[k], wi)
                        == c2 {
                        let k = choose|k: int|
                            0 <= k < j + 1 && cell_index(results@[k], wi) == c2;
                        assert(k != j as int);
                        assert(0 <= k < j && cell_index(results@[k], wi) == c2);
                        assert(cells_before[c2] is Some);
                    }
                }
            }
            assert forall|k1: int, k2: int|
                0 <= k1 < j + 1 && 0 <= k2 < j + 1 && k1 != k2 implies !((results@[k1]).x
                == (results@[k2]).x && results@[k1].y == results@[k2].y) by {
                let sub = results@.subrange(0, j as int);
                if k1 < j && k2 < j {
                    assert(sub[k1] == results@[k1] && sub[k2] == results@[k2]);
                } else {
                    let k = if k1 < j {
                        k1
                    } else {
                        k2
                    };
                    if 0 <= k < j && (results@[k]).x == r.x && results@[k].y == r.y {
                        assert(cells_before[cell_index(results@[k], wi)] == Some(
                            results@[k].pixel,
                        ));
                        assert(cell_index(results@[k], wi) == idx as int);
                    }
                }
            }
            assert(distinct_coords(results@.subrange(0, j as int + 1))) by {
                let sub = results@.subrange(0, j as int + 1);
                assert forall|k1: int, k2: int|
                    0 <= k1 < sub.len() && 0 <= k2 < sub.len() && k1 != k2 implies !((
                #[trigger] sub[k1]).x == (#[trigger] sub[k2]).x && sub[k1].y == sub[k2].y) by {
                    assert(sub[k1] == results@[k1] && sub[k2] == results@[k2]);
                }
            }
        }
        j = j + 1;
    }

    // Read the grid back out; a still-unset cell means a coordinate whose
    // result never arrived.
    let mut data: Vec<Pixel> = Vec::new();
    let mut c: usize = 0;
    while c < n
        invariant
            c <= n,
            data@.len() == c,
            forall|k: int|
                0 <= k < c ==> (#[trigger] cells@[k]) is Some && data@[k] == cells@[k]->Some_0,
        decreases n - c,
    {
        match cells[c] {
            Some(p) => data.push(p),
            None => {
                proof {
                    assert(width > 0 && height > 0) by (nonlinear_arith)
                        requires
                            c < n,
                            n == width * height,
                    ;
                    lemma_grid_index_inverse(c as int, width as int, height as int);
                    let x0 = c as int % width as int;
                    let y0 = c as int / width as int;
                    assert forall|i: int|
                        0 <= i < results@.len() implies !((#[trigger] results@[i]).x as int == x0
                        && results@[i].y as int == y0) by {
                        if results@[i].x as int == x0 && results@[i].y as int == y0 {
                            assert(cell_index(results@[i], width as int) == c as int);
                            assert(cells@[c as int] is Some);
                        }
                    }
                    assert(!has_result_at(results@, x0, y0));
                }
                return None;
            },
        }
        c = c + 1;
    }

    let ghost gdata = data@;
    let out = Raster::from_pixels(width, height, data);
    proof {
        assert(results@.subrange(0, results@.len() as int) =~= results@);
        assert forall|x: int, y: int|
            0 <= x < width && 0 <= y < height implies #[trigger] has_result_at(
            results@,
            x,
            y,
        ) by {
            lemma_grid_index(x, y, width as int, height as int);
            let ci = y * width as int + x;
            assert(cells@[ci] is Some);
            let k = choose|k: int|
                0 <= k < results@.len() && cell_index(results@[k], width as int) == ci;
            lemma_grid_index_injective(
                results@[k].x as int,
                results@[k].y as int,
                x,
                y,
                width as int,
            );
        }
        assert forall|i: int|
            0 <= i < results@.len() implies out.spec_at(
            (#[trigger] results@[i]).x as int,
            results@[i].y as int,
        ) == results@[i].pixel by {
            let ci = cell_index(results@[i], width as int);
            lemma_grid_index(
                results@[i].x as int,
                results@[i].y as int,
                width as int,
                height as int,
            );
            assert(cells@[ci] == Some(results@[i].pixel));
            assert(gdata[ci] == results@[i].pixel);
        }
    }
    Some(out)
}

/// Workers that answer every enumerated job deliver a complete and honest
/// set of results: every coordinate of the input is covered exactly once,
/// and each result carries the transform of the input pixel at its own
/// coordinate.
pub proof fn lemma_worker_results_cover(input: Raster, jobs: Seq<Job>, rs: Seq<JobResult>)
    requires
        input.wf(),
        jobs_for(jobs, input),
        results_of(rs, jobs),
    ensures
        complete_coverage(rs, input.spec_width(), input.spec_height()),
        results_from(rs, input),
{
    let w = input.spec_width();
    let h = input.spec_height();
    input.lemma_dims_nonneg();
    assert forall|i: int| 0 <= i < rs.len() implies result_in_range(#[trigger] rs[i], w, h) by {
        assert(w > 0 && h > 0) by (nonlinear_arith)
            requires
                0 <= i < w * h,
                w >= 0,
                h >= 0,
        ;
        lemma_grid_index_inverse(i, w, h);
    }
    assert forall|i: int, j: int|
        0 <= i < rs.len() && 0 <= j < rs.len() && i != j implies !((#[trigger] rs[i]).x
        == (#[trigger] rs[j]).x && rs[i].y == rs[j].y) by {
        assert(w > 0) by (nonlinear_arith)
            requires
                0 <= i < w * h,
                w >= 0,
                h >= 0,
        ;
        lemma_grid_index_inverse(i, w, h);
        lemma_grid_index_inverse(j, w, h);
    }
    assert forall|x: int, y: int| 0 <= x < w && 0 <= y < h implies #[trigger] has_result_at(
        rs,
        x,
        y,
    ) by {
        lemma_grid_index(x, y, w, h);
        let i = y * w + x;
        lemma_fundamental_div_mod_converse(i, w, y, x);
        assert(0 <= i < rs.len() && rs[i].x as int == x && rs[i].y as int == y);
    }
    assert forall|i: int| 0 <= i < rs.len() implies (#[trigger] rs[i]).pixel == transform_spec(
        input.spec_at(rs[i].x as int, rs[i].y as int),
    ) by {
        assert(rs[i].pixel == transform_spec(jobs[i].pixel));
    }
}

/// Order independence: two complete deliveries that contain the same results
/// — in whatever order each arrived — assemble to the same raster.
pub proof fn lemma_assembly_order_independent(
    w: int,
    h: int,
    rs1: Seq<JobResult>,
    rs2: Seq<JobResult>,
    o1: Raster,
    o2: Raster,
)
    requires
        complete_coverage(rs1, w, h),
        forall|r: JobResult| rs1.contains(r) <==> rs2.contains(r),
        o1.spec_width() == w,
        o1.spec_height() == h,
        o2.spec_width() == w,
        o2.spec_height() == h,
        is_assembly_of(o1, rs1),
        is_assembly_of(o2, rs2),
    ensures
        rasters_equal(o1, o2),
{
    assert forall|x: int, y: int|
        0 <= x < w && 0 <= y < h implies o1.spec_at(x, y) == o2.spec_at(x, y) by {
        assert(has_result_at(rs1, x, y));
        let i = choose|i: int|
            0 <= i < rs1.len() && (#[trigger] rs1[i]).x as int == x && rs1[i].y as int == y;
        assert(rs1.contains(rs1[i]));
        assert(rs2.contains(rs1[i]));
        let j = choose|j: int| 0 <= j < rs2.len() && rs2[j] == rs1[i];
        assert(o1.spec_at(x, y) == rs1[i].pixel);
        assert(o2.spec_at(x, y) == rs2[j].pixel);
    }
}

/// Completeness: a raster assembled from a complete delivery of honest
/// results is exactly the transformed input — at every coordinate it holds
/// the transform of the input pixel there.
pub proof fn lemma_assembly_complete(input: Raster, rs: Seq<JobResult>, o: Raster)
    requires
        complete_coverage(rs, input.spec_width(), input.spec_height()),
        results_from(rs, input),
        o.spec_width() == input.spec_width(),
        o.spec_height() == input.spec_height(),
        is_assembly_of(o, rs),
    ensures
        forall|x: int, y: int|
            0 <= x < input.spec_width() && 0 <= y < input.spec_height() ==> #[trigger] o.spec_at(
                x,
                y,
            ) == transform_spec(input.spec_at(x, y)),
{
    assert forall|x: int, y: int|
        0 <= x < input.spec_width() && 0 <= y < input.spec_height() implies #[trigger] o.spec_at(
        x,
        y,
    ) == transform_spec(input.spec_at(x, y)) by {
        assert(has_result_at(rs, x, y));
        let i = choose|i: int|
            0 <= i < rs.len() && (#[trigger] rs[i]).x as int == x && rs[i].y as int == y;
        assert(o.spec_at(x, y) == rs[i].pixel);
        assert(rs[i].pixel == transform_spec(input.spec_at(x, y)));
    }
}

} // verus!
