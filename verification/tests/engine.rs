use two_strip::color::{transform_pixel, Pixel};
use two_strip::engine::{assemble, make_jobs, run_job, transform_raster, Job, JobResult};
use two_strip::raster::Raster;

fn px(r: u8, g: u8, b: u8) -> Pixel {
    Pixel { r, g, b }
}

fn sample_2x2() -> Raster {
    Raster::from_pixels(2, 2, vec![px(10, 20, 30), px(200, 100, 50), px(0, 0, 0), px(
        255,
        255,
        255,
    )])
}

fn same_image(a: &Raster, b: &Raster) -> bool {
    if a.width() != b.width() || a.height() != b.height() {
        return false;
    }
    for y in 0..a.height() {
        for x in 0..a.width() {
            if a.get(x, y) != b.get(x, y) {
                return false;
            }
        }
    }
    true
}

#[test]
fn raster_stores_pixels_row_major() {
    let r = sample_2x2();
    assert_eq!(r.width(), 2);
    assert_eq!(r.height(), 2);
    assert_eq!(r.get(0, 0), px(10, 20, 30));
    assert_eq!(r.get(1, 0), px(200, 100, 50));
    assert_eq!(r.get(0, 1), px(0, 0, 0));
    assert_eq!(r.get(1, 1), px(255, 255, 255));
}

#[test]
fn dimensions_are_preserved() {
    let input = Raster::from_pixels(3, 2, vec![px(1, 2, 3); 6]);
    let out = transform_raster(&input);
    assert_eq!(out.width(), 3);
    assert_eq!(out.height(), 2);
}

#[test]
fn zero_area_raster_transforms_to_empty() {
    let empty = Raster::from_pixels(0, 0, Vec::new());
    let out = transform_raster(&empty);
    assert_eq!(out.width(), 0);
    assert_eq!(out.height(), 0);

    let tall = Raster::from_pixels(0, 5, Vec::new());
    let out2 = transform_raster(&tall);
    assert_eq!(out2.width(), 0);
    assert_eq!(out2.height(), 5);
}

#[test]
fn every_output_pixel_is_the_transform_of_its_input() {
    let input = sample_2x2();
    let out = transform_raster(&input);
    for y in 0..2 {
        for x in 0..2 {
            assert_eq!(out.get(x, y), transform_pixel(input.get(x, y)));
        }
    }
}

#[test]
fn make_jobs_enumerates_row_major() {
    let input = sample_2x2();
    let jobs = make_jobs(&input);
    assert_eq!(jobs.len(), 4);
    for (i, job) in jobs.iter().enumerate() {
        assert_eq!(job.x, i % 2);
        assert_eq!(job.y, i / 2);
        assert_eq!(job.pixel, input.get(job.x, job.y));
    }
}

#[test]
fn run_job_keeps_the_coordinate() {
    let job = Job { x: 7, y: 3, pixel: px(200, 100, 50) };
    let res = run_job(&job);
    assert_eq!(res.x, 7);
    assert_eq!(res.y, 3);
    assert_eq!(res.pixel, transform_pixel(px(200, 100, 50)));
}

#[test]
fn assemble_matches_the_sequential_engine() {
    let input = sample_2x2();
    let results: Vec<JobResult> = make_jobs(&input).iter().map(run_job).collect();
    let out = assemble(2, 2, &results).expect("complete results must assemble");
    let reference = transform_raster(&input);
    assert!(same_image(&out, &reference));
}

#[test]
fn assembly_is_order_independent() {
    let input = sample_2x2();
    let row_major: Vec<JobResult> = make_jobs(&input).iter().map(run_job).collect();
    // Column-major delivery of the same results.
    let mut column_major: Vec<JobResult> = Vec::new();
    for x in 0..2usize {
        for y in 0..2usize {
            column_major.push(row_major[y * 2 + x]);
        }
    }
    let mut reversed = row_major.clone();
    reversed.reverse();

    let a = assemble(2, 2, &row_major).expect("row-major order must assemble");
    let b = assemble(2, 2, &column_major).expect("column-major order must assemble");
    let c = assemble(2, 2, &reversed).expect("reversed order must assemble");
    assert!(same_image(&a, &b));
    assert!(same_image(&a, &c));
}

#[test]
fn two_by_one_raster_agrees_for_any_delivery_order() {
    // A sequential run (a pool of one worker) delivers results in job
    // order; a larger pool may deliver them in any order.  Both orders of
    // the two results must produce the same output raster.
    let input = Raster::from_pixels(2, 1, vec![px(10, 200, 30), px(250, 5, 120)]);
    let jobs = make_jobs(&input);
    let in_order: Vec<JobResult> = jobs.iter().map(run_job).collect();
    let swapped: Vec<JobResult> = vec![in_order[1], in_order[0]];
    let a = assemble(2, 1, &in_order).expect("in-order delivery must assemble");
    let b = assemble(2, 1, &swapped).expect("swapped delivery must assemble");
    assert!(same_image(&a, &b));
    assert!(same_image(&a, &transform_raster(&input)));
}

#[test]
fn assemble_rejects_a_duplicate_coordinate() {
    let r0 = JobResult { x: 0, y: 0, pixel: px(1, 2, 3) };
    let r1 = JobResult { x: 0, y: 0, pixel: px(4, 5, 6) };
    assert!(assemble(2, 1, &vec![r0, r1]).is_none());
}

#[test]
fn assemble_rejects_a_missing_coordinate() {
    let r0 = JobResult { x: 0, y: 0, pixel: px(1, 2, 3) };
    assert!(assemble(2, 1, &vec![r0]).is_none());
}

#[test]
fn assemble_rejects_an_out_of_range_coordinate() {
    let r0 = JobResult { x: 0, y: 0, pixel: px(1, 2, 3) };
    let r1 = JobResult { x: 2, y: 0, pixel: px(4, 5, 6) };
    assert!(assemble(2, 1, &vec![r0, r1]).is_none());
}

#[test]
fn assemble_of_nothing_is_the_empty_raster() {
    let out = assemble(0, 0, &Vec::new()).expect("zero jobs assemble immediately");
    assert_eq!(out.width(), 0);
    assert_eq!(out.height(), 0);
}
