use std::sync::mpsc;

use threadpool::ThreadPool;

use two_strip::color::Pixel;
use two_strip::engine::{assemble, make_jobs, run_job, transform_raster, JobResult};
use two_strip::raster::Raster;

fn px(r: u8, g: u8, b: u8) -> Pixel {
    Pixel { r, g, b }
}

fn same_image(a: &Raster, b: &Raster) -> bool {
    if a.width() != b.width() || a.height() != b.height() {
        return false;
    }
    for y in 0..a.height() {
        for x in 0..a.width() {
            if a.get(x, y) != b.get(x, y) {
                return false;
            }
        }
    }
    true
}

/// Run the dispatch engine over a real worker pool: submit one job per
/// pixel, collect the results from the channel in whatever order the
/// workers deliver them, and reassemble.
fn run_with_pool(input: &Raster, workers: usize) -> Raster {
    let jobs = make_jobs(input);
    let job_count = jobs.len();
    let pool = ThreadPool::new(workers);
    let (send, recv) = mpsc::channel();
    for job in jobs {
        let send = send.clone();
        pool.execute(move || {
            send.send(run_job(&job)).unwrap();
        });
    }
    drop(send);
    let results: Vec<JobResult> = recv.iter().take(job_count).collect();
    assemble(input.width(), input.height(), &results).expect("missing results")
}

#[test]
fn two_by_one_pool_of_one_agrees_with_pool_of_sixty_four() {
    let input = Raster::from_pixels(2, 1, vec![px(10, 200, 30), px(250, 5, 120)]);
    let sequential = run_with_pool(&input, 1);
    let parallel = run_with_pool(&input, 64);
    assert!(same_image(&sequential, &parallel));
    assert!(same_image(&sequential, &transform_raster(&input)));
}

#[test]
fn pool_sizes_one_four_and_sixty_four_agree_on_a_larger_raster() {
    let mut pixels: Vec<Pixel> = Vec::new();
    for i in 0..48u32 {
        pixels.push(px((i * 5) as u8, (255 - i * 3) as u8, (i * 11 % 256) as u8));
    }
    let input = Raster::from_pixels(8, 6, pixels);
    let reference = transform_raster(&input);
    for workers in [1usize, 4, 64] {
        let out = run_with_pool(&input, workers);
        assert!(same_image(&out, &reference));
    }
}
