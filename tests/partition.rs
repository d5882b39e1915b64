use raytracer::partition::{assemble, band_start_row, slice_pixels};

#[test]
fn band_starts_split_rows_evenly() {
    assert_eq!(band_start_row(10, 4, 0), 0);
    assert_eq!(band_start_row(10, 4, 1), 2);
    assert_eq!(band_start_row(10, 4, 2), 5);
    assert_eq!(band_start_row(10, 4, 3), 7);
    assert_eq!(band_start_row(10, 4, 4), 10);
    assert_eq!(band_start_row(u32::MAX, u32::MAX, u32::MAX), u32::MAX);
}

#[test]
fn slice_pixels_run_top_down_left_to_right() {
    // 2 columns, 3 rows, one worker: rows 2, 1, 0 from the top.
    assert_eq!(
        slice_pixels(2, 3, 1, 0),
        vec![(0, 2), (1, 2), (0, 1), (1, 1), (0, 0), (1, 0)]
    );
    // Two workers: the first takes the top row, the second the two below.
    assert_eq!(slice_pixels(2, 3, 2, 0), vec![(0, 2), (1, 2)]);
    assert_eq!(slice_pixels(2, 3, 2, 1), vec![(0, 1), (1, 1), (0, 0), (1, 0)]);
}

#[test]
fn more_workers_than_rows_leaves_empty_bands() {
    assert_eq!(slice_pixels(3, 1, 2, 0), vec![]);
    assert_eq!(slice_pixels(3, 1, 2, 1), vec![(0, 0), (1, 0), (2, 0)]);
}

fn shade(p: (u32, u32)) -> u64 {
    // A deterministic per-pixel value standing for a fixed-seed render.
    (p.0 as u64) * 1_000_003 + (p.1 as u64) * 7919 + 17
}

#[test]
fn bands_reassemble_to_serial_render() {
    let (width, height) = (5u32, 7u32);
    let serial: Vec<u64> = slice_pixels(width, height, 1, 0).into_iter().map(shade).collect();
    for workers in 1..10u32 {
        let parts: Vec<Vec<u64>> = (0..workers)
            .map(|s| slice_pixels(width, height, workers, s).into_iter().map(shade).collect())
            .collect();
        assert_eq!(assemble(&parts), serial);
    }
}

#[test]
fn assemble_keeps_part_order() {
    let parts = vec![vec![1, 2], vec![], vec![3], vec![4, 5, 6]];
    assert_eq!(assemble(&parts), vec![1, 2, 3, 4, 5, 6]);
    let none: Vec<Vec<u8>> = Vec::new();
    assert_eq!(assemble(&none), Vec::<u8>::new());
}

#[test]
fn bands_differ_by_at_most_one_row() {
    for rows in 0..30u32 {
        for workers in 1..12u32 {
            let mut total = 0;
            for s in 0..workers {
                let size = band_start_row(rows, workers, s + 1) - band_start_row(rows, workers, s);
                assert!(size == rows / workers || size == rows / workers + 1);
                total += size;
            }
            assert_eq!(total, rows);
        }
    }
}
