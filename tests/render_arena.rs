use pathtracer::estimator::{roulette_due, step, PathEvent, PathState};
use pathtracer::render_arena::{partition_rows, pixel_seed, SampleRng};

#[test]
fn partition_covers_every_pixel_once() {
    for height in 0usize..40 {
        for threads in 1usize..12 {
            let width = 3usize;
            let regions = partition_rows(height, threads);
            assert_eq!(regions.len(), threads);
            let mut image = vec![u32::MAX; width * height];
            for (k, (start, end)) in regions.iter().enumerate() {
                for y in *start..*end {
                    for x in 0..width {
                        assert_eq!(image[y * width + x], u32::MAX);
                        image[y * width + x] = k as u32;
                    }
                }
            }
            assert!(image.iter().all(|&p| p != u32::MAX));
        }
    }
}

#[test]
fn partition_uses_ceiling_blocks() {
    assert_eq!(partition_rows(10, 3), vec![(0, 4), (4, 8), (8, 10)]);
    assert_eq!(partition_rows(5, 4), vec![(0, 2), (2, 4), (4, 5), (5, 5)]);
    assert_eq!(partition_rows(7, 1), vec![(0, 7)]);
}

#[test]
fn pixel_streams_are_fixed() {
    assert_eq!(pixel_seed(0, 3, 2), 0x2_0000_0003);
    assert_eq!(pixel_seed(0xFF, 1, 0), 0xFE);
    let mut r = SampleRng::new(0);
    assert_eq!(r.next_u64(), 0xE220_A839_7B1D_CDAF);
    let mut a = SampleRng::new(pixel_seed(42, 5, 6));
    let mut b = SampleRng::new(pixel_seed(42, 5, 6));
    for _ in 0..10 {
        assert_eq!(a.next_u64(), b.next_u64());
    }
}

#[test]
fn path_states_follow_events() {
    assert_eq!(step(0, PathEvent::Miss, true), PathState::TerminatedBackground);
    assert_eq!(step(5, PathEvent::HitEmitter, true), PathState::TerminatedEmission);
    assert_eq!(step(0, PathEvent::Scattered, false), PathState::Tracing { depth: 1 });
    assert_eq!(step(1, PathEvent::Scattered, false), PathState::Tracing { depth: 2 });
    assert_eq!(step(2, PathEvent::Scattered, false), PathState::TerminatedRoulette);
    assert_eq!(step(2, PathEvent::Scattered, true), PathState::Tracing { depth: 3 });
    assert_eq!(step(u32::MAX, PathEvent::Scattered, true), PathState::Tracing { depth: u32::MAX });
    assert!(!roulette_due(2));
    assert!(roulette_due(3));
}
