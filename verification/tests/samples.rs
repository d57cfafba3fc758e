use lumino_gpu_synth::synth::samples::{plan_chunk_writes, ChunkWrite, SampleArena};

#[test]
fn write_within_one_chunk() {
    let (w, overflow) = plan_chunk_writes(10, 20, 100, 4);
    assert_eq!(w, vec![ChunkWrite { chunk: 0, offset: 10, start: 0, len: 20 }]);
    assert!(!overflow);
}

#[test]
fn write_across_chunks() {
    let (w, overflow) = plan_chunk_writes(90, 250, 100, 4);
    assert_eq!(
        w,
        vec![
            ChunkWrite { chunk: 0, offset: 90, start: 0, len: 10 },
            ChunkWrite { chunk: 1, offset: 0, start: 10, len: 100 },
            ChunkWrite { chunk: 2, offset: 0, start: 110, len: 100 },
            ChunkWrite { chunk: 3, offset: 0, start: 210, len: 40 },
        ]
    );
    assert!(!overflow);
}

#[test]
fn write_past_the_last_chunk_overflows() {
    let (w, overflow) = plan_chunk_writes(150, 100, 100, 2);
    assert_eq!(w, vec![ChunkWrite { chunk: 1, offset: 50, start: 0, len: 50 }]);
    assert!(overflow);
    let (w, overflow) = plan_chunk_writes(500, 1, 100, 2);
    assert!(w.is_empty());
    assert!(overflow);
    let (w, overflow) = plan_chunk_writes(500, 0, 100, 2);
    assert!(w.is_empty());
    assert!(!overflow);
}

#[test]
fn arena_places_samples_back_to_back() {
    let mut a = SampleArena::new();
    assert_eq!(a.missing(&vec![7, 3, 7, 5]), vec![3, 5, 7]);
    assert_eq!(a.place(3, 100), 0);
    assert_eq!(a.place(5, 50), 100);
    assert_eq!(a.next_offset(), 150);
    assert_eq!(a.lookup(5), Some((100, 50)));
    assert_eq!(a.lookup(7), None);
    assert_eq!(a.missing(&vec![7, 3, 7, 5, 9]), vec![7, 9]);
    assert_eq!(a.missing(&vec![]), Vec::<usize>::new());
}
