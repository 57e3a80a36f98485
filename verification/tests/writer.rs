//! The ordered writer's slot pool: reassembly and the broken state.

use xrc::writer::ChunkWriter;

fn batch(pairs: &[(usize, &[u8])]) -> Vec<(usize, Vec<u8>)> {
    pairs.iter().map(|(id, b)| (*id, b.to_vec())).collect()
}

fn drain(pool_size: usize, pairs: Vec<(usize, Vec<u8>)>) -> Vec<Vec<u8>> {
    let mut w = ChunkWriter::new(pool_size);
    w.process_batch(pairs)
}

#[test]
fn in_order_batch_comes_back_in_order() {
    let out = drain(3, batch(&[(0, b"aa"), (1, b"bb"), (2, b"cc")]));
    assert_eq!(out, vec![b"aa".to_vec(), b"bb".to_vec(), b"cc".to_vec()]);
}

#[test]
fn every_permutation_drains_to_the_same_output() {
    let ids = [0usize, 1, 2];
    let bufs: [&[u8]; 3] = [b"first", b"second", b"third"];
    let baseline = drain(3, batch(&[(0, bufs[0]), (1, bufs[1]), (2, bufs[2])]));
    let perms = [
        [0, 1, 2],
        [0, 2, 1],
        [1, 0, 2],
        [1, 2, 0],
        [2, 0, 1],
        [2, 1, 0],
    ];
    for p in perms.iter() {
        let pairs: Vec<(usize, Vec<u8>)> =
            p.iter().map(|&k| (ids[k], bufs[k].to_vec())).collect();
        assert_eq!(drain(3, pairs), baseline);
    }
}

#[test]
fn later_batch_starts_at_its_own_smallest_id() {
    let mut w = ChunkWriter::new(5);
    let first = w.process_batch(batch(&[(1, b"B"), (0, b"A")]));
    assert_eq!(first, vec![b"A".to_vec(), b"B".to_vec()]);
    let second = w.process_batch(batch(&[(4, b"E"), (2, b"C"), (3, b"D")]));
    assert_eq!(second, vec![b"C".to_vec(), b"D".to_vec(), b"E".to_vec()]);
    assert!(w.succeeded());
}

#[test]
fn broken_writer_drains_batches_to_nothing() {
    let mut w = ChunkWriter::new(2);
    w.mark_broken();
    let out = w.process_batch(batch(&[(0, b"aa"), (1, b"bb")]));
    assert!(out.is_empty());
    assert!(!w.succeeded());
}

#[test]
fn a_single_pair_batch_drains_to_itself() {
    let out = drain(1, batch(&[(0, b"only")]));
    assert_eq!(out, vec![b"only".to_vec()]);
}

#[test]
fn fresh_writer_reports_success() {
    let w = ChunkWriter::new(4);
    assert!(w.succeeded());
}
