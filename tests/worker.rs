use wfc_field::wfc_field::Cell;
use wfc_field::worker::{fill_region, join_regions, partition, worker_inputs, WorkerInput, WorkerOutput};

#[test]
fn partition_hundred_by_three() {
    let r = partition(100, 3);
    assert_eq!(r, vec![(0, 33), (33, 33), (66, 34)]);
    assert_eq!(r.iter().map(|p| p.1).sum::<usize>(), 100);
    let mut idx = Vec::new();
    for (start, len) in r {
        for i in start..start + len {
            idx.push(i);
        }
    }
    assert_eq!(idx, (0..100).collect::<Vec<_>>());
}

#[test]
fn partition_single_worker_and_small_total() {
    assert_eq!(partition(7, 1), vec![(0, 7)]);
    assert_eq!(partition(2, 4), vec![(0, 0), (0, 0), (0, 0), (0, 2)]);
}

#[test]
fn worker_inputs_cover_grid() {
    let w = worker_inputs(10, 3);
    assert_eq!(w.len(), 3);
    assert_eq!((w[0].idx, w[0].len, w[0].dim), (0, 33, 10));
    assert_eq!((w[1].idx, w[1].len, w[1].dim), (1, 33, 10));
    assert_eq!((w[2].idx, w[2].len, w[2].dim), (2, 34, 10));
}

#[test]
fn fill_region_gives_blank_cells() {
    let out = fill_region(WorkerInput { idx: 2, len: 5, dim: 3 });
    assert_eq!(out.idx, 2);
    assert_eq!(out.value.len(), 5);
    assert!(out.value.iter().all(|c| !c.collapsed && c.px.rgba == [0, 0, 0, 1]));
}

fn marked(idx: usize, len: usize) -> WorkerOutput {
    let mut value = Vec::new();
    for i in 0..len {
        let mut c = Cell::new();
        c.px.rgba = [idx as u8, i as u8, 0, 1];
        value.push(c);
    }
    WorkerOutput { idx, value }
}

#[test]
fn join_regions_orders_by_place() {
    let results = vec![marked(2, 1), marked(0, 2), marked(1, 1)];
    let joined = join_regions(&results, 3).unwrap();
    let tags: Vec<[u8; 4]> = joined.iter().map(|c| c.px.rgba).collect();
    assert_eq!(tags, vec![[0, 0, 0, 1], [0, 1, 0, 1], [1, 0, 0, 1], [2, 0, 0, 1]]);
}

#[test]
fn join_regions_refuses_partial_set() {
    let results = vec![marked(0, 2), marked(2, 1)];
    assert!(join_regions(&results, 3).is_none());
}
