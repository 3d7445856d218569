use wfc_field::adjacency::cell_neighbours;
use wfc_field::wfc_field::WFCField;

#[test]
fn corner_edge_interior_lists() {
    assert_eq!(cell_neighbours(3, 0, 0), vec![(0, 1), (1, 0), (1, 1)]);
    assert_eq!(cell_neighbours(3, 0, 1), vec![(0, 0), (0, 2), (1, 0), (1, 1), (1, 2)]);
    assert_eq!(
        cell_neighbours(3, 1, 1),
        vec![(0, 0), (0, 1), (0, 2), (1, 0), (1, 2), (2, 0), (2, 1), (2, 2)]
    );
}

#[test]
fn single_cell_grid_has_no_neighbours() {
    let t = WFCField::gen_neighbours(1, 1);
    assert_eq!(t.len(), 1);
    assert!(t[0].is_empty());
}

#[test]
fn adjacency_counts_and_bounds() {
    for dim in 2usize..8 {
        let t = WFCField::gen_neighbours(dim * dim, dim);
        assert_eq!(t.len(), dim * dim);
        for x in 0..dim {
            for y in 0..dim {
                let list = &t[x * dim + y];
                for (i, p) in list.iter().enumerate() {
                    assert!(p.0 < dim && p.1 < dim);
                    assert!(*p != (x, y));
                    assert!((p.0 as i64 - x as i64).abs() <= 1 && (p.1 as i64 - y as i64).abs() <= 1);
                    for q in list.iter().skip(i + 1) {
                        assert_ne!(p, q);
                    }
                }
                let x_edge = x == 0 || x == dim - 1;
                let y_edge = y == 0 || y == dim - 1;
                let expected = if x_edge && y_edge {
                    3
                } else if x_edge || y_edge {
                    5
                } else {
                    8
                };
                assert_eq!(list.len(), expected);
            }
        }
    }
}
