use golden_dkg::msm::{pippenger_breakdown, pippenger_tiles, PippengerTile};

#[test]
fn tiles_split_points_into_columns_and_windows_into_rows() {
    let tiles = pippenger_tiles(10, 3, 2, 4);
    let expected = vec![
        PippengerTile { x: 0, dx: 3, bit: 4 },
        PippengerTile { x: 3, dx: 3, bit: 4 },
        PippengerTile { x: 6, dx: 4, bit: 4 },
        PippengerTile { x: 0, dx: 3, bit: 0 },
        PippengerTile { x: 3, dx: 3, bit: 0 },
        PippengerTile { x: 6, dx: 4, bit: 0 },
    ];
    assert_eq!(tiles, expected);
}

#[test]
fn tiles_of_each_row_cover_the_points() {
    for (npoints, ncpus) in [(1usize, 1usize), (7, 2), (100, 4), (1000, 16), (3, 8)] {
        let (nx, ny, window) = pippenger_breakdown(255, 8, ncpus);
        let tiles = pippenger_tiles(npoints, nx, ny, window);
        assert_eq!(tiles.len(), nx * ny);
        for row in 0..ny {
            let mut next = 0;
            for column in 0..nx {
                let tile = tiles[row * nx + column];
                assert_eq!(tile.x, next);
                assert_eq!(tile.bit, window * (ny - row - 1));
                next = tile.x + tile.dx;
            }
            assert_eq!(next, npoints);
        }
    }
}

#[test]
fn a_single_column_takes_every_point() {
    let tiles = pippenger_tiles(5, 1, 3, 2);
    assert_eq!(
        tiles,
        vec![
            PippengerTile { x: 0, dx: 5, bit: 4 },
            PippengerTile { x: 0, dx: 5, bit: 2 },
            PippengerTile { x: 0, dx: 5, bit: 0 },
        ]
    );
}
