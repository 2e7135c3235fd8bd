use azul::board::Board;
use azul::tiles::Tile;
use azul::Error;

/// Builds a wall from five rows of five booleans.
fn wall_from_rows(rows: [[bool; 5]; 5]) -> Vec<bool> {
    let mut wall = Vec::new();
    for row in rows.iter() {
        for cell in row.iter() {
            wall.push(*cell);
        }
    }
    wall
}

#[test]
fn connected() {
    let mut board = Board::default();
    board.wall = wall_from_rows([
        [false, false, false, false, false],
        [true, false, true, false, false],
        [true, false, true, false, false],
        [true, false, false, false, false],
        [true, true, true, false, false],
    ]);

    let coordinate = (4 as usize, Board::wall_index(Tile::Yellow, 4).unwrap());
    assert_eq!(coordinate, (4, 0));

    let score = board.connected(coordinate);

    assert_eq!(score, 7);
}

#[test]
fn connected_isolated_cell_scores_two() {
    let mut board = Board::default();
    board.wall[12] = true;
    assert_eq!(board.connected((2, 2)), 2);
}

#[test]
fn wall_index_is_bijective_per_row() {
    let colors = [Tile::Blue, Tile::Yellow, Tile::Red, Tile::Black, Tile::Teal];
    for row in 0..5 {
        let mut seen = [false; 5];
        for color in colors.iter() {
            let col = Board::wall_index(*color, row).unwrap();
            assert!(col < 5);
            assert!(!seen[col], "two colors share a column in row {}", row);
            seen[col] = true;
        }
        assert!(seen.iter().all(|s| *s));
    }
}

#[test]
fn wall_index_rejects_start_and_bad_row() {
    assert_eq!(Board::wall_index(Tile::Start, 0), Err(Error::InvalidWallLookup));
    assert_eq!(Board::wall_index(Tile::Blue, 5), Err(Error::InvalidWallLookup));
}

#[test]
fn wall_index_row_zero_matches_color_ranks() {
    assert_eq!(Board::wall_index(Tile::Blue, 0), Ok(0));
    assert_eq!(Board::wall_index(Tile::Yellow, 0), Ok(1));
    assert_eq!(Board::wall_index(Tile::Red, 0), Ok(2));
    assert_eq!(Board::wall_index(Tile::Black, 0), Ok(3));
    assert_eq!(Board::wall_index(Tile::Teal, 0), Ok(4));
    assert_eq!(Board::wall_index(Tile::Yellow, 4), Ok(0));
}
