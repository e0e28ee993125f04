use rand::rngs::StdRng;
use rs2048::render::render;
use rs2048::Board;

#[test]
fn render_draws_rows_between_separators() {
    let display = vec![
        vec![None, Some(2), Some(16), Some(128)],
        vec![Some(2048), None, None, Some(4)],
    ];
    let expected = "+----+----+----+----+\n\
                    |    |   2|  16| 128|\n\
                    +----+----+----+----+\n\
                    |2048|    |    |   4|\n\
                    +----+----+----+----+\n";
    assert_eq!(render(&display), expected);
}

#[test]
fn render_of_a_blank_board() {
    let board: Board<StdRng> = Board::new_with_seed(4, 4, [0u8; 32]);
    let row = "+----+----+----+----+\n|    |    |    |    |\n";
    let expected = format!("{}{}{}{}+----+----+----+----+\n", row, row, row, row);
    match board.try_to_display() {
        Some(display) => assert_eq!(render(&display), expected),
        None => panic!("a blank board can be shown"),
    }
}

#[test]
fn render_lets_a_long_value_take_its_room() {
    let display = vec![vec![Some(32768), Some(8192), Some(1)]];
    let expected = "+----+----+----+----+\n|32768|8192|   1|\n+----+----+----+----+\n";
    assert_eq!(render(&display), expected);
}

#[test]
fn render_keeps_the_separator_for_any_width() {
    let display = vec![vec![Some(2)], vec![None]];
    let expected = "+----+----+----+----+\n|   2|\n+----+----+----+----+\n|    |\n+----+----+----+----+\n";
    assert_eq!(render(&display), expected);
}

#[test]
fn render_of_no_rows_is_one_separator() {
    assert_eq!(render(&Vec::new()), "+----+----+----+----+\n");
}

#[test]
fn render_writes_every_digit() {
    let display = vec![vec![Some(0), Some(1023), Some(4567), Some(65535)], vec![Some(89), Some(10), Some(100), Some(1000)]];
    let expected = "+----+----+----+----+\n\
                    |   0|1023|4567|65535|\n\
                    +----+----+----+----+\n\
                    |  89|  10| 100|1000|\n\
                    +----+----+----+----+\n";
    assert_eq!(render(&display), expected);
}

#[test]
fn board_renders_what_its_cells_show() {
    let rng = <StdRng as rand::SeedableRng>::from_seed([0u8; 32]);
    let cells = vec![vec![1, 0, 4, 7], vec![0, 0, 0, 0], vec![11, 10, 0, 2], vec![0, 3, 0, 0]];
    let board = match Board::load(cells, rng) {
        Ok(board) => board,
        Err(error) => panic!("not a grid: {:?}", error),
    };
    let expected = "+----+----+----+----+\n\
                    |   2|    |  16| 128|\n\
                    +----+----+----+----+\n\
                    |    |    |    |    |\n\
                    +----+----+----+----+\n\
                    |2048|1024|    |   4|\n\
                    +----+----+----+----+\n\
                    |    |   8|    |    |\n\
                    +----+----+----+----+\n";
    assert_eq!(board.render(), expected);
}
