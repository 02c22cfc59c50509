use hex_table::bb::{bb_fill, bb_nth_index, Bitboard, BitboardSet, ExactMcts};
use hex_table::hex::SIDE;
use hex_table::parse::{parse_board, parse_count, parse_unsigned, split_pair};
use hex_table::pretty::BitboardPretty;
use hex_table::xpm::{render_board, render_hex, XpmImage};

#[test]
fn test_bb_nth_index() {
    assert_eq!(bb_nth_index(0b11100, 0), 2);
    assert_eq!(bb_nth_index(0b11100, 1), 3);
    assert_eq!(bb_nth_index(0b11100, 2), 4);
    assert_eq!(bb_nth_index(0b101010, 0), 1);
    assert_eq!(bb_nth_index(0b101010, 1), 3);
    assert_eq!(bb_nth_index(0b101010, 2), 5);
}

fn cell(r: usize, c: usize) -> u128 {
    1 << (120 - 11 * r - c)
}

fn same(a: Bitboard, b: Bitboard) -> bool {
    a.black == b.black && a.white == b.white
}

#[test]
fn nth_index_reaches_the_last_bit() {
    assert_eq!(bb_nth_index(1 << 127, 0), 127);
    assert_eq!(bb_nth_index(u128::MAX, 127), 127);
    assert_eq!(bb_nth_index(u128::MAX, 0), 0);
}

#[test]
fn a_new_board_is_empty() {
    let b = Bitboard::new();
    assert!(b.sente());
    assert_eq!(b.depth(), 0);
    assert_eq!(b.win(), None);
    assert_eq!(SIDE * SIDE, 121);
    for r in 0..11 {
        for c in 0..11 {
            assert_eq!(b.rc(r, c), None);
        }
    }
    let BitboardSet(empty) = b.empty();
    assert_eq!(empty.count_ones(), 121);
}

#[test]
fn moves_alternate_and_leave_other_cells_alone() {
    let a = Bitboard::new().with_move(3, 4);
    assert!(!a.sente());
    assert_eq!(a.depth(), 1);
    assert_eq!(a.rc(3, 4), Some(true));
    let b = a.with_move(4, 3);
    assert!(b.sente());
    assert_eq!(b.depth(), 2);
    assert_eq!(b.rc(3, 4), Some(true));
    assert_eq!(b.idx(4 * 11 + 3), Some(false));
    assert!(!b.nth_child_valid(37));
    assert!(b.nth_child_valid(38));
    assert!(same(b.nth_child(38), b.with_move(3, 5)));
    assert_eq!(b.empty().0.count_ones(), 119);
}

#[test]
fn black_wins_from_left_to_right() {
    let mut b = Bitboard::new();
    for c in 0..11 {
        assert_eq!(b.win(), None);
        b = b.with_move(5, c);
        if c < 10 {
            b = b.with_move(0, c);
        }
    }
    assert_eq!(b.win(), Some(true));
}

#[test]
fn white_wins_from_top_to_bottom() {
    let mut b = Bitboard::new();
    for r in 0..11 {
        b = b.with_move(r, 0);
        b = b.with_move(r, 5);
    }
    assert_eq!(b.win(), Some(false));
}

#[test]
fn links_go_up_along_the_left_edge() {
    // White comes down column 1, turns back at (4, 0), climbs column 0 to (2, 0) and cannot go on;
    // what counts is that the climb itself is found.
    let start = cell(4, 0);
    let traversable = cell(4, 0) | cell(3, 0) | cell(2, 0);
    assert_eq!(bb_fill(start, traversable), traversable);
}

#[test]
fn the_fill_stays_inside_and_starts_on_the_traversable() {
    assert_eq!(bb_fill(cell(0, 0), 0), 0);
    // The last cell of a row is not next to the first cell of the row below it.
    let t = cell(0, 10) | cell(1, 0);
    assert_eq!(bb_fill(cell(0, 10), t), cell(0, 10));
    // But it is next to the cell below it, and to the one left of that.
    let t = cell(0, 10) | cell(1, 10) | cell(1, 9);
    assert_eq!(bb_fill(cell(1, 9), t), t);
}

#[test]
fn take_win_finds_the_first_winning_move() {
    let mut b = Bitboard::new();
    for c in 0..10 {
        b = b.with_move(5, c).with_move(0, c);
    }
    let won = b.take_win().unwrap();
    assert_eq!(won.win(), Some(true));
    // Both (4, 10) and (5, 10) win; (4, 10) comes first.
    assert_eq!(won.rc(4, 10), Some(true));
    assert_eq!(won.rc(5, 10), None);
    assert!(Bitboard::new().take_win().is_none());
}

#[test]
fn transposing_mirrors_swaps_and_undoes_itself() {
    let b = Bitboard::new().with_move(2, 7).with_move(9, 1).with_move(0, 10);
    let t = b.transpose();
    assert_eq!(t.rc(7, 2), Some(false));
    assert_eq!(t.rc(1, 9), Some(true));
    assert_eq!(t.rc(10, 0), Some(false));
    assert_eq!(t.sente(), !b.sente());
    assert_eq!(t.depth(), 3);
    assert!(same(t.transpose(), b));
    assert!(same(b.with_move(3, 4).transpose(), t.with_move(4, 3)));
}

#[test]
fn transposing_swaps_the_winner() {
    let mut b = Bitboard::new();
    for c in 0..11 {
        b = b.with_move(5, c).with_move(0, c);
    }
    assert_eq!(b.win(), Some(true));
    assert_eq!(b.transpose().win(), Some(false));
}

#[test]
fn a_win_lasts_when_play_goes_on() {
    let mut b = Bitboard::new();
    for c in 0..11 {
        b = b.with_move(5, c).with_move(0, c);
    }
    for n in 33..44 {
        b = b.nth_child(n);
        assert_eq!(b.win(), Some(true));
    }
}

#[test]
fn full_boards_have_one_winner() {
    let mut seed: u64 = 1;
    for _ in 0..200 {
        let mut b = Bitboard::new();
        let mut left: Vec<usize> = (0..121).collect();
        while !left.is_empty() {
            seed = seed.wrapping_mul(6364136223846793005).wrapping_add(1442695040888963407);
            let at = (seed >> 33) as usize % left.len();
            b = b.nth_child(left.remove(at));
        }
        assert_eq!(b.depth(), 121);
        let winner = b.win();
        assert!(winner.is_some());
        assert_eq!(b.transpose().win(), winner.map(|x| !x));
    }
}

#[test]
fn rollouts_deal_out_the_empty_cells() {
    let b = Bitboard::new();
    assert!(b.rollout_with(u128::MAX));
    assert!(!b.rollout_with(0));
    let row: u128 = (0..11).map(|c| cell(5, c)).sum();
    assert!(b.rollout_with(row));
    assert!(!b.rollout_with(row & !cell(5, 3)));
    // Cells that hold a stone are not dealt out.
    let blocked = b.with_move(0, 0).with_move(5, 3);
    assert!(!blocked.rollout_with(row));
    // Whatever is drawn, a decided game stays decided.
    let mut won = b;
    for c in 0..11 {
        won = won.with_move(5, c).with_move(0, c);
    }
    for _ in 0..20 {
        assert!(won.mcts_rollout());
        assert!(ExactMcts(won).mcts_rollout());
    }
    // An open game can end either way.
    let wins = (0..200).filter(|_| b.mcts_rollout()).count();
    assert!(wins > 0 && wins < 200);
}

#[test]
fn playouts_put_stones_where_they_are_told() {
    // The last empty cell of the board comes first.
    let zeros: Vec<usize> = vec![0; 121];
    let first = ExactMcts(Bitboard::new()).playout(&zeros);
    // Cells are filled from the end in turns: colors alternate along every row, starting with
    // black at (10, 10), so black holds the even cells.
    let mut b = Bitboard::new();
    for n in (0..121).rev() {
        b = b.nth_child(n);
    }
    assert_eq!(b.win(), Some(first));
    let mut won = Bitboard::new();
    for r in 0..11 {
        won = won.with_move(r, 0).with_move(r, 5);
    }
    let left = 121 - won.depth();
    let picks: Vec<usize> = (0..left).map(|i| left - 1 - i).collect();
    assert!(!ExactMcts(won).playout(&picks));
}

#[test]
fn moves_are_listed_in_order() {
    let b = Bitboard::new().with_move(0, 1);
    let moves = b.moves();
    assert_eq!(moves.len(), 120);
    assert_eq!(moves[0].0, 0);
    assert_eq!(moves[1].0, 2);
    assert_eq!(moves[119].0, 120);
    assert!(same(moves[1].1, b.nth_child(2)));
}

#[test]
fn the_board_is_shown_with_its_stones() {
    let b = Bitboard::new().with_move(0, 0).with_move(10, 10);
    let text = BitboardPretty(&b).text();
    let lines: Vec<&str> = text.split('\n').collect();
    assert_eq!(lines.len(), 13);
    assert_eq!(lines[0], "  a   b   c   d   e   f   g   h   i   j   k");
    assert_eq!(
        lines[1],
        " 1 \x1b[41m X \x1b[0m  .   .   .   .   .   .   .   .   .   .  1 "
    );
    assert_eq!(lines[2], "   2  .   .   .   .   .   .   .   .   .   .   .  2 ");
    assert_eq!(
        lines[11],
        "                    11  .   .   .   .   .   .   .   .   .   .  \x1b[44m O \x1b[0m 11"
    );
    assert_eq!(
        lines[12],
        "                          a   b   c   d   e   f   g   h   i   j   k"
    );
}

#[test]
fn boards_are_parsed() {
    let b = parse_board("b w . \n xyz b");
    assert_eq!(b.idx(0), Some(true));
    assert_eq!(b.idx(1), Some(false));
    assert_eq!(b.idx(2), None);
    assert_eq!(b.idx(3), Some(true));
    assert_eq!(b.depth(), 3);
    assert!(b.sente());
    let long: String = "w".repeat(130);
    assert_eq!(parse_board(&long).depth(), 121);
    assert!(same(parse_board(""), Bitboard::new()));
}

#[test]
fn numbers_are_parsed() {
    assert_eq!(parse_unsigned("0", 10), Some(0));
    assert_eq!(parse_unsigned("+7", 10), Some(7));
    assert_eq!(parse_unsigned("10", 10), Some(10));
    assert_eq!(parse_unsigned("11", 10), None);
    assert_eq!(parse_unsigned("5", 4), None);
    assert_eq!(parse_unsigned("", 10), None);
    assert_eq!(parse_unsigned("+", 10), None);
    assert_eq!(parse_unsigned("-1", 10), None);
    assert_eq!(parse_unsigned("1 ", 10), None);
    assert_eq!(parse_unsigned("18446744073709551615", u64::MAX), Some(u64::MAX));
    assert_eq!(parse_unsigned("18446744073709551616", u64::MAX), None);
    assert_eq!(parse_unsigned("99999999999999999999999", u64::MAX), None);
    for text in ["0", "007", "+12", "a", "", "18446744073709551615", "1_000"] {
        assert_eq!(parse_count(text), text.parse::<usize>().ok());
    }
}

#[test]
fn pairs_are_split_at_the_first_comma() {
    assert_eq!(split_pair("0.0,3.0"), Some(("0.0", "3.0")));
    assert_eq!(split_pair("a,b,c"), Some(("a", "b,c")));
    assert_eq!(split_pair(","), Some(("", "")));
    assert_eq!(split_pair("abc"), None);
}

#[test]
fn images_are_written_as_xpm() {
    let mut im = XpmImage::new(3, 2, vec![(0, 0, 0), (255, 16, 1)]);
    im.put(1, 0, 1);
    im.put(2, 1, 1);
    im.put(3, 0, 1);
    im.put(0, 2, 1);
    assert_eq!(
        im.text(),
        "/* XPM */\nstatic char * IMAGE[] = {\n\"3 2 2 1\",\n\"a c #000000\",\n\"b c #ff1001\",\n\"aba\",\n\"aab\",\n};\n"
    );
}

#[test]
fn hexes_are_drawn_with_an_outline() {
    let rows = |im: &XpmImage, n: usize| -> Vec<String> {
        im.text().lines().skip(6).take(n).map(|x| x.to_string()).collect()
    };
    let mut im = XpmImage::new(10, 8, vec![(0, 0, 0), (1, 1, 1), (2, 2, 2)]);
    render_hex(&mut im, 2, 0, 0, Some(2), Some(1));
    assert_eq!(
        rows(&im, 8),
        vec![
            "\"abbbbbbaaa\",",
            "\"abccccbaaa\",",
            "\"bccccccbaa\",",
            "\"bccccccbaa\",",
            "\"bccccccbaa\",",
            "\"abccccbaaa\",",
            "\"abbbbbbaaa\",",
            "\"aaaaaaaaaa\",",
        ]
    );
    // A hex of scale 3 has 12 columns and 11 rows.
    let mut im = XpmImage::new(14, 12, vec![(0, 0, 0), (1, 1, 1), (2, 2, 2)]);
    render_hex(&mut im, 3, 0, 0, Some(1), Some(2));
    assert_eq!(
        rows(&im, 12),
        vec![
            "\"aaccccccccaaaa\",",
            "\"aacbbbbbbcaaaa\",",
            "\"acbbbbbbbbcaaa\",",
            "\"acbbbbbbbbcaaa\",",
            "\"cbbbbbbbbbbcaa\",",
            "\"cbbbbbbbbbbcaa\",",
            "\"cbbbbbbbbbbcaa\",",
            "\"acbbbbbbbbcaaa\",",
            "\"acbbbbbbbbcaaa\",",
            "\"aacbbbbbbcaaaa\",",
            "\"aaccccccccaaaa\",",
            "\"aaaaaaaaaaaaaa\",",
        ]
    );
    // Without a stroke the outline has the color of the inside; without both nothing is drawn.
    let mut im = XpmImage::new(10, 8, vec![(0, 0, 0), (1, 1, 1), (2, 2, 2)]);
    render_hex(&mut im, 2, 1, 1, None, None);
    assert!(rows(&im, 8).iter().all(|l| l == "\"aaaaaaaaaa\","));
    render_hex(&mut im, 2, 1, 1, Some(2), None);
    assert_eq!(rows(&im, 8)[1], "\"aaccccccaa\",");
}

#[test]
fn boards_are_rendered() {
    let b = Bitboard::new().with_move(0, 0).with_move(10, 10);
    let im = render_board(b, 1);
    let text = im.text();
    let lines: Vec<&str> = text.lines().collect();
    assert_eq!(lines[2], "\"128 47 4 1\",");
    assert_eq!(lines[3], "\"a c #1c1c1c\",");
    assert_eq!(lines[4], "\"b c #404040\",");
    assert_eq!(lines[5], "\"c c #ed004c\",");
    assert_eq!(lines[6], "\"d c #0099ea\",");
    let pixels = &lines[7..54];
    // The hex of (0, 0) is at (2, 22), 4 wide and 3 high; its middle row is filled.
    assert_eq!(&pixels[22][1 + 2..1 + 6], "bbbb");
    assert_eq!(&pixels[23][1 + 2..1 + 6], "bccb");
    assert_eq!(&pixels[24][1 + 2..1 + 6], "bbbb");
    // The hex of (10, 10) is at (122, 22).
    assert_eq!(&pixels[23][1 + 122..1 + 126], "bddb");
    // The hex of (0, 10) is at (62, 2), that of (10, 0) at (62, 42).
    assert_eq!(&pixels[3][1 + 62..1 + 66], "baab");
    assert_eq!(&pixels[43][1 + 62..1 + 66], "baab");
    assert!(pixels[1].chars().all(|c| c == 'a' || c == '"' || c == ','));
}
