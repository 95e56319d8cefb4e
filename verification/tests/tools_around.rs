use tools::codec::{cache_from_wide, cache_to_wide, decode_cache, encode_cache, CodecError};
use tools::dat::{read_le_u32, unpack_dat, DatError};
use tools::flag::{decode_flag, decode_row, flag_text, FlagError};
use tools::labels::{labelled_cells, letter_of, rank_of, SHAPE_ALPHABET};
use tools::paint::{color_of, render_window};
use tools::picture::show_shape;
use tools::seeding::{
    check_seed, read_solution_string, seed_solutions, solution_string_to_solution, SeedError,
};
use tools::seeds::{seed_range, steps_of};
use tools::window::{show_at, text_of, RenderError};
use tools::{Grid, GroupCache, Shape, TileStore, H, W};

fn grid_with(rows: &[&[u8]]) -> Grid {
    let height = rows.len();
    let width = rows[0].len();
    let mut data = Vec::new();
    for row in rows {
        assert_eq!(row.len(), width);
        data.extend_from_slice(row);
    }
    Grid::from_bytes(width, height, data).unwrap()
}

fn shape_of(group: &[(usize, usize)], solutions: Option<Vec<Vec<(usize, usize)>>>) -> Shape {
    Shape { group: group.to_vec(), solutions, parent: None, used_solutions: None }
}

fn text(rows: &[Vec<char>]) -> Vec<String> {
    rows.iter().map(|r| r.iter().collect()).collect()
}

#[test]
fn puzzle_dimensions() {
    assert_eq!(W, 17268);
    assert_eq!(H, 90300);
}

#[test]
fn dat_header_is_little_endian() {
    assert_eq!(read_le_u32(&[0x74, 0x43, 0x00, 0x00], 0), 17268);
    assert_eq!(read_le_u32(&[0xff, 0xbc, 0x60, 0x01, 0x00], 1), 90300);
    assert_eq!(read_le_u32(&[0xff, 0xff, 0xff, 0xff], 0), u32::MAX);
}

#[test]
fn dat_unpacks_high_nibble_first() {
    let data = [4, 0, 0, 0, 2, 0, 0, 0, 0x01, 0x23, 0x5a, 0x70];
    assert_eq!(unpack_dat(&data, 4, 2), Ok(vec![0, 1, 2, 3, 5, 10, 7, 0]));
    let grid = Grid::from_bytes(4, 2, unpack_dat(&data, 4, 2).unwrap()).unwrap();
    assert_eq!(grid.get(1, 1), 10);
}

#[test]
fn dat_rejects_bad_input() {
    assert_eq!(unpack_dat(&[4, 0, 0, 0, 2, 0, 0], 4, 2), Err(DatError::NoHeader));
    let data = [4, 0, 0, 0, 2, 0, 0, 0, 0, 0, 0, 0];
    assert_eq!(
        unpack_dat(&data, 2, 4),
        Err(DatError::WrongDimensions { width: 4, height: 2 })
    );
    assert_eq!(unpack_dat(&data[..11], 4, 2), Err(DatError::WrongLength));
    let odd = [3, 0, 0, 0, 1, 0, 0, 0, 0x12];
    assert_eq!(unpack_dat(&odd, 3, 1), Err(DatError::OddCellCount));
    let empty = [0, 0, 0, 0, 0, 0, 0, 0];
    assert_eq!(unpack_dat(&empty, 0, 0), Ok(vec![]));
}

#[test]
fn flag_decoding() {
    // 'O' = 0x4f and 'k' = 0x6b, one bit every third column from column 2 on
    let bits = [0, 1, 0, 0, 1, 1, 1, 1, 0, 1, 1, 0, 1, 0, 1, 1];
    let mut row = vec![0u8; 2 + 3 * 16];
    for (k, bit) in bits.iter().enumerate() {
        row[2 + 3 * k] = if *bit == 1 { 7 } else { 6 };
    }
    let grid = grid_with(&[&vec![0u8; 50], &row]);
    let bytes = decode_row(&grid, 1, 2, 3, 2).unwrap();
    assert_eq!(bytes, vec![0x4f, 0x6b]);
    let shown: String = flag_text(&bytes).into_iter().collect();
    assert_eq!(shown, "CTF{Ok}");
    assert_eq!(decode_row(&grid, 1, 2, 3, 0), Ok(vec![]));
    assert_eq!(decode_row(&grid, 1, 5, 3, 1), Ok(vec![0b1001_1110]));
}

#[test]
fn flag_errors() {
    let mut row = vec![6u8; 24];
    row[9] = 5;
    row[3] = 0;
    let grid = grid_with(&[&row]);
    // read from the right, the undecided sample in column 9 comes first
    assert_eq!(decode_row(&grid, 0, 0, 3, 1), Err(FlagError::Undecided { x: 9, tile: 5 }));
    assert_eq!(decode_row(&grid, 0, 0, 1, 1), Err(FlagError::Undecided { x: 3, tile: 0 }));
    assert_eq!(decode_row(&grid, 1, 0, 1, 1), Err(FlagError::OutOfBounds));
    assert_eq!(decode_row(&grid, 0, 17, 1, 1), Err(FlagError::OutOfBounds));
    assert_eq!(decode_row(&grid, 0, 16, 1, 1), Ok(vec![0]));
    assert_eq!(decode_row(&grid, 0, 23, 0, 1), Ok(vec![0]));
    assert_eq!(decode_flag(&grid), Err(FlagError::OutOfBounds));
}

#[test]
fn flag_of_the_full_row() {
    let width = 17268;
    let mut data = vec![0u8; width * 6];
    let message = b"a flag of forty-six bytes, not a letter more.!";
    assert_eq!(message.len(), 46);
    for (m, byte) in message.iter().enumerate() {
        for i in 0..8 {
            let x = 8427 + 24 * (8 * m + i);
            data[5 * width + x] = if (byte >> (7 - i)) & 1 == 1 { 7 } else { 6 };
        }
    }
    assert_eq!(8427 + 24 * (8 * 45 + 7), 17235);
    let grid = Grid::from_bytes(width, 6, data).unwrap();
    assert_eq!(decode_flag(&grid).unwrap(), message.to_vec());
}

#[test]
fn alphabet_letters() {
    let letters: String = (0..36).map(letter_of).collect();
    assert_eq!(letters, SHAPE_ALPHABET);
    for (k, c) in SHAPE_ALPHABET.chars().enumerate() {
        assert_eq!(rank_of(c), Some(k));
    }
    for c in ['a', ' ', '/', ':', '@', '[', 'é'] {
        assert_eq!(rank_of(c), None);
    }
}

#[test]
fn cells_are_lettered_row_by_row() {
    let group = [(0, 0), (0, 1), (1, 1), (2, 0), (2, 1)];
    assert_eq!(labelled_cells(&group), vec![(0, 0), (2, 0), (0, 1), (1, 1), (2, 1)]);
    assert_eq!(labelled_cells(&[(1, 1), (1, 1), (0, 0)]), vec![(0, 0), (1, 1)]);
}

#[test]
fn seed_string_names_active_cells() {
    let shape = shape_of(&[(0, 0), (0, 1), (1, 1), (2, 0), (2, 1)], None);
    assert_eq!(solution_string_to_solution("13", &shape), vec![(2, 0), (1, 1)]);
    assert_eq!(solution_string_to_solution("31", &shape), vec![(2, 0), (1, 1)]);
    assert_eq!(solution_string_to_solution("", &shape), vec![]);
    assert_eq!(
        solution_string_to_solution("01234", &shape),
        vec![(0, 0), (2, 0), (0, 1), (1, 1), (2, 1)]
    );
    assert_eq!(solution_string_to_solution("0110", &shape), vec![(0, 0), (2, 0)]);
    assert_eq!(read_solution_string("13", &shape), Ok(vec![(2, 0), (1, 1)]));
}

#[test]
fn seed_string_errors() {
    let shape = shape_of(&[(0, 0), (1, 0)], None);
    assert_eq!(
        read_solution_string("02", &shape),
        Err(SeedError::LetterNotInShape { at: 1 })
    );
    assert_eq!(
        read_solution_string("x0", &shape),
        Err(SeedError::LetterNotInShape { at: 0 })
    );
    assert_eq!(read_solution_string("0", &shape_of(&[], None)), Err(SeedError::EmptyShape));
    let wide: Vec<(usize, usize)> = (0..37).map(|x| (x, 0)).collect();
    assert_eq!(
        read_solution_string("0", &shape_of(&wide, None)),
        Err(SeedError::TooManyCells)
    );
    let full: Vec<(usize, usize)> = (0..36).map(|x| (x, 0)).collect();
    assert_eq!(read_solution_string("Z", &shape_of(&full, None)), Ok(vec![(35, 0)]));
}

#[test]
fn seeds_are_checked_as_a_whole() {
    let strings = |v: &[&str]| v.iter().map(|s| s.to_string()).collect::<Vec<String>>();
    assert_eq!(check_seed(&strings(&["01", "1", "", "0"])), Ok(()));
    assert_eq!(
        check_seed(&strings(&["01", "1a"])),
        Err(SeedError::UnknownLetter { solution: 1, at: 1 })
    );
    assert_eq!(
        check_seed(&strings(&["01", "121"])),
        Err(SeedError::DuplicateLetter { solution: 1, at: 2 })
    );
    assert_eq!(
        check_seed(&strings(&["01", "2", "10"])),
        Err(SeedError::DuplicateSolution { solution: 2 })
    );
    assert_eq!(check_seed(&strings(&["", ""])), Err(SeedError::DuplicateSolution { solution: 1 }));
    let shape = shape_of(&[(0, 0), (1, 0), (1, 1)], None);
    assert_eq!(
        seed_solutions(&shape, &strings(&["0", "12", ""])),
        Ok(vec![vec![(0, 0)], vec![(1, 0), (1, 1)], vec![]])
    );
    assert_eq!(
        seed_solutions(&shape, &strings(&["0", "3"])),
        Err(SeedError::LetterNotInShape { at: 0 })
    );
    assert_eq!(
        seed_solutions(&shape, &strings(&["0", "0"])),
        Err(SeedError::DuplicateSolution { solution: 1 })
    );
}

#[test]
fn shape_pictures() {
    let shape = shape_of(
        &[(0, 0), (0, 1), (1, 1), (2, 0), (2, 1)],
        Some(vec![vec![(0, 0), (1, 1)], vec![]]),
    );
    let picture = show_shape(&shape).unwrap();
    assert_eq!(text(&picture.outline), vec!["0 1", "234"]);
    let solutions = picture.solutions.unwrap();
    assert_eq!(solutions.len(), 2);
    assert_eq!(text(&solutions[0]), vec!["# .", ".#."]);
    assert_eq!(text(&solutions[1]), vec![". .", "..."]);
    let bare = show_shape(&shape_of(&[(1, 2)], None)).unwrap();
    assert_eq!(text(&bare.outline), vec!["  ", "  ", " 0"]);
    assert!(bare.solutions.is_none());
    assert!(show_shape(&shape_of(&[], None)).is_none());
    let wide: Vec<(usize, usize)> = (0..37).map(|x| (x, 0)).collect();
    assert!(show_shape(&shape_of(&wide, None)).is_none());
    let full: Vec<(usize, usize)> = (0..36).map(|x| (x % 6, x / 6)).collect();
    let rows = text(&show_shape(&shape_of(&full, None)).unwrap().outline);
    assert_eq!(rows, vec!["012345", "6789AB", "CDEFGH", "IJKLMN", "OPQRST", "UVWXYZ"]);
}

#[test]
fn text_view_around_a_cell() {
    let grid = grid_with(&[&[0, 1, 2, 3, 5], &[6, 7, 10, 0, 0], &[5, 5, 5, 5, 5]]);
    assert_eq!(text_of(3), Some("2"));
    assert_eq!(text_of(8), None);
    let rows = show_at(&grid, 1, 1, 1).unwrap();
    assert_eq!(rows, vec![" 0", "\x1b[37;2m.\x1b[0m\x1b[31;1m\x1b[33;1m#\x1b[0m\x1b[0m"]);
    let rows = show_at(&grid, 4, 0, 2).unwrap();
    assert_eq!(rows, vec!["12\x1b[31;1m#\x1b[0m", "?  "]);
    let rows = show_at(&grid, 2, 2, 10).unwrap();
    assert_eq!(rows.len(), 3);
    assert_eq!(rows[2], "##\x1b[31;1m#\x1b[0m##");
    assert_eq!(show_at(&grid, 1, 1, 0), Ok(vec![]));
    assert_eq!(show_at(&grid, 9, 9, 2), Ok(vec![]));
    assert_eq!(show_at(&grid, 9, 1, 2), Ok(vec!["".to_string(), "".to_string(), "".to_string()]));
    let orange = grid_with(&[&[0, 8], &[9 - 4, 8]]);
    assert_eq!(
        show_at(&orange, 0, 0, 5),
        Err(RenderError::UnexpectedTile { x: 1, y: 0, tile: 8 })
    );
}

#[test]
fn palette() {
    assert_eq!(color_of(0), (0, 0, 0));
    assert_eq!(color_of(1), (255, 0, 0));
    assert_eq!(color_of(2), (255, 255, 0));
    assert_eq!(color_of(3), (0, 255, 0));
    assert_eq!(color_of(5), (255, 255, 255));
    assert_eq!(color_of(6), (0, 0, 255));
    assert_eq!(color_of(7), (128, 128, 128));
    assert_eq!(color_of(8), (231, 141, 14));
    assert_eq!(color_of(10), (255, 0, 255));
    assert_eq!(color_of(4), (0, 0, 255));
}

#[test]
fn picture_of_a_window() {
    let grid = grid_with(&[&[0, 1, 2], &[3, 5, 7], &[8, 10, 6]]);
    let p = render_window(&grid, 1, 3, 1, 2).unwrap();
    assert_eq!((p.width, p.height), (2, 1));
    assert_eq!(p.pixels, vec![255, 255, 255, 128, 128, 128]);
    let p = render_window(&grid, 1, 9, 0, 9).unwrap();
    assert_eq!((p.width, p.height), (2, 3));
    assert_eq!(
        p.pixels,
        vec![255, 0, 0, 255, 255, 0, 255, 255, 255, 128, 128, 128, 255, 0, 255, 0, 0, 255]
    );
    let p = render_window(&grid, 3, 3, 3, 8).unwrap();
    assert_eq!((p.width, p.height, p.pixels.len()), (0, 0, 0));
    assert!(render_window(&grid, 2, 1, 0, 1).is_none());
    assert!(render_window(&grid, 0, 1, 2, 1).is_none());
    assert!(render_window(&grid, 4, 5, 0, 1).is_none());
}

#[test]
fn cache_round_trip_through_cbor() {
    let mut cache = GroupCache::new();
    cache.insert(3, 4, ((1, 2), 7));
    cache.insert(17000, 90000, ((16999, 89998), 123456));
    cache.insert(0, 0, ((0, 0), 0));
    cache.insert(3, 4, ((1, 2), 9));
    let bytes = encode_cache(&cache);
    // an array of three entries, the first being [[3, 4], [[1, 2], 9]]
    assert_eq!(bytes[0], 0x83);
    assert_eq!(&bytes[1..10], &[0x82, 0x82, 0x03, 0x04, 0x82, 0x82, 0x01, 0x02, 0x09]);
    let again = decode_cache(&bytes).unwrap();
    assert_eq!(again.entries(), cache.entries());
    assert_eq!(encode_cache(&again), bytes);
    let empty = encode_cache(&GroupCache::new());
    assert_eq!(empty, vec![0x80]);
    assert_eq!(decode_cache(&empty).unwrap().len(), 0);
}

#[test]
fn cache_decoding_errors() {
    assert_eq!(decode_cache(&[]).err(), Some(CodecError::Malformed));
    assert_eq!(decode_cache(&[0x83, 0x01]).err(), Some(CodecError::Malformed));
    assert_eq!(decode_cache(&[0x80, 0x00]).err(), Some(CodecError::Malformed));
    let wide = vec![((1, 2), ((0, 0), 5)), ((1u64 << 32, 0), ((0, 0), 5))];
    assert_eq!(cache_from_wide(&wide).err(), Some(CodecError::TooLarge { index: 1 }));
    let fine = vec![((1, 2), ((0, 0), 5)), ((1, 2), ((0, 1), 6)), ((u32::MAX as u64, 0), ((9, 9), 1))];
    let cache = cache_from_wide(&fine).unwrap();
    assert_eq!(cache.get(1, 2), Some(((0, 1), 6)));
    assert_eq!(cache_to_wide(&cache), vec![fine[1], fine[2]]);
}

#[test]
fn seed_ranges() {
    assert_eq!(steps_of(2, 9, 3, 100), vec![2, 5, 8]);
    assert_eq!(steps_of(2, 9, 3, 6), vec![2, 5]);
    assert_eq!(steps_of(4, 4, 1, 5), vec![4]);
    assert_eq!(steps_of(5, 4, 1, 9), Vec::<usize>::new());
    assert_eq!(steps_of(usize::MAX - 1, usize::MAX, 5, usize::MAX), vec![usize::MAX - 1]);
    assert_eq!(
        seed_range(1, 4, 0, 2, 2, 1, 10, 10),
        vec![(1, 0), (1, 1), (1, 2), (3, 0), (3, 1), (3, 2)]
    );
    assert_eq!(seed_range(1, 4, 0, 2, 2, 1, 3, 2), vec![(1, 0), (1, 1)]);
    assert_eq!(seed_range(7, 7, 9, 9, 1, 1, 10, 10), vec![(7, 9)]);
    assert_eq!(seed_range(7, 7, 9, 9, 1, 1, 7, 10), vec![]);
}
