use puzzlegrid::array2d::Array2d;
use puzzlegrid::array2d::IndexOutOfRange;

#[test]
fn dimensions_hold_for_lifetime() {
    let mut g: Array2d<u8> = Array2d::new(4, 3);
    assert_eq!(g.width(), 4);
    assert_eq!(g.height(), 3);
    g.put(1, 2, 9);
    g.fill(5);
    assert_eq!(g.width(), 4);
    assert_eq!(g.height(), 3);
}

#[test]
fn default_fill_reads_default_everywhere() {
    let g: Array2d<u32> = Array2d::new(3, 2);
    for y in 0..2 {
        for x in 0..3 {
            assert_eq!(g.get(x, y), 0);
        }
    }
}

#[test]
fn out_of_bounds_reads_yield_default() {
    let mut g: Array2d<i32> = Array2d::new_value(2, 2, 7);
    g.put(0, 0, -3);
    assert_eq!(g.get(2, 0), 0);
    assert_eq!(g.get(0, 2), 0);
    assert_eq!(g.get(usize::MAX, usize::MAX), 0);
    assert_eq!(g.get_opt(2, 0), None);
    assert_eq!(g.get_opt(1, 1), Some(&7));
}

#[test]
fn put_then_get_round_trips_and_leaves_others() {
    let mut g: Array2d<u8> = Array2d::new_value(3, 3, 1);
    g.put(2, 1, 42);
    assert_eq!(g.get(2, 1), 42);
    for y in 0..3 {
        for x in 0..3 {
            if (x, y) != (2, 1) {
                assert_eq!(g.get(x, y), 1);
            }
        }
    }
}

#[test]
fn out_of_bounds_put_is_a_no_op() {
    let mut g: Array2d<u8> = Array2d::new_value(2, 2, 3);
    g.put(2, 0, 9);
    g.put(0, 2, 9);
    g.put(usize::MAX, 0, 9);
    for y in 0..2 {
        for x in 0..2 {
            assert_eq!(g.get(x, y), 3);
        }
    }
}

#[test]
fn strict_access_fails_exactly_out_of_bounds() {
    let mut g: Array2d<u8> = Array2d::new_value(2, 2, 3);
    assert_eq!(g.index(1, 1), Ok(3));
    assert_eq!(
        g.index(2, 1),
        Err(IndexOutOfRange { x: 2, y: 1, width: 2, height: 2 })
    );
    assert_eq!(g.index_assign(0, 1, 8), Ok(()));
    assert_eq!(g.get(0, 1), 8);
    assert_eq!(
        g.index_assign(0, 2, 9),
        Err(IndexOutOfRange { x: 0, y: 2, width: 2, height: 2 })
    );
    for y in 0..2 {
        for x in 0..2 {
            assert!(g.index(x, y).is_ok());
        }
    }
}

#[test]
fn iteration_is_row_major_and_complete() {
    let g: Array2d<u8> = Array2d::new(3, 2);
    let mut it = g.iter_xy();
    let mut seen = Vec::new();
    while let Some(xy) = it.next() {
        seen.push(xy);
    }
    assert_eq!(seen, vec![(0, 0), (1, 0), (2, 0), (0, 1), (1, 1), (2, 1)]);
    // A fresh cursor restarts from the beginning.
    let mut it2 = g.iter_xy();
    assert_eq!(it2.next(), Some((0, 0)));
}

#[test]
fn iteration_of_degenerate_grids_is_empty() {
    let g: Array2d<u8> = Array2d::new(0, 5);
    let mut it = g.iter_xy();
    assert_eq!(it.next(), None);
    let g2: Array2d<u8> = Array2d::new(5, 0);
    let mut it2 = g2.iter_xy();
    assert_eq!(it2.next(), None);
}

#[test]
fn render_round_trips_generated_grid() {
    let mut g: Array2d<u8> = Array2d::new(4, 3);
    g.fill_with(|x, y| (x + 2 * y) as u8);
    let s = g.to_string(|v| (b'a' + *v) as char);
    let lines: Vec<&str> = s.split('\n').collect();
    assert_eq!(lines.len(), 3);
    for (y, line) in lines.iter().enumerate() {
        assert_eq!(line.len(), 4);
        for (x, c) in line.chars().enumerate() {
            assert_eq!((c as u8 - b'a') as usize, x + 2 * y);
        }
    }
}

#[test]
fn empty_grid_renders_to_empty_string() {
    let g: Array2d<u8> = Array2d::new(0, 0);
    assert_eq!(g.to_string(|_| '#'), "");
}

#[test]
fn generated_grid_scenario() {
    let g: Array2d<usize> = Array2d::new_with(3, 2, |x, y| x + y * 10);
    assert_eq!(g.get(0, 0), 0);
    assert_eq!(g.get(2, 0), 2);
    assert_eq!(g.get(0, 1), 10);
    assert_eq!(g.get(2, 1), 12);
    assert_eq!(g.get(3, 0), 0);
    let s = g.to_string(|v| (b'0' + *v as u8) as char);
    assert_eq!(s, "012\n:;<");
}

#[test]
fn fill_overwrites_every_cell() {
    let mut g: Array2d<u8> = Array2d::new_with(2, 2, |x, y| (x + y) as u8);
    g.fill(9);
    for y in 0..2 {
        for x in 0..2 {
            assert_eq!(g.get(x, y), 9);
        }
    }
}

#[test]
fn zero_width_rows_render_as_separators_only() {
    let g: Array2d<u8> = Array2d::new(0, 3);
    assert_eq!(g.to_string(|_| '#'), "\n\n");
}

#[test]
fn exhausted_cursor_stays_exhausted() {
    let g: Array2d<u8> = Array2d::new(1, 1);
    let mut it = g.iter_xy();
    assert_eq!(it.next(), Some((0, 0)));
    assert_eq!(it.next(), None);
    assert_eq!(it.next(), None);
}
