use halite_navi::game_map::GameMap;
use halite_navi::peak::{find_peaks, process_window, BufferClass, PeakProcess};

fn line(values: Vec<usize>) -> GameMap {
    GameMap::new(1, values.len(), values.into_iter().map(|v| vec![v]).collect()).unwrap()
}

#[test]
fn windows_are_classified() {
    let map = line(vec![1, 5, 2, 2, 7, 7, 3, 0, 0, 9]);
    assert_eq!(process_window(0, 1, &map), Some(PeakProcess::Maximum));
    assert_eq!(process_window(0, 2, &map), Some(PeakProcess::BufferBegin(BufferClass::Min)));
    assert_eq!(process_window(0, 3, &map), Some(PeakProcess::BufferEnd(BufferClass::Min)));
    assert_eq!(process_window(0, 4, &map), Some(PeakProcess::BufferBegin(BufferClass::Max)));
    assert_eq!(process_window(0, 5, &map), Some(PeakProcess::BufferEnd(BufferClass::Max)));
    assert_eq!(process_window(0, 6, &map), None);
    assert_eq!(process_window(0, 8, &map), Some(PeakProcess::BufferEnd(BufferClass::Min)));
    assert_eq!(process_window(0, 9, &map), Some(PeakProcess::Maximum));
    assert_eq!(process_window(0, 0, &map), None);
    assert_eq!(process_window(0, 10, &map), None);
    assert_eq!(process_window(0, 11, &map), Some(PeakProcess::Maximum));
}

#[test]
fn flat_line_has_no_windows() {
    let map = line(vec![4, 4, 4]);
    for col in 0..3 {
        assert_eq!(process_window(0, col, &map), None);
    }
}

#[test]
fn peaks_of_a_single_line() {
    let map = GameMap::new(10, 1, vec![vec![0; 10]]).unwrap();
    assert_eq!(find_peaks(&map), Vec::<(i32, i32)>::new());
}

#[test]
fn peaks_are_maxima_and_ends_of_high_plateaus() {
    let rows = vec![
        vec![1, 0, 0, 0],
        vec![5, 0, 0, 0],
        vec![2, 0, 9, 0],
        vec![2, 0, 0, 0],
    ];
    let map = GameMap::new(4, 4, rows).unwrap();
    assert_eq!(find_peaks(&map), vec![(0, 1), (2, 2)]);
    let rows = vec![
        vec![1, 3, 0, 0],
        vec![7, 3, 0, 0],
        vec![7, 1, 0, 0],
        vec![2, 1, 0, 0],
    ];
    let map = GameMap::new(4, 4, rows).unwrap();
    assert_eq!(find_peaks(&map), vec![(0, 2), (1, 1)]);
}

#[test]
fn plateau_that_began_before_the_line_started_gives_no_peak() {
    let rows = vec![
        vec![5, 0, 0, 0],
        vec![1, 0, 0, 0],
        vec![0, 0, 0, 0],
        vec![5, 0, 0, 0],
    ];
    let map = GameMap::new(4, 4, rows).unwrap();
    assert_eq!(process_window(0, 0, &map), Some(PeakProcess::BufferEnd(BufferClass::Max)));
    assert_eq!(find_peaks(&map), Vec::<(i32, i32)>::new());
}

#[test]
fn lines_wrap_on_a_grid_that_is_higher_than_wide() {
    let rows = vec![
        vec![1, 0, 0],
        vec![5, 0, 0],
        vec![2, 0, 9],
        vec![2, 0, 0],
    ];
    let map = GameMap::new(3, 4, rows).unwrap();
    assert_eq!(find_peaks(&map), vec![(0, 1), (2, 2), (3, 1)]);
}
