use floating_layer::forest::{get_window_group, LayerWindow};
use floating_layer::geometry::PixelRect;
use floating_layer::grouping::{group_windows_with_regions};
use floating_layer::window::{GridSize, Window, WindowType};

fn group_windows(regions: &Vec<PixelRect>) -> Vec<Vec<usize>> {
    let windows: Vec<Window> = regions
        .iter()
        .enumerate()
        .map(|(i, region)| Window {
            id: 100 + i as u64,
            region: *region,
            grid_size: GridSize { width: 10, height: 5 },
            window_type: WindowType::Editor,
            has_transparency: false,
        })
        .collect();
    floating_layer::grouping::group_windows(&windows)
}

fn fresh(n: usize) -> Vec<LayerWindow> {
    (0..n).map(|i| LayerWindow { window: i, group: i }).collect()
}

fn groups_of(windows: &[LayerWindow]) -> Vec<usize> {
    let mut copy = windows.to_vec();
    (0..copy.len()).map(|i| get_window_group(&mut copy, i)).collect()
}

#[test]
fn no_windows_make_no_groups() {
    let groups = group_windows(&Vec::new());
    assert!(groups.is_empty());
}

#[test]
fn single_window_is_its_own_group() {
    let groups = group_windows(&vec![PixelRect::new(0, 0, 10, 10)]);
    assert_eq!(groups, vec![vec![0]]);
}

#[test]
fn disjoint_windows_make_two_groups() {
    let regions = vec![PixelRect::new(0, 0, 10, 10), PixelRect::new(100, 100, 110, 110)];
    assert_eq!(group_windows(&regions), vec![vec![0], vec![1]]);
}

#[test]
fn windows_sharing_an_edge_make_one_group() {
    let regions = vec![PixelRect::new(0, 0, 10, 10), PixelRect::new(10, 0, 20, 10)];
    assert_eq!(group_windows(&regions), vec![vec![0, 1]]);
}

#[test]
fn windows_one_pixel_apart_stay_apart() {
    let regions = vec![PixelRect::new(0, 0, 10, 10), PixelRect::new(11, 0, 20, 10)];
    assert_eq!(group_windows(&regions), vec![vec![0], vec![1]]);
}

#[test]
fn chain_of_three_makes_one_group() {
    // the first and the last do not touch, the middle one touches both
    let regions = vec![
        PixelRect::new(0, 0, 10, 10),
        PixelRect::new(10, 0, 20, 10),
        PixelRect::new(20, 0, 30, 10),
    ];
    assert!(!regions[0].touches(&regions[2]));
    assert_eq!(group_windows(&regions), vec![vec![0, 1, 2]]);
}

#[test]
fn chain_is_found_in_any_order_of_the_windows() {
    // the link between the first two windows is the last window
    let regions = vec![
        PixelRect::new(0, 0, 10, 10),
        PixelRect::new(20, 0, 30, 10),
        PixelRect::new(10, 0, 20, 10),
    ];
    assert_eq!(group_windows(&regions), vec![vec![0, 1, 2]]);
}

#[test]
fn groups_come_in_the_order_of_their_first_window() {
    let regions = vec![
        PixelRect::new(0, 0, 10, 10),
        PixelRect::new(100, 100, 110, 110),
        PixelRect::new(5, 5, 15, 15),
        PixelRect::new(105, 105, 120, 120),
        PixelRect::new(500, 0, 510, 10),
    ];
    assert_eq!(group_windows(&regions), vec![vec![0, 2], vec![1, 3], vec![4]]);
}

#[test]
fn later_groups_merge_into_the_earlier_one() {
    // 1 and 2 come together first, then 3 ties them to 0
    let regions = vec![
        PixelRect::new(0, 0, 10, 10),
        PixelRect::new(30, 0, 40, 10),
        PixelRect::new(40, 0, 50, 10),
        PixelRect::new(10, 0, 30, 10),
        PixelRect::new(0, 50, 10, 60),
    ];
    assert_eq!(group_windows(&regions), vec![vec![0, 1, 2, 3], vec![4]]);
}

#[test]
fn grouping_twice_gives_the_same_groups() {
    let regions = vec![
        PixelRect::new(0, 0, 10, 10),
        PixelRect::new(100, 100, 110, 110),
        PixelRect::new(5, 5, 15, 15),
        PixelRect::new(10, 10, 100, 100),
        PixelRect::new(-50, -50, -20, -20),
    ];
    let first = group_windows(&regions);
    let second = group_windows(&regions);
    assert_eq!(first, second);
    assert_eq!(first, vec![vec![0, 1, 2, 3], vec![4]]);
}

#[test]
fn every_window_is_in_exactly_one_group() {
    let regions: Vec<PixelRect> = (0..12)
        .map(|i: i32| {
            let x = (i % 4) * 25;
            let y = (i / 4) * 11;
            PixelRect::new(x, y, x + 10, y + 10)
        })
        .collect();
    let groups = group_windows(&regions);
    let mut seen = vec![0; regions.len()];
    for group in &groups {
        assert!(!group.is_empty());
        for pair in group.windows(2) {
            assert!(pair[0] < pair[1]);
        }
        for &window in group {
            seen[window] += 1;
        }
    }
    assert_eq!(seen, vec![1; regions.len()]);
    // the columns are 15 pixels apart, the rows 1 pixel
    assert_eq!(
        groups,
        vec![vec![0], vec![1], vec![2], vec![3], vec![4], vec![5], vec![6], vec![7], vec![8], vec![9], vec![10], vec![11]]
    );
}

#[test]
fn rows_that_touch_group_by_column() {
    let regions: Vec<PixelRect> = (0..6)
        .map(|i: i32| {
            let x = (i % 2) * 25;
            let y = (i / 2) * 10;
            PixelRect::new(x, y, x + 10, y + 10)
        })
        .collect();
    assert_eq!(group_windows(&regions), vec![vec![0, 2, 4], vec![1, 3, 5]]);
}

#[test]
fn empty_region_is_tested_by_the_same_rule() {
    let point = PixelRect::new(5, 5, 5, 5);
    let big = PixelRect::new(0, 0, 10, 10);
    // the earlier region is the one that is grown
    assert_eq!(group_windows(&vec![point, big]), vec![vec![0, 1]]);
    assert_eq!(group_windows(&vec![big, point]), vec![vec![0], vec![1]]);
}

#[test]
fn identical_regions_make_one_group() {
    let r = PixelRect::new(1, 2, 3, 4);
    assert_eq!(group_windows(&vec![r, r, r]), vec![vec![0, 1, 2]]);
}

#[test]
fn find_returns_the_root_and_shortens_the_path() {
    let mut windows = vec![
        LayerWindow { window: 0, group: 0 },
        LayerWindow { window: 1, group: 0 },
        LayerWindow { window: 2, group: 1 },
        LayerWindow { window: 3, group: 2 },
        LayerWindow { window: 4, group: 4 },
        LayerWindow { window: 5, group: 2 },
    ];
    assert_eq!(get_window_group(&mut windows, 3), 0);
    assert_eq!(
        windows,
        vec![
            LayerWindow { window: 0, group: 0 },
            LayerWindow { window: 1, group: 0 },
            LayerWindow { window: 2, group: 0 },
            LayerWindow { window: 3, group: 0 },
            LayerWindow { window: 4, group: 4 },
            LayerWindow { window: 5, group: 2 },
        ]
    );
    assert_eq!(get_window_group(&mut windows, 4), 4);
    assert_eq!(get_window_group(&mut windows, 5), 0);
    assert_eq!(windows[5], LayerWindow { window: 5, group: 0 });
}

#[test]
fn find_of_a_root_changes_nothing() {
    let mut windows = fresh(3);
    assert_eq!(get_window_group(&mut windows, 2), 2);
    assert_eq!(windows, fresh(3));
}

#[test]
fn merging_keeps_the_smaller_index_as_root() {
    let regions = vec![
        PixelRect::new(100, 0, 110, 10),
        PixelRect::new(0, 0, 10, 10),
        PixelRect::new(10, 0, 20, 10),
        PixelRect::new(110, 0, 120, 10),
    ];
    let mut windows = fresh(4);
    group_windows_with_regions(&mut windows, &regions);
    assert_eq!(groups_of(&windows), vec![0, 1, 1, 0]);
    for (i, window) in windows.iter().enumerate() {
        assert_eq!(window.window, i);
        assert!(window.group <= i);
    }
}

#[test]
fn merging_builds_on_the_groups_that_are_there() {
    // 0 and 2 are together from the start; 2 touches 1
    let regions = vec![
        PixelRect::new(0, 0, 10, 10),
        PixelRect::new(200, 0, 210, 10),
        PixelRect::new(210, 0, 220, 10),
        PixelRect::new(400, 0, 410, 10),
    ];
    let mut windows = fresh(4);
    windows[2].group = 0;
    group_windows_with_regions(&mut windows, &regions);
    assert_eq!(groups_of(&windows), vec![0, 0, 0, 3]);
}

#[test]
fn merging_ignores_regions_beyond_the_windows() {
    let regions = vec![
        PixelRect::new(0, 0, 10, 10),
        PixelRect::new(50, 0, 60, 10),
        PixelRect::new(0, 0, 60, 10),
    ];
    let mut windows = fresh(2);
    group_windows_with_regions(&mut windows, &regions);
    assert_eq!(groups_of(&windows), vec![0, 1]);
}
