use scoph::common::{
    deserialize_2d_array, deserialize_2d_array_panics, one_times, toodee_pattern, GridError, Info,
    NodeAction, PlayerId, TRRBTPattern,
};

fn rows(cells: &[&[&str]]) -> Vec<Vec<String>> {
    cells.iter().map(|r| r.iter().map(|c| c.to_string()).collect()).collect()
}

#[test]
fn filled_board_has_one_main_layer() {
    let board = TRRBTPattern::filled("_", 3, 2);
    let layers = board.layers();
    assert_eq!(layers.len(), 1);
    assert_eq!(layers[0].0, "main");
    assert_eq!(layers[0].1, rows(&[&["_", "_", "_"], &["_", "_", "_"]]));
}

#[test]
fn filled_empty_board() {
    let board = TRRBTPattern::filled("x", 0, 0);
    let layers = board.layers();
    assert_eq!(layers.len(), 1);
    assert!(layers[0].1.is_empty());
}

#[test]
fn toodee_pattern_cuts_rows() {
    let grid = toodee_pattern(2, 3, ["a", "b", "c", "d", "e", "f"]);
    let board = TRRBTPattern::from_layers(vec![("main".to_string(), grid)]);
    assert_eq!(board.layers()[0].1, rows(&[&["a", "b"], &["c", "d"], &["e", "f"]]));
}

#[test]
fn later_layer_wins() {
    let board = TRRBTPattern::from_layers(vec![
        ("main".to_string(), toodee_pattern(1, 1, ["a"])),
        ("top".to_string(), toodee_pattern(1, 1, ["t"])),
        ("main".to_string(), toodee_pattern(1, 1, ["b"])),
    ]);
    let mut layers = board.layers();
    layers.sort();
    assert_eq!(
        layers,
        vec![("main".to_string(), rows(&[&["b"]])), ("top".to_string(), rows(&[&["t"]]))]
    );
}

#[test]
fn boards_equal_regardless_of_layer_order() {
    let a = TRRBTPattern::from_layers(vec![
        ("x".to_string(), toodee_pattern(1, 1, ["1"])),
        ("y".to_string(), toodee_pattern(1, 1, ["2"])),
    ]);
    let b = TRRBTPattern::from_layers(vec![
        ("y".to_string(), toodee_pattern(1, 1, ["2"])),
        ("x".to_string(), toodee_pattern(1, 1, ["1"])),
    ]);
    assert_eq!(a, b);
    let c = TRRBTPattern::from_layers(vec![
        ("y".to_string(), toodee_pattern(1, 1, ["2"])),
        ("x".to_string(), toodee_pattern(1, 1, ["3"])),
    ]);
    assert_ne!(a, c);
    let d = TRRBTPattern::from_layers(vec![("x".to_string(), toodee_pattern(1, 1, ["1"]))]);
    assert_ne!(a, d);
    let e = TRRBTPattern::from_layers(vec![
        ("x".to_string(), toodee_pattern(1, 1, ["1"])),
        ("z".to_string(), toodee_pattern(1, 1, ["2"])),
    ]);
    assert_ne!(a, e);
}

#[test]
fn clone_is_equal() {
    let a = TRRBTPattern::from_layers(vec![
        ("x".to_string(), toodee_pattern(2, 1, ["1", "2"])),
        ("y".to_string(), toodee_pattern(1, 2, ["3", "4"])),
    ]);
    assert_eq!(a.clone(), a);
}

#[test]
fn default_board_is_empty() {
    assert!(TRRBTPattern::default().layers().is_empty());
    assert_eq!(TRRBTPattern::default(), TRRBTPattern::from_layers(vec![]));
}

#[test]
fn grid_from_consistent_rows() {
    let input = rows(&[&["a", "b"], &["c", "d"]]);
    assert!(!deserialize_2d_array_panics(&input));
    let grid = deserialize_2d_array(input.clone()).unwrap();
    let board = TRRBTPattern::from_layers(vec![("main".to_string(), grid)]);
    let layers = board.layers();
    assert_eq!(layers, vec![("main".to_string(), input)]);
}

#[test]
fn grid_from_rows_has_their_dimensions() {
    let grid = deserialize_2d_array(rows(&[&["a", "b"], &["c", "d"], &["e", "f"]])).unwrap();
    assert_eq!(
        TRRBTPattern::from_layers(vec![("main".to_string(), grid)]),
        TRRBTPattern::from_layers(vec![(
            "main".to_string(),
            toodee_pattern(2, 3, ["a", "b", "c", "d", "e", "f"])
        )])
    );
}

#[test]
fn grids_with_same_rows_but_other_dimensions_differ() {
    let wide: toodee::TooDee<String> = toodee::TooDee::new(5, 0);
    let empty: toodee::TooDee<String> = toodee::TooDee::default();
    let a = TRRBTPattern::from_layers(vec![("main".to_string(), wide)]);
    let b = TRRBTPattern::from_layers(vec![("main".to_string(), empty)]);
    assert_eq!(a.layers(), b.layers());
    assert_ne!(a, b);
    assert_eq!(a.clone(), a);
}

#[test]
fn grid_from_no_rows() {
    let input: Vec<Vec<String>> = vec![];
    assert!(!deserialize_2d_array_panics(&input));
    let grid = deserialize_2d_array(input).unwrap();
    let board = TRRBTPattern::from_layers(vec![("main".to_string(), grid)]);
    assert!(board.layers()[0].1.is_empty());
}

#[test]
fn grid_from_ragged_rows_is_an_error() {
    let input = rows(&[&["a", "b"], &["c"]]);
    assert!(!deserialize_2d_array_panics(&input));
    assert_eq!(deserialize_2d_array(input).unwrap_err(), GridError::InconsistentWidth);
    let input = rows(&[&["a"], &[], &["b"]]);
    assert_eq!(deserialize_2d_array(input).unwrap_err(), GridError::InconsistentWidth);
    let input = rows(&[&[], &["a"], &["b", "c"]]);
    assert_eq!(deserialize_2d_array(input).unwrap_err(), GridError::InconsistentWidth);
}

#[test]
fn grid_with_leading_empty_rows_would_panic() {
    assert!(deserialize_2d_array_panics(&rows(&[&[], &["a"]])));
    assert!(deserialize_2d_array_panics(&rows(&[&[], &[]])));
    assert!(!deserialize_2d_array_panics(&rows(&[&["a"], &[]])));
}

#[test]
fn info_set_id_keeps_comment() {
    let mut info = Info::new(None, Some("note".to_string()));
    info.set_id("ply");
    assert_eq!(info.nid(), &Some("ply".to_string()));
    assert_eq!(info.comment(), &Some("note".to_string()));
    let d = Info::default();
    assert_eq!(d.nid(), &None);
    assert_eq!(d.comment(), &None);
}

#[test]
fn one_times_is_one() {
    assert_eq!(one_times(), 1);
}

#[test]
fn player_id_from_str() {
    assert_eq!(PlayerId::from("X"), PlayerId("X".to_string()));
}

#[test]
fn default_actions_keep_original() {
    assert_eq!(NodeAction::default_x_rotate(), NodeAction::XRotate { remorig: false });
    assert_eq!(NodeAction::default_x_skew(), NodeAction::XSkew { remorig: false });
}
