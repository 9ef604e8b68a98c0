use realgeopolitics::chase;
use realgeopolitics::shrine::{normalize_key, Input, Level, MapProblem, Tile};

const LEVEL_MAP: &[&str] = &[
    "................................................",
    "................................................",
    "...............####.............................",
    ".............................#####..............",
    ".......................###......................",
    "..............####.................####.........",
    ".................##........###..................",
    "................##....................###.......",
    "....P.....###..........####.................S...",
    "###############....###########....##########....",
    "###############....###########....##########....",
];

#[test]
fn level_from_map_reads_size_spawn_and_shrine() {
    let level = Level::from_map(LEVEL_MAP);
    assert_eq!(level.columns(), 48);
    assert_eq!(level.rows(), 11);
    assert_eq!(level.spawn_tile(), (4, 8));
    assert_eq!(level.shrine_tile(), (44, 8));
}

#[test]
fn level_tiles_follow_symbols() {
    let level = Level::from_map(LEVEL_MAP);
    assert_eq!(level.tile_kind(0, 0), Tile::Empty);
    assert_eq!(level.tile_kind(15, 2), Tile::Solid);
    assert_eq!(level.tile_kind(4, 8), Tile::Empty);
    assert_eq!(level.tile_kind(44, 8), Tile::Shrine);
    assert_eq!(level.tile_kind(0, 10), Tile::Solid);
    assert_eq!(level.tile_kind(15, 10), Tile::Empty);
}

#[test]
fn level_outside_the_grid_is_solid() {
    let level = Level::from_map(LEVEL_MAP);
    assert_eq!(level.tile_kind(-1, 0), Tile::Solid);
    assert_eq!(level.tile_kind(0, -1), Tile::Solid);
    assert_eq!(level.tile_kind(48, 0), Tile::Solid);
    assert_eq!(level.tile_kind(0, 11), Tile::Solid);
    assert!(level.tile_kind(48, 5).is_solid());
    assert!(!level.tile_kind(47, 5).is_solid());
}

#[test]
fn level_takes_the_last_spawn_and_shrine_marks() {
    let raw = ["P.S=", "S.P#"];
    let level = Level::from_map(&raw);
    assert_eq!(level.spawn_tile(), (2, 1));
    assert_eq!(level.shrine_tile(), (0, 1));
    assert_eq!(level.tile_kind(3, 0), Tile::Solid);
    assert_eq!(level.tile_kind(0, 0), Tile::Empty);
    assert_eq!(level.tile_kind(2, 0), Tile::Shrine);
}

#[test]
fn normalize_key_lowers_and_names_the_space_bar() {
    assert_eq!(normalize_key("ArrowLeft"), "arrowleft");
    assert_eq!(normalize_key(" "), "space");
    assert_eq!(normalize_key("Spacebar"), "space");
    assert_eq!(normalize_key("Z"), "z");
}

#[test]
fn shrine_input_tracks_fresh_presses_per_frame() {
    let mut input = Input::new();
    input.press("W".to_string());
    assert!(input.is_pressed("w"));
    assert!(input.just_pressed("w"));
    input.end_frame();
    assert!(input.is_pressed("w"));
    assert!(!input.just_pressed("w"));
    input.press("w".to_string());
    assert!(!input.just_pressed("w"));
    input.release("W");
    assert!(!input.is_pressed("w"));
    input.press(" ".to_string());
    assert!(input.just_pressed("space"));
    input.release("Spacebar");
    assert!(!input.is_pressed("space"));
    assert!(!input.just_pressed("space"));
}

#[test]
fn chase_input_ignores_case() {
    let mut input = chase::Input::default();
    input.press("ArrowUp".to_string());
    assert!(input.is_pressed("arrowup"));
    assert!(input.is_pressed("ARROWUP"));
    assert!(!input.is_pressed("a"));
    input.release("arrowUP");
    assert!(!input.is_pressed("ArrowUp"));
    assert_eq!(chase::Input::normalize("WASD"), "wasd");
}

#[test]
fn try_from_map_reports_the_first_problem() {
    assert_eq!(Level::try_from_map(&[]).err(), Some(MapProblem::NoRows));
    assert_eq!(Level::try_from_map(&["", "P.S"]).err(), Some(MapProblem::EmptyRow));
    assert_eq!(Level::try_from_map(&["P.S", "..x."]).err(), Some(MapProblem::RaggedRow));
    assert_eq!(
        Level::try_from_map(&["P.S", ".x#", "...."]).err(),
        Some(MapProblem::UnsupportedSymbol('x'))
    );
    assert_eq!(Level::try_from_map(&["P.S", "é."]).err(), Some(MapProblem::UnsupportedSymbol('é')));
    assert_eq!(Level::try_from_map(&["P.S", "é.."]).err(), Some(MapProblem::RaggedRow));
    assert_eq!(Level::try_from_map(&["..S", "###"]).err(), Some(MapProblem::NoSpawn));
    assert_eq!(Level::try_from_map(&["P..", "###"]).err(), Some(MapProblem::NoShrine));
    let level = Level::try_from_map(LEVEL_MAP).expect("the level map is valid");
    assert_eq!(level.spawn_tile(), (4, 8));
    assert_eq!(level.shrine_tile(), (44, 8));
}
