use ponder::cheese_maze::{update_queue, Maze, MouseState};

#[test]
fn test_cheese_phases() {
    let phases = Maze::cheese_phases(3, 5, 1, 20);
    assert_eq!(phases, vec![1, 3, 4, 5, 6, 7, 8, 9, 10, 12]);
}

#[test]
fn phase_generator_values() {
    assert_eq!(Maze::cheese_phase_func(0), 12345);
    assert_eq!(Maze::cheese_phase_func(1), (1103515245 + 12345) % 2147483648);
    assert_eq!(Maze::cheese_phases(1, 1, 1, 0), Vec::<usize>::new());
}

#[test]
fn coordinates_round_trip() {
    let index = Maze::coords4_to_index_static(2, 3, 4, 7, 5);
    assert_eq!(index, 2 + 6 * 3 + 36 * 4 + 216 * 7);
    assert_eq!(Maze::index_to_coords4_static(index, 5), (2, 3, 4, 7));
    let maze = Maze { k: 5, n: 10, states: std::collections::HashSet::new() };
    assert_eq!(maze.coords4_to_index(1, 1, 1, 1), 1 + 6 + 36 + 216);
    assert_eq!(maze.index_to_coords4(1 + 6 + 36 + 216), (1, 1, 1, 1));
    assert_eq!(maze.coords3_to_index(5, 4, 3), 5 + 24 + 108);
    assert_eq!(maze.index_to_coords3(5 + 24 + 108), (5, 4, 3));
    assert!(!maze.cheese_at_coords4(1, 1, 1, 1));
}

#[test]
fn mouse_collects_cheese_once_per_position_under_main_rules() {
    let mut mouse = MouseState::new();
    assert_eq!((mouse.x, mouse.y, mouse.z, mouse.t), (1, 1, 1, 1));
    assert_eq!(mouse.num_cheeses(), 0);
    mouse.add_cheese(7, false);
    mouse.add_cheese(7, false);
    assert_eq!(mouse.num_cheeses(), 1);
    mouse.add_cheese(7, true);
    assert_eq!(mouse.num_cheeses(), 2);
    mouse.path.push('R');
    mouse.path.push('W');
    assert_eq!(mouse.path_string(), "RW");
    let copy = mouse.copy();
    assert_eq!(copy.num_cheeses(), 2);
    assert_eq!(copy.path_string(), "RW");
}

#[test]
fn maze_cache_matches_the_phases() {
    let maze = Maze::new(3, 12);
    for x in 1..=3 {
        for y in 1..=3 {
            for z in 1..=3 {
                let phases = Maze::cheese_phases(x, y, z, 12);
                for t in 1..=12 {
                    assert_eq!(maze.cheese_at_coords4(x, y, z, t), phases.contains(&t));
                }
            }
        }
    }
}

#[test]
fn traced_paths_count_cheese_and_reject_bad_moves() {
    let maze = Maze::new(3, 12);
    let start = if maze.cheese_at_coords4(1, 1, 1, 1) { 1 } else { 0 };
    assert_eq!(maze.mouse_path(String::from(""), false), start);
    assert_eq!(maze.mouse_path(String::from("L"), false), 0);
    assert_eq!(maze.mouse_path(String::from("RX"), false), 0);
    let mut expected_main = start;
    let mut expected_bonus = start;
    let mut taken = start == 1;
    for t in 2..=5 {
        if maze.cheese_at_coords4(1, 1, 1, t) {
            expected_bonus += 1;
            if !taken {
                expected_main += 1;
                taken = true;
            }
        }
    }
    assert_eq!(maze.mouse_path(String::from("WWWW"), false), expected_main);
    assert_eq!(maze.mouse_path(String::from("WWWW"), true), expected_bonus);
    let mut walked = start;
    if maze.cheese_at_coords4(2, 1, 1, 2) {
        walked += 1;
    }
    if maze.cheese_at_coords4(2, 2, 1, 3) {
        walked += 1;
    }
    if maze.cheese_at_coords4(2, 2, 2, 4) {
        walked += 1;
    }
    assert_eq!(maze.mouse_path(String::from("RUF"), false), walked);
}

#[test]
fn queue_keeps_the_path_with_more_cheese() {
    let mut queue: std::collections::HashMap<usize, MouseState> = std::collections::HashMap::new();
    let mut rich = MouseState::new();
    rich.add_cheese(3, false);
    assert!(update_queue(&mut queue, rich.copy(), 5));
    assert!(!update_queue(&mut queue, MouseState::new(), 5));
    assert_eq!(queue[&5].num_cheeses(), 1);
    let mut richer = rich.copy();
    richer.add_cheese(4, false);
    assert!(update_queue(&mut queue, richer, 5));
    assert_eq!(queue[&5].num_cheeses(), 2);
    assert!(update_queue(&mut queue, MouseState::new(), 6));
    assert_eq!(queue.len(), 2);
}
