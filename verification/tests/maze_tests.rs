use mazes::direction::{reselect_direction, Direction};
use mazes::dot::{name_nodes, render_dot, subgraphs};
use mazes::maze::{generate_maze, generate_square_maze, make_plane, Cursor, Maze};
use mazes::node::NodeType;

#[test]
fn maze_works() {
    let (x, y) = (4, 4);
    let maze = generate_maze(x, y);
    assert_eq!(maze.get_visiteds().iter().len(), x * y);
    assert!(maze.get_visiteds().iter().all(|&x| x));
    assert_eq!(maze.size(), (x, y));
}

#[test]
fn it_works() {
    let (x, y) = (6, 2);
    let maze = generate_maze(x, y);
    assert_eq!(maze.get_visiteds().iter().len(), x * y);
    assert!(maze.get_visiteds().iter().all(|&x| x));
    assert_eq!(maze.size(), (x, y));
    {
        let maze_ref = &maze;
        assert_eq!(subgraphs(maze_ref).len(), y);
    }
}

#[test]
fn dot_works() {
    let (x, y) = (8, 8);
    let maze = generate_maze(x, y);
    let maze_ref = &maze;
    assert_eq!(name_nodes(maze_ref)[0].len(), x);
    assert_eq!(name_nodes(maze_ref).len(), y);
    assert_eq!(subgraphs(maze_ref)[0].len(), x);
    assert_eq!(subgraphs(maze_ref).len(), y);
    println!("{}", render_dot(maze_ref));
}

fn removed_pairs(maze: &Maze, w: usize, h: usize) -> usize {
    let mut count = 0;
    for y in 0..h {
        for x in 0..w {
            let node = *maze.get(maze.by_coords(x, y));
            if y + 1 < h && node.has_no_wall(Direction::Down) {
                count += 1;
            }
            if x + 1 < w && node.has_no_wall(Direction::Right) {
                count += 1;
            }
        }
    }
    count
}

#[test]
fn four_by_four_scenario() {
    let maze = generate_maze(4, 4);
    assert_eq!(removed_pairs(&maze, 4, 4), 15);
    assert!(maze.get_visiteds().iter().all(|&v| v));
    assert_eq!(maze.get(maze.by_coords(0, 0)).n_type, NodeType::Start);
    assert_eq!(maze.get(maze.by_coords(3, 3)).n_type, NodeType::End);
}

#[test]
fn single_cell_scenario() {
    let plane = make_plane(1, 1);
    assert_eq!(plane.get_visiteds().len(), 1);
    let root = plane.get_root();
    let node = *plane.get(root);
    assert!(node.get_neighbor_option(Direction::Up).is_none());
    assert!(node.get_neighbor_option(Direction::Down).is_none());
    assert!(node.get_neighbor_option(Direction::Left).is_none());
    assert!(node.get_neighbor_option(Direction::Right).is_none());
    assert_eq!(node.n_type, NodeType::End);
    let carved = generate_square_maze(1);
    assert!(carved.get_visiteds().iter().all(|&v| v));
    assert_eq!(removed_pairs(&carved, 1, 1), 0);
}

fn wall_profile(maze: &Maze, w: usize, h: usize) -> Vec<bool> {
    let mut profile = vec![];
    for y in 0..h {
        for x in 0..w {
            let node = *maze.get(maze.by_coords(x, y));
            profile.push(node.has_no_wall(Direction::Down));
            profile.push(node.has_no_wall(Direction::Right));
        }
    }
    profile
}

#[test]
fn runs_differ_but_counts_match() {
    let a = generate_maze(8, 8);
    let b = generate_maze(8, 8);
    let c = generate_maze(8, 8);
    assert_eq!(removed_pairs(&a, 8, 8), 63);
    assert_eq!(removed_pairs(&b, 8, 8), 63);
    assert_eq!(removed_pairs(&c, 8, 8), 63);
    let pa = wall_profile(&a, 8, 8);
    let pb = wall_profile(&b, 8, 8);
    let pc = wall_profile(&c, 8, 8);
    assert!(pa != pb || pb != pc);
}

#[test]
fn links_and_walls_are_mirrored() {
    let maze = generate_maze(5, 4);
    for y in 0..4 {
        for x in 0..5 {
            let cursor = maze.by_coords(x, y);
            let node = *maze.get(cursor);
            for (dir, back) in [
                (Direction::Up, Direction::Down),
                (Direction::Down, Direction::Up),
                (Direction::Left, Direction::Right),
                (Direction::Right, Direction::Left),
            ] {
                if let Some(nbr) = node.get_neighbor_option(dir) {
                    let other = *maze.get(nbr);
                    assert_eq!(other.get_neighbor_option(back), Some(cursor));
                    assert_eq!(node.has_wall(dir), other.has_wall(back));
                }
            }
        }
    }
}

#[test]
fn reads_are_stable() {
    let maze = generate_maze(3, 3);
    let cursor = maze.by_coords(1, 1);
    let first = maze.get(cursor).get_neighbor_option(Direction::Right);
    let second = maze.get(cursor).get_neighbor_option(Direction::Right);
    assert_eq!(first, second);
    assert_eq!(maze.by_coords(2, 2), maze.by_coords(2, 2));
}

#[test]
fn plane_is_fresh() {
    let plane = make_plane(3, 2);
    assert_eq!(plane.size(), (3, 2));
    assert!(plane.get_visiteds().iter().all(|&v| !v));
    for y in 0..2 {
        for x in 0..3 {
            let node = *plane.get(plane.by_coords(x, y));
            assert!(node.has_wall(Direction::Up));
            assert!(node.has_wall(Direction::Down));
            assert!(node.has_wall(Direction::Left));
            assert!(node.has_wall(Direction::Right));
        }
    }
}

#[test]
fn direction_helpers() {
    assert_eq!(Direction::Up.reverse(), Direction::Down);
    assert_eq!(Direction::Down.reverse(), Direction::Up);
    assert_eq!(Direction::Left.reverse(), Direction::Right);
    assert_eq!(Direction::Right.reverse(), Direction::Left);
    let dirs = vec![Direction::Up, Direction::Left];
    assert!(Direction::Up.vec_elem(dirs.clone()));
    assert!(!Direction::Down.vec_elem(dirs));
}

#[test]
fn reselect_avoids_given_directions() {
    for _ in 0..32 {
        let picked = reselect_direction(vec![Direction::Up, Direction::Down, Direction::Left]);
        assert_eq!(picked, Direction::Right);
    }
}

#[test]
fn cursor_basics() {
    let c = Cursor::unsafe_new(7);
    assert_eq!(c.index(), 7);
    let maze = make_plane(2, 2);
    assert_eq!(maze.get_root().index(), 0);
    let mut cursor = maze.get_root();
    maze.cursor_move(&mut cursor, Direction::Right);
    assert_eq!(cursor, maze.by_coords(1, 0));
}
