use sortviz::array::ArrayModel;
use sortviz::driver::Session;
use sortviz::vertex::{project, Vertex};

#[test]
fn projection_exact_coordinates() {
    // Length 4, values [1, 2, 3, 4]: element i sits at x = 2i - 4 (over
    // the common denominator 4), its baseline at y = -4, and its top at
    // y = 2v + 2 - 4.
    let a = ArrayModel::new(4);
    let vertices = project(&a);
    let expected = vec![
        Vertex { x: -4, y: -4 },
        Vertex { x: -4, y: 0 },
        Vertex { x: -2, y: -4 },
        Vertex { x: -2, y: 2 },
        Vertex { x: 0, y: -4 },
        Vertex { x: 0, y: 4 },
        Vertex { x: 2, y: -4 },
        Vertex { x: 2, y: 6 },
    ];
    assert_eq!(vertices, expected);
}

#[test]
fn projection_full_length_scale() {
    // At the full display length of 800 the smallest value's bar top sits
    // at -796/800 of the canvas, as the rescaling of [1, 800] to [1, 400]
    // dictates.
    let a = ArrayModel::new(800);
    let vertices = project(&a);
    assert_eq!(vertices.len(), 1600);
    assert_eq!(vertices[0], Vertex { x: -800, y: -800 });
    assert_eq!(vertices[1], Vertex { x: -800, y: -796 });
    assert_eq!(vertices[1598], Vertex { x: 798, y: -800 });
    assert_eq!(vertices[1599], Vertex { x: 798, y: 802 });
}

#[test]
fn projection_deterministic_and_idempotent() {
    let mut session = Session::new(33);
    session.shuffle();
    let first = session.vertices();
    let second = session.vertices();
    assert_eq!(first, second);
    assert_eq!(first.len(), 2 * 33);
}

#[test]
fn projection_empty_array() {
    let a = ArrayModel::new(0);
    assert_eq!(project(&a).len(), 0);
}

#[test]
fn projection_tracks_mutation() {
    let mut a = ArrayModel::new(3);
    let before = project(&a);
    a.swap(0, 2);
    let after = project(&a);
    assert_ne!(before, after);
    // Baselines and x positions are unchanged; only bar tops moved.
    assert_eq!(before[0], after[0]);
    assert_eq!(after[1], Vertex { x: -3, y: 2 * 3 + 2 - 3 });
    assert_eq!(after[5], Vertex { x: 1, y: 2 * 1 + 2 - 3 });
}
