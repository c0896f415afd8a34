use graph_algorithm_tui::playback::{Playback, Shown};

#[test]
fn replay_alternates_edges_and_nodes() {
    let mut p = Playback::start(vec![1, 2, 4], vec![(1, 2), (2, 4)]);
    assert!(!p.done());
    assert_eq!(p.advance(), Shown::Edge(1, 2));
    assert_eq!((p.index, p.step_is_edge), (1, false));
    assert_eq!(p.advance(), Shown::Node(2));
    assert_eq!((p.index, p.step_is_edge), (1, true));
    assert_eq!(p.advance(), Shown::Edge(2, 4));
    assert_eq!((p.index, p.step_is_edge), (2, false));
    assert_eq!(p.advance(), Shown::Node(4));
    assert_eq!((p.index, p.step_is_edge), (3, false));
    assert!(p.done());
    assert_eq!(p.advance(), Shown::Nothing);
    assert_eq!((p.index, p.step_is_edge), (3, false));
}

#[test]
fn replay_of_an_empty_trace_is_over_at_once() {
    let mut p = Playback::start(vec![], vec![(1, 2)]);
    assert!(p.done());
    assert_eq!(p.advance(), Shown::Nothing);
    assert_eq!((p.index, p.step_is_edge), (0, true));
}

#[test]
fn replay_of_a_single_node_shows_it_after_an_empty_step() {
    let mut p = Playback::start(vec![7], vec![]);
    assert!(!p.done());
    assert_eq!(p.advance(), Shown::Nothing);
    assert_eq!((p.index, p.step_is_edge), (1, false));
    assert!(p.done());
}

#[test]
fn replay_goes_on_while_edges_are_left() {
    let mut p = Playback::start(vec![1, 2], vec![(1, 2), (1, 2), (1, 2)]);
    assert_eq!(p.advance(), Shown::Edge(1, 2));
    assert_eq!(p.advance(), Shown::Node(2));
    assert_eq!(p.advance(), Shown::Edge(1, 2));
    assert_eq!((p.index, p.step_is_edge), (2, false));
    assert!(p.done());
    assert_eq!(p.advance(), Shown::Nothing);
}

#[test]
fn replay_shows_the_nodes_that_have_no_edge() {
    let mut p = Playback::start(vec![1, 2, 3], vec![(1, 2)]);
    assert_eq!(p.advance(), Shown::Edge(1, 2));
    assert_eq!(p.advance(), Shown::Node(2));
    assert_eq!((p.index, p.step_is_edge), (2, false));
    assert_eq!(p.advance(), Shown::Node(3));
    assert_eq!((p.index, p.step_is_edge), (3, false));
    assert!(p.done());
}
