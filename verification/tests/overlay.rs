use stack_engine::graph::arena::Graph;
use stack_engine::graph::options::Options;
use stack_engine::graph::overlay::{Overlay, Reference, RestartError};
use stack_engine::graph::flags::CommitFlags;
use stack_engine::graph::segment::{Commit, Segment};
use stack_engine::object_id::ObjectId;

fn id(digit: char) -> ObjectId {
    let hex: String = std::iter::repeat(digit).take(40).collect();
    ObjectId::from_hex(&hex).unwrap()
}

#[test]
fn overlay_references_go_around_the_repository() {
    let overlay = Overlay {
        entrypoint: None,
        nonoverriding_references: vec![
            Reference { name: "refs/heads/new".into(), id: id('1') },
            Reference { name: "refs/heads/main".into(), id: id('2') },
        ],
        overriding_references: vec![
            Reference { name: "refs/heads/moved".into(), id: id('3') },
            Reference { name: "refs/heads/moved".into(), id: id('4') },
        ],
    };
    let resolve = |name: &str, found: Option<char>| overlay.resolve(&name.to_string(), found.map(id));
    assert_eq!(resolve("refs/heads/moved", Some('9')), Some(id('3')));
    assert_eq!(resolve("refs/heads/main", Some('9')), Some(id('9')));
    assert_eq!(resolve("refs/heads/main", None), Some(id('2')));
    assert_eq!(resolve("refs/heads/none", None), None);
    assert_eq!(Overlay::new().resolve(&"refs/heads/main".to_string(), None), None);
}

#[test]
fn traversal_starts_again_at_the_first_commit_after_the_entrypoint() {
    let mut graph = Graph::new(Options::default());
    assert_eq!(graph.restart_point(None), Err(RestartError::NoEntrypoint));
    let place = (id('7'), Some("refs/heads/seen".to_string()));
    assert_eq!(graph.restart_point(Some(place.clone())), Ok(place));
    let entry = graph.insert_segment_set_entrypoint(Segment::new(Some("refs/heads/entry".into()))).unwrap();
    assert_eq!(graph.restart_point(None), Err(RestartError::NoCommit));
    let empty = graph.insert_segment(Segment::new(None)).unwrap();
    let full = graph.insert_segment(Segment::new(None)).unwrap();
    let other = graph.insert_segment(Segment::new(None)).unwrap();
    let commit = |digit| Commit { id: id(digit), parent_ids: vec![], flags: CommitFlags::empty(), refs: vec![] };
    graph.push_commit(full, commit('a'));
    graph.push_commit(other, commit('b'));
    graph.connect_segments(entry, None, empty, None).unwrap();
    graph.connect_segments(entry, None, other, None).unwrap();
    graph.connect_segments(empty, None, full, None).unwrap();
    assert_eq!(graph.tip_skip_empty(entry), Some(id('a')));
    assert_eq!(graph.tip_skip_empty(other), Some(id('b')));
    assert_eq!(graph.tip_skip_empty(9), None);
    assert_eq!(graph.restart_point(None), Ok((id('a'), Some("refs/heads/entry".to_string()))));
    assert_eq!(RestartError::NoEntrypoint.message(), "BUG: entrypoint must always be set");
}
