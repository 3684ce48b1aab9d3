use stack_engine::graph::arena::{Graph, GraphError};
use stack_engine::graph::flags::{CommitFlags, Goals, IN_WORKSPACE, INTEGRATED, NOT_IN_REMOTE};
use stack_engine::graph::init::{
    Advance, Begin, CommitInfo, Head, LocalTip, RemoteTip, Seed, StartError, TargetTip, Traversal, WorkspaceTip,
};
use stack_engine::graph::limit::Limit;
use stack_engine::graph::options::Options;
use stack_engine::graph::queue::{Instruction, Queue, QueueItem};
use stack_engine::graph::refs::{group_refs, NamedRef, RefsAt};
use stack_engine::graph::segment::{Commit, Edge, Segment, SegmentMetadata, Workspace};
use stack_engine::object_id::ObjectId;

fn id(digit: char) -> ObjectId {
    let hex: String = std::iter::repeat(digit).take(40).collect();
    ObjectId::from_hex(&hex).unwrap()
}

fn commit(digit: char, parents: &[char]) -> CommitInfo {
    CommitInfo { id: id(digit), parent_ids: parents.iter().map(|p| id(*p)).collect(), remote_tips: vec![] }
}

fn refs(digit: char, names: &[&str]) -> RefsAt {
    RefsAt { id: id(digit), names: names.iter().map(|n| n.to_string()).collect() }
}

fn plain(digit: char, flags: u32) -> Commit {
    Commit { id: id(digit), parent_ids: vec![], flags: CommitFlags { bits: flags }, refs: vec![] }
}

/// Hands the commits of `history` to the traversal as it asks for them.
fn walk(traversal: &mut Traversal, history: &[CommitInfo]) -> Advance {
    loop {
        let Some(next) = traversal.next_commit() else {
            return Advance::Idle;
        };
        let info = history.iter().find(|c| c.id == next).expect("the history holds the commit").clone();
        match traversal.advance(info) {
            Advance::Taken { .. } | Advance::Met { .. } => continue,
            other => return other,
        }
    }
}

fn ids_of(segment: &Segment) -> Vec<ObjectId> {
    segment.commits.iter().map(|c| c.id).collect()
}

fn endpoints(graph: &Graph) -> Vec<(u32, u32)> {
    graph.edge_list().iter().map(|e| (e.from, e.to)).collect()
}

#[test]
fn options_presets_and_builders() {
    let limited = Options::limited();
    assert_eq!(limited.commits_limit_hint, Some(300));
    assert!(!limited.collect_tags);
    assert_eq!(limited.hard_limit, None);
    let options = Options::default().with_limit_hint(5).with_hard_limit(9).with_limit_extension_at(vec![id('a')]);
    assert_eq!(options.commits_limit_hint, Some(5));
    assert_eq!(options.hard_limit, Some(9));
    assert_eq!(options.commits_limit_recharge_location, vec![id('a')]);
    assert!(options.recharges_at(&id('a')));
    assert!(!options.recharges_at(&id('b')));
    assert_eq!(Options::new(), Options::default());
}

#[test]
fn flags_are_sets_of_bits() {
    let both = CommitFlags::in_workspace().union(CommitFlags::integrated());
    assert_eq!(both.bits, IN_WORKSPACE | INTEGRATED);
    assert!(both.contains(CommitFlags::integrated()));
    assert!(!both.contains(CommitFlags::not_in_remote()));
    assert!(CommitFlags::empty().is_empty());
    assert_eq!(CommitFlags::goal(0).bits, 8);
    assert_eq!(CommitFlags::goal(28).bits, 1 << 31);
    let mixed = CommitFlags { bits: NOT_IN_REMOTE | 8 | 64 };
    assert_eq!(mixed.goals().bits, 8 | 64);
    assert_eq!(mixed.named().bits, NOT_IN_REMOTE);
}

#[test]
fn goals_run_out_of_flags() {
    let mut goals = Goals::new();
    let mut digits = "0123456789abcdef".chars().cycle();
    for k in 0..29usize {
        let mut hex = String::new();
        hex.push(digits.next().unwrap());
        hex.push_str(&format!("{:039}", k));
        let goal = ObjectId::from_hex(&hex).unwrap();
        assert_eq!(goals.flag_for(goal), Some(CommitFlags::goal(k)));
        assert_eq!(goals.flag_for(goal), Some(CommitFlags::goal(k)));
    }
    assert_eq!(goals.flag_for(id('e')), None);
    assert_eq!(goals.ids.len(), 29);
}

#[test]
fn limit_is_frozen_until_its_goals_are_met() {
    let goal = CommitFlags::goal(3);
    let mut limit = Limit::new(Some(1)).additional_goal(goal);
    assert!(!limit.is_exhausted_or_decrement(CommitFlags::not_in_remote()));
    assert_eq!(limit.allowance, Some(1));
    assert!(!limit.is_exhausted_or_decrement(goal));
    assert_eq!(limit.allowance, Some(0));
    assert!(!limit.is_exhausted_or_decrement(CommitFlags::empty()));
    assert!(limit.is_exhausted_or_decrement(goal));
    assert_eq!(limit.without_allowance().allowance, Some(0));
    let mut unlimited = Limit::new(None);
    assert!(!unlimited.is_exhausted_or_decrement(CommitFlags::empty()));
    assert_eq!(unlimited.allowance, None);
    limit.set_but_keep_goal(Limit::new(Some(7)));
    assert_eq!(limit, Limit { allowance: Some(7), goals: goal });
    let mut goals = Goals::new();
    let with_goal = Limit::new(Some(2)).with_indirect_goal(id('a'), &mut goals);
    assert_eq!(with_goal, Limit { allowance: Some(2), goals: CommitFlags::goal(0) });
}

#[test]
fn queue_counts_pushes_against_its_limit() {
    let item = |digit: char| QueueItem {
        id: id(digit),
        flags: CommitFlags::empty(),
        instruction: Instruction::CollectCommit { into: 0 },
        limit: Limit::new(None),
    };
    let mut queue = Queue::new_with_limit(Some(3));
    assert!(!queue.push_back_exhausted(item('a')));
    assert!(!queue.push_front_exhausted(item('b')));
    assert!(queue.push_back_exhausted(item('c')));
    assert!(queue.is_queued(&id('c')));
    assert!(!queue.is_queued(&id('d')));
    assert_eq!(queue.pop_front().map(|i| i.id), Some(id('b')));
    assert_eq!(queue.pop_front().map(|i| i.id), Some(id('a')));
    assert_eq!(queue.count, 3);
    queue.add_goal_to(&id('c'), CommitFlags::goal(1));
    assert_eq!(queue.items[0].limit.goals, CommitFlags::goal(1));
    assert_eq!(queue.segment_of(&id('c')), Some(0));
    assert_eq!(queue.segment_of(&id('a')), None);
    queue.clear();
    assert_eq!(queue.pop_front(), None);
}

#[test]
fn parents_are_queued_until_the_queue_is_exhausted() {
    let mut queue = Queue::new_with_limit(Some(2));
    let flags = CommitFlags::not_in_remote();
    let hit = queue.queue_parents(&vec![id('a'), id('b'), id('c')], flags, 4, 2, Limit::new(Some(5)));
    assert!(hit);
    assert_eq!(queue.items.len(), 2);
    let expected = QueueItem {
        id: id('a'),
        flags,
        instruction: Instruction::ConnectNewSegment { parent_above: 4, at_commit: 2 },
        limit: Limit::new(Some(4)),
    };
    assert_eq!(queue.items[0], expected);
    let mut single = Queue::new_with_limit(None);
    assert!(!single.queue_parents(&vec![id('a')], flags, 4, 2, Limit::new(None)));
    assert_eq!(single.items[0].instruction, Instruction::CollectCommit { into: 4 });
    let mut spent = Queue::new_with_limit(None);
    assert!(!spent.queue_parents(&vec![id('a')], flags, 4, 2, Limit::new(Some(0))));
    assert!(spent.items.is_empty());
}

#[test]
fn integrated_lanes_without_goals_are_pruned() {
    let item = |digit: char, flags: u32, goals: u32| QueueItem {
        id: id(digit),
        flags: CommitFlags { bits: flags },
        instruction: Instruction::CollectCommit { into: 0 },
        limit: Limit { allowance: Some(0), goals: CommitFlags { bits: goals } },
    };
    let mut queue = Queue::new_with_limit(None);
    queue.push_back_exhausted(item('a', INTEGRATED, 0));
    queue.push_back_exhausted(item('b', INTEGRATED | NOT_IN_REMOTE, 0));
    queue.push_back_exhausted(item('c', INTEGRATED, 8));
    queue.push_back_exhausted(item('d', INTEGRATED | 8, 8));
    queue.prune_integrated_tips();
    let left: Vec<ObjectId> = queue.items.iter().map(|i| i.id).collect();
    assert_eq!(left, vec![id('b'), id('c')]);
}

#[test]
fn segments_are_connected_by_the_commits_at_their_ends() {
    let mut graph = Graph::new(Options::default());
    let top = graph.insert_segment(Segment::new(Some("refs/heads/top".into()))).unwrap();
    let bottom = graph.insert_segment(Segment::new(None)).unwrap();
    assert_eq!((top, bottom), (0, 1));
    assert_eq!(graph.segment(bottom).unwrap().id, bottom);
    assert!(graph.push_commit(top, plain('a', 1)));
    assert!(graph.push_commit(bottom, plain('b', 1)));
    assert!(!graph.push_commit(7, plain('c', 1)));
    let edge = graph.connect_segments(top, Some(0), bottom, Some(0)).unwrap();
    assert_eq!(edge, 0);
    assert_eq!(graph.connect_segments(top, Some(0), 9, None), None);
    let listed = graph.edge_list();
    assert_eq!(listed.len(), 1);
    assert_eq!((listed[0].from, listed[0].to), (top, bottom));
    assert_eq!(
        listed[0].edge,
        Edge { src: Some(0), src_id: Some(id('a')), dst: Some(0), dst_id: Some(id('b')) }
    );
    let named = graph.connect_segments_with_ids(bottom, Some(5), Some(id('c')), top, None, None).unwrap();
    assert_eq!(
        graph.edge_list()[1].edge,
        Edge { src: Some(5), src_id: Some(id('c')), dst: None, dst_id: None }
    );
    assert_eq!(graph.disconnect(named).map(|e| e.src), Some(Some(5)));
    assert_eq!(graph.disconnect(named), None);
    assert_eq!(graph.locate(&id('b')), Some((bottom, 0)));
    assert_eq!(graph.locate(&id('c')), None);
    assert_eq!(graph.segment_ids(), vec![0, 1]);
}

#[test]
fn split_moves_commits_and_edges_to_the_new_segment() {
    let mut graph = Graph::new(Options::default());
    let whole = graph.insert_segment(Segment::new(Some("refs/heads/main".into()))).unwrap();
    let below = graph.insert_segment(Segment::new(None)).unwrap();
    for digit in ['a', 'b', 'c'] {
        graph.push_commit(whole, plain(digit, 1));
    }
    graph.push_commit(below, plain('d', 1));
    graph.connect_segments(whole, Some(2), below, Some(0)).unwrap();
    assert_eq!(graph.split_segment(whole, 0), Err(GraphError::NoSuchPlace));
    assert_eq!(graph.split_segment(whole, 3), Err(GraphError::NoSuchPlace));
    assert_eq!(graph.split_segment(9, 1), Err(GraphError::NoSuchPlace));
    let lower = graph.split_segment(whole, 1).unwrap();
    assert_eq!(lower, 2);
    assert_eq!(ids_of(graph.segment(whole).unwrap()), vec![id('a')]);
    assert_eq!(ids_of(graph.segment(lower).unwrap()), vec![id('b'), id('c')]);
    assert_eq!(graph.segment(lower).unwrap().ref_name, None);
    assert_eq!(graph.segment(whole).unwrap().ref_name, Some("refs/heads/main".to_string()));
    let mut edges: Vec<(u32, u32, Edge)> = graph.edge_list().iter().map(|e| (e.from, e.to, e.edge)).collect();
    edges.sort_by_key(|e| (e.0, e.1));
    assert_eq!(
        edges,
        vec![
            (whole, lower, Edge { src: Some(0), src_id: Some(id('a')), dst: Some(0), dst_id: Some(id('b')) }),
            (lower, below, Edge { src: Some(1), src_id: Some(id('c')), dst: Some(0), dst_id: Some(id('d')) }),
        ]
    );
}

#[test]
fn reachable_segments_are_marked() {
    let mut graph = Graph::new(Options::default());
    for _ in 0..4 {
        graph.insert_segment(Segment::new(None)).unwrap();
    }
    graph.connect_segments(0, None, 1, None).unwrap();
    graph.connect_segments(1, None, 2, None).unwrap();
    graph.connect_segments(3, None, 2, None).unwrap();
    assert_eq!(graph.reachable_from(0), vec![true, true, true, false]);
    assert_eq!(graph.reachable_from(3), vec![false, false, true, true]);
    assert_eq!(graph.reachable_from(2), vec![false, false, true, false]);
    assert_eq!(graph.reachable_from(9), vec![false, false, false, false]);
}

#[test]
fn linear_history_is_one_segment() {
    let history = [commit('3', &['2']), commit('2', &['1']), commit('1', &[])];
    let seed = Seed {
        tip: id('3'),
        ref_name: Some("refs/heads/main".into()),
        workspaces: vec![],
        refs_by_id: vec![refs('3', &["refs/heads/main"]), refs('2', &["refs/tags/v1"])],
    };
    let mut traversal = Traversal::start(seed, Options::default()).unwrap();
    assert_eq!(traversal.next_commit(), Some(id('3')));
    assert_eq!(traversal.refs_at(&id('2')), Some(&vec!["refs/tags/v1".to_string()]));
    assert_eq!(walk(&mut traversal, &history), Advance::Idle);
    let graph = traversal.finish();
    assert_eq!(graph.segment_ids(), vec![0]);
    let segment = graph.segment(0).unwrap();
    assert_eq!(segment.ref_name, Some("refs/heads/main".to_string()));
    assert_eq!(ids_of(segment), vec![id('3'), id('2'), id('1')]);
    assert_eq!(segment.commits[0].refs, Vec::<String>::new());
    assert_eq!(segment.commits[1].refs, vec!["refs/tags/v1".to_string()]);
    for commit in &segment.commits {
        assert_eq!(commit.flags.bits, NOT_IN_REMOTE | 8);
    }
    assert_eq!(graph.entrypoint, Some((0, Some(0))));
    assert_eq!(graph.entrypoint_ref, Some("refs/heads/main".to_string()));
    assert!(!graph.hard_limit_hit);
    assert!(graph.edge_list().is_empty());
}

#[test]
fn a_branch_below_starts_a_segment_of_its_own() {
    let history = [commit('3', &['2']), commit('2', &['1']), commit('1', &[])];
    let seed = Seed {
        tip: id('3'),
        ref_name: Some("refs/heads/top".into()),
        workspaces: vec![],
        refs_by_id: vec![refs('3', &["refs/heads/top"]), refs('2', &["refs/heads/base", "refs/remotes/origin/base"])],
    };
    let mut traversal = Traversal::start(seed, Options::default()).unwrap();
    assert_eq!(walk(&mut traversal, &history), Advance::Idle);
    let graph = traversal.finish();
    assert_eq!(graph.segment_ids(), vec![0, 1]);
    assert_eq!(ids_of(graph.segment(0).unwrap()), vec![id('3')]);
    let base = graph.segment(1).unwrap();
    assert_eq!(base.ref_name, Some("refs/heads/base".to_string()));
    assert_eq!(ids_of(base), vec![id('2'), id('1')]);
    assert_eq!(base.commits[0].refs, Vec::<String>::new());
    let edges = graph.edge_list();
    assert_eq!(edges.len(), 1);
    assert_eq!(
        edges[0].edge,
        Edge { src: Some(0), src_id: Some(id('3')), dst: Some(0), dst_id: Some(id('2')) }
    );
}

#[test]
fn merge_parents_meet_in_a_split_segment() {
    let history = [commit('4', &['2', '3']), commit('2', &['1']), commit('3', &['1']), commit('1', &['0']), commit('0', &[])];
    let seed = Seed { tip: id('4'), ref_name: None, workspaces: vec![], refs_by_id: vec![] };
    let mut traversal = Traversal::start(seed, Options::default()).unwrap();
    assert_eq!(traversal.advance(commit('4', &['2', '3'])), Advance::Taken { segment: 0, commit: 0 });
    assert_eq!(traversal.advance(commit('2', &['1'])), Advance::Taken { segment: 1, commit: 0 });
    assert_eq!(traversal.advance(commit('3', &['1'])), Advance::Taken { segment: 2, commit: 0 });
    assert_eq!(traversal.advance(commit('1', &['0'])), Advance::Taken { segment: 1, commit: 1 });
    assert_eq!(traversal.advance(commit('1', &['0'])), Advance::Met { segment: 3 });
    assert_eq!(walk(&mut traversal, &history), Advance::Idle);
    let graph = traversal.finish();
    assert_eq!(graph.segment_ids(), vec![0, 1, 2, 3]);
    assert_eq!(ids_of(graph.segment(0).unwrap()), vec![id('4')]);
    assert_eq!(ids_of(graph.segment(1).unwrap()), vec![id('2')]);
    assert_eq!(ids_of(graph.segment(2).unwrap()), vec![id('3')]);
    assert_eq!(ids_of(graph.segment(3).unwrap()), vec![id('1'), id('0')]);
    let mut edges = endpoints(&graph);
    edges.sort();
    assert_eq!(edges, vec![(0, 1), (0, 2), (1, 3), (2, 3)]);
    let mut all: Vec<ObjectId> = graph.segment_ids().iter().flat_map(|s| ids_of(graph.segment(*s).unwrap())).collect();
    all.sort_by_key(|c| c.to_hex());
    assert_eq!(all, vec![id('0'), id('1'), id('2'), id('3'), id('4')]);
}

#[test]
fn flags_of_a_second_lane_reach_what_was_taken() {
    let workspace = WorkspaceTip {
        tip: id('9'),
        ref_name: "refs/heads/gitbutler/workspace".into(),
        metadata: Workspace { target_ref: None, push_remote: None, stacks: vec![] },
        target: None,
        branch_tips: vec![],
    };
    let history = [commit('9', &['2']), commit('3', &['2']), commit('2', &['1']), commit('1', &[])];
    let seed = Seed {
        tip: id('3'),
        ref_name: Some("refs/heads/feature".into()),
        workspaces: vec![workspace],
        refs_by_id: vec![refs('3', &["refs/heads/feature"])],
    };
    let mut traversal = Traversal::start(seed, Options::default()).unwrap();
    assert_eq!(traversal.next_commit(), Some(id('9')));
    assert_eq!(walk(&mut traversal, &history), Advance::Idle);
    let graph = traversal.finish();
    let workspace_segment = graph.segment(1).unwrap();
    assert_eq!(workspace_segment.ref_name, Some("refs/heads/gitbutler/workspace".to_string()));
    assert!(matches!(workspace_segment.metadata, Some(SegmentMetadata::Workspace(_))));
    assert_eq!(ids_of(workspace_segment), vec![id('9')]);
    let feature = graph.segment(0).unwrap();
    assert_eq!(ids_of(feature), vec![id('3')]);
    assert!(!feature.commits[0].flags.contains(CommitFlags::in_workspace()));
    let shared = graph.segment(2).unwrap();
    assert_eq!(shared.ref_name, None);
    assert_eq!(ids_of(shared), vec![id('2'), id('1')]);
    for commit in workspace_segment.commits.iter().chain(shared.commits.iter()) {
        assert!(commit.flags.contains(CommitFlags { bits: IN_WORKSPACE | NOT_IN_REMOTE }));
    }
    for commit in &shared.commits {
        assert!(commit.flags.contains(feature.commits[0].flags));
    }
    let mut edges = endpoints(&graph);
    edges.sort();
    assert_eq!(edges, vec![(0, 2), (1, 2)]);
    assert_eq!(graph.entrypoint, Some((0, Some(0))));
}

#[test]
fn hint_ends_a_lane_and_the_hard_limit_ends_the_traversal() {
    let history = [commit('3', &['2']), commit('2', &['1']), commit('1', &[])];
    let seed = || Seed { tip: id('3'), ref_name: None, workspaces: vec![], refs_by_id: vec![] };
    let mut hinted = Traversal::start(seed(), Options::default().with_limit_hint(1)).unwrap();
    assert_eq!(walk(&mut hinted, &history), Advance::Idle);
    assert_eq!(ids_of(hinted.finish().segment(0).unwrap()), vec![id('3'), id('2')]);

    let recharged = Options::default().with_limit_hint(1).with_limit_extension_at(vec![id('2')]);
    let mut again = Traversal::start(seed(), recharged).unwrap();
    assert_eq!(walk(&mut again, &history), Advance::Idle);
    assert_eq!(ids_of(again.finish().segment(0).unwrap()), vec![id('3'), id('2'), id('1')]);

    let mut capped = Traversal::start(seed(), Options::default().with_hard_limit(2)).unwrap();
    assert_eq!(walk(&mut capped, &history), Advance::HardLimit);
    let partial = capped.finish();
    assert!(partial.hard_limit_hit);
    assert_eq!(ids_of(partial.segment(0).unwrap()), vec![id('3')]);
}

#[test]
fn commits_out_of_turn_are_refused() {
    let seed = Seed { tip: id('3'), ref_name: None, workspaces: vec![], refs_by_id: vec![] };
    let mut traversal = Traversal::start(seed, Options::default()).unwrap();
    assert_eq!(traversal.advance(commit('2', &[])), Advance::Unexpected);
    assert_eq!(traversal.next_commit(), Some(id('3')));
    assert_eq!(traversal.advance(commit('3', &[])), Advance::Taken { segment: 0, commit: 0 });
    assert_eq!(traversal.advance(commit('3', &[])), Advance::Idle);
    assert_eq!(traversal.next_commit(), None);
}

#[test]
fn remote_tracking_branch_is_queued_with_its_local_branch() {
    let local = CommitInfo {
        id: id('2'),
        parent_ids: vec![id('1')],
        remote_tips: vec![RemoteTip { ref_name: "refs/remotes/origin/main".into(), id: id('5') }],
    };
    let history = [local.clone(), commit('5', &['1']), commit('1', &[])];
    let seed = Seed {
        tip: id('2'),
        ref_name: Some("refs/heads/main".into()),
        workspaces: vec![],
        refs_by_id: vec![refs('2', &["refs/heads/main"]), refs('5', &["refs/remotes/origin/main"])],
    };
    let mut traversal = Traversal::start(seed, Options::default()).unwrap();
    assert_eq!(traversal.advance(local), Advance::Taken { segment: 0, commit: 0 });
    let queued: Vec<ObjectId> = traversal.next.items.iter().map(|i| i.id).collect();
    assert_eq!(queued, vec![id('1'), id('5')]);
    assert_eq!(traversal.next.items[1].limit.allowance, Some(0));
    assert_eq!(walk(&mut traversal, &history), Advance::Idle);
    let graph = traversal.finish();
    let remote = graph.segment(1).unwrap();
    assert_eq!(remote.ref_name, Some("refs/remotes/origin/main".to_string()));
    assert_eq!(ids_of(remote), vec![id('5')]);
    assert_eq!(ids_of(graph.segment(0).unwrap()), vec![id('2')]);
    assert_eq!(ids_of(graph.segment(2).unwrap()), vec![id('1')]);
    let mut edges = endpoints(&graph);
    edges.sort();
    assert_eq!(edges, vec![(0, 2), (1, 2)]);
}

#[test]
fn traversal_cannot_start_at_a_remote_tracking_branch() {
    let seed = Seed { tip: id('3'), ref_name: Some("refs/remotes/origin/main".into()), workspaces: vec![], refs_by_id: vec![] };
    let error = Traversal::start(seed, Options::default()).err();
    assert_eq!(error, Some(StartError::RemoteStart));
    assert_eq!(StartError::RemoteStart.message(), "Cannot currently handle remotes as start position");
}

#[test]
fn head_decides_how_the_graph_begins() {
    let unborn = Traversal::from_head(Head::Unborn { ref_name: "refs/heads/main".into() }, vec![], vec![], Options::default());
    let Ok(Begin::Unborn(graph)) = unborn else { panic!("an unborn head gives a graph") };
    assert_eq!(graph.entrypoint, Some((0, None)));
    assert_eq!(graph.segment(0).unwrap().ref_name, Some("refs/heads/main".to_string()));
    assert!(graph.segment(0).unwrap().commits.is_empty());

    let detached = Traversal::from_head(
        Head::Detached { id: id('3') },
        vec![],
        vec![refs('3', &["refs/heads/main"])],
        Options::default(),
    );
    let Ok(Begin::Walk(mut traversal)) = detached else { panic!("a detached head gives a traversal") };
    assert!(traversal.detached);
    assert_eq!(walk(&mut traversal, &[commit('3', &[])]), Advance::Idle);
    let graph = traversal.finish();
    let segment = graph.segment(0).unwrap();
    assert_eq!(segment.ref_name, None);
    assert_eq!(segment.commits[0].refs, vec!["refs/heads/main".to_string()]);

    let symbolic = Traversal::from_head(
        Head::Symbolic { ref_name: "refs/remotes/origin/main".into(), id: id('3') },
        vec![],
        vec![],
        Options::default(),
    );
    assert!(matches!(symbolic, Err(StartError::RemoteStart)));
}

#[test]
fn target_and_its_local_branch_are_seeded_in_front() {
    let workspace = WorkspaceTip {
        tip: id('9'),
        ref_name: "refs/heads/gitbutler/workspace".into(),
        metadata: Workspace { target_ref: Some("refs/remotes/origin/main".into()), push_remote: None, stacks: vec![] },
        target: Some(TargetTip {
            ref_name: "refs/remotes/origin/main".into(),
            id: id('7'),
            local: Some(LocalTip { ref_name: "refs/heads/main".into(), id: id('6') }),
        }),
        branch_tips: vec![id('4'), id('9')],
    };
    let seed = Seed {
        tip: id('9'),
        ref_name: Some("refs/heads/gitbutler/workspace".into()),
        workspaces: vec![workspace],
        refs_by_id: vec![refs('6', &["refs/heads/main"])],
    };
    let options = Options { extra_target_commit_id: Some(id('5')), ..Options::default() };
    let traversal = Traversal::start(seed, options).unwrap();
    let queued: Vec<(ObjectId, u32)> = traversal.next.items.iter().map(|i| (i.id, i.flags.named().bits)).collect();
    assert_eq!(
        queued,
        vec![
            (id('5'), INTEGRATED),
            (id('7'), INTEGRATED),
            (id('6'), NOT_IN_REMOTE),
            (id('9'), IN_WORKSPACE | NOT_IN_REMOTE),
            (id('4'), NOT_IN_REMOTE),
        ]
    );
    assert_eq!(traversal.graph.entrypoint, Some((0, None)));
    assert_eq!(traversal.graph.extra_target, Some(3));
    assert_eq!(traversal.graph.segment(1).unwrap().sibling_segment_id, Some(2));
    assert_eq!(traversal.graph.segment(2).unwrap().sibling_segment_id, Some(1));
    assert_eq!(traversal.next.items[1].limit.allowance, Some(0));
}

#[test]
fn references_that_do_not_belong_are_dropped_at_the_end() {
    let seed = Seed {
        tip: id('3'),
        ref_name: None,
        workspaces: vec![],
        refs_by_id: vec![refs('3', &["refs/remotes/origin/main", "refs/heads/only", "refs/tags/v2"])],
    };
    let mut traversal = Traversal::start(seed.clone(), Options::default()).unwrap();
    assert_eq!(walk(&mut traversal, &[commit('3', &[])]), Advance::Idle);
    let graph = traversal.finish();
    let segment = graph.segment(0).unwrap();
    assert_eq!(segment.ref_name, Some("refs/heads/only".to_string()));
    assert_eq!(segment.commits[0].refs, vec!["refs/tags/v2".to_string()]);

    let raw = Options { dangerously_skip_postprocessing_for_debugging: true, ..Options::default() };
    let mut traversal = Traversal::start(seed, raw).unwrap();
    assert_eq!(walk(&mut traversal, &[commit('3', &[])]), Advance::Idle);
    let graph = traversal.finish();
    assert_eq!(graph.segment(0).unwrap().commits[0].refs.len(), 2);
    assert_eq!(graph.entrypoint, Some((0, None)));
}

#[test]
fn references_are_grouped_by_commit_in_order_of_appearance() {
    let a = ObjectId::from_bytes([1; 20]);
    let b = ObjectId::from_bytes([2; 20]);
    let named = vec![
        NamedRef { name: "refs/heads/main".into(), id: a },
        NamedRef { name: "refs/heads/feature".into(), id: b },
        NamedRef { name: "refs/remotes/origin/main".into(), id: a },
        NamedRef { name: "refs/heads/main".into(), id: a },
    ];
    let refs = group_refs(named);
    assert_eq!(
        refs,
        vec![
            RefsAt { id: a, names: vec!["refs/heads/main".to_string(), "refs/remotes/origin/main".to_string()] },
            RefsAt { id: b, names: vec!["refs/heads/feature".to_string()] },
        ]
    );
    assert!(group_refs(Vec::new()).is_empty());
}

#[test]
fn a_traversal_without_limits_takes_every_ancestor_once() {
    let history = vec![
        commit('a', &['b', 'c']),
        commit('b', &['d']),
        commit('c', &['d']),
        commit('d', &['e']),
        commit('e', &[]),
    ];
    let seed = Seed { tip: id('a'), ref_name: Some("refs/heads/main".into()), workspaces: vec![], refs_by_id: vec![] };
    let mut traversal = Traversal::start(seed, Options::default()).unwrap();
    assert_eq!(walk(&mut traversal, &history), Advance::Idle);
    let graph = traversal.finish();
    let mut seen = Vec::new();
    for index in graph.segment_ids() {
        seen.extend(ids_of(graph.segment(index).unwrap()));
    }
    seen.sort();
    assert_eq!(seen, vec![id('a'), id('b'), id('c'), id('d'), id('e')]);
    for index in graph.segment_ids() {
        for commit in &graph.segment(index).unwrap().commits {
            assert!(commit.flags.bits & NOT_IN_REMOTE == NOT_IN_REMOTE);
            for parent in &commit.parent_ids {
                assert!(graph.locate(parent).is_some());
            }
        }
    }
}

#[test]
fn items_are_pushed_until_one_exhausts_the_queue() {
    let item = |digit: char| QueueItem {
        id: id(digit),
        flags: CommitFlags { bits: 0 },
        instruction: Instruction::CollectCommit { into: 0 },
        limit: Limit::new(None),
    };
    let mut queue = Queue::new_with_limit(Some(2));
    assert!(queue.push_all(&vec![item('a'), item('b'), item('c')]));
    assert_eq!(queue.items, vec![item('a'), item('b')]);
    assert_eq!(queue.count, 2);
    let mut queue = Queue::new_with_limit(None);
    assert!(!queue.push_all(&vec![item('a'), item('b'), item('c')]));
    assert_eq!(queue.items.len(), 3);
    assert_eq!(queue.count, 3);
    assert!(!queue.push_all(&vec![]));
    assert_eq!(queue.count, 3);
}

#[test]
fn a_goal_without_a_flag_left_gets_none() {
    let mut goals = Goals::new();
    assert_eq!(goals.flag_or_none(id('a')).bits, 8);
    assert_eq!(goals.flag_or_none(id('b')).bits, 16);
    assert_eq!(goals.flag_or_none(id('a')).bits, 8);
    for k in 2..29u8 {
        assert_ne!(goals.flag_or_none(ObjectId::from_bytes([k; 20])).bits, 0);
    }
    assert_eq!(goals.ids.len(), 29);
    assert!(!goals.missed);
    assert_eq!(goals.flag_or_none(id('c')).bits, 0);
    assert!(goals.missed);
    assert_eq!(goals.ids.len(), 29);
    assert_eq!(goals.flag_or_none(id('b')).bits, 16);
}

#[test]
fn extra_target_and_branch_tips_are_seeded_around_the_head() {
    let workspace = WorkspaceTip {
        tip: id('a'),
        ref_name: "refs/heads/gitbutler/workspace".into(),
        metadata: Workspace { target_ref: None, push_remote: None, stacks: vec![] },
        target: None,
        branch_tips: vec![id('b'), id('a'), id('c')],
    };
    let seed = Seed {
        tip: id('d'),
        ref_name: Some("refs/heads/main".into()),
        workspaces: vec![workspace],
        refs_by_id: vec![refs('c', &["refs/heads/feature"])],
    };
    let mut options = Options::default();
    options.extra_target_commit_id = Some(id('e'));
    let traversal = Traversal::start(seed, options).unwrap();
    let queued: Vec<ObjectId> = traversal.next.items.iter().map(|item| item.id).collect();
    assert_eq!(queued, vec![id('e'), id('a'), id('d'), id('b'), id('c')]);
    let flags: Vec<u32> = traversal.next.items.iter().map(|item| item.flags.bits).collect();
    assert_eq!(flags, vec![INTEGRATED, IN_WORKSPACE | NOT_IN_REMOTE, NOT_IN_REMOTE | 8, NOT_IN_REMOTE, NOT_IN_REMOTE]);
    assert_eq!(traversal.next.items[0].limit, Limit { allowance: Some(0), goals: CommitFlags { bits: 8 } });
    assert_eq!(traversal.next.items[1].limit, Limit { allowance: None, goals: CommitFlags { bits: 8 } });
    assert_eq!(traversal.next.items[2].limit, Limit::new(None));
    let extra = traversal.next.items[0].instruction.segment_idx();
    assert_eq!(traversal.graph.extra_target, Some(extra));
    let head = traversal.next.items[2].instruction.segment_idx();
    assert_eq!(traversal.graph.entrypoint, Some((head, None)));
    let feature = traversal.next.items[4].instruction.segment_idx();
    assert_eq!(traversal.graph.segment(feature).unwrap().ref_name, Some("refs/heads/feature".to_string()));
    let ws = traversal.next.items[1].instruction.segment_idx();
    assert!(matches!(traversal.graph.segment(ws).unwrap().metadata, Some(SegmentMetadata::Workspace(_))));
}

#[test]
fn more_goals_than_flags_end_the_traversal() {
    let numbered = |k: u8| ObjectId::from_bytes([k; 20]);
    let workspaces: Vec<WorkspaceTip> = (0..29u8)
        .map(|k| WorkspaceTip {
            tip: numbered(100 + k),
            ref_name: format!("refs/heads/workspace{k}"),
            metadata: Workspace { target_ref: None, push_remote: None, stacks: vec![] },
            target: Some(TargetTip {
                ref_name: format!("refs/remotes/origin/target{k}"),
                id: numbered(150 + k),
                local: Some(LocalTip { ref_name: format!("refs/heads/target{k}"), id: numbered(200 + k) }),
            }),
            branch_tips: vec![],
        })
        .collect();
    let seed = Seed { tip: id('a'), ref_name: Some("refs/heads/main".into()), workspaces, refs_by_id: vec![] };
    let result = Traversal::start(seed, Options::default());
    assert_eq!(result.err(), Some(StartError::TooManyGoals));
    assert_eq!(StartError::TooManyGoals.message(), "The tips have more goals than there are flags for them");

    let seed = Seed { tip: id('a'), ref_name: Some("refs/heads/main".into()), workspaces: vec![], refs_by_id: vec![] };
    let mut traversal = Traversal::start(seed, Options::default()).unwrap();
    let remote_tips: Vec<RemoteTip> =
        (0..29u8).map(|k| RemoteTip { ref_name: format!("refs/remotes/origin/b{k}"), id: numbered(k + 1) }).collect();
    let info = CommitInfo { id: id('a'), parent_ids: vec![], remote_tips };
    assert_eq!(traversal.advance(info), Advance::TooManyGoals);
    assert!(traversal.goals.missed);
    assert!(traversal.graph.locate(&id('a')).is_none());

    let seed = Seed { tip: id('a'), ref_name: Some("refs/heads/main".into()), workspaces: vec![], refs_by_id: vec![] };
    let mut traversal = Traversal::start(seed, Options::default()).unwrap();
    let remote_tips: Vec<RemoteTip> =
        (0..14u8).map(|k| RemoteTip { ref_name: format!("refs/remotes/origin/b{k}"), id: numbered(k + 1) }).collect();
    let info = CommitInfo { id: id('a'), parent_ids: vec![], remote_tips };
    assert!(matches!(traversal.advance(info), Advance::Taken { .. }));
    assert!(!traversal.goals.missed);
}

#[test]
fn commits_are_found_where_they_were_taken_and_where_they_went() {
    let history = vec![commit('a', &['c']), commit('b', &['c']), commit('c', &['d']), commit('d', &[])];
    let workspace = WorkspaceTip {
        tip: id('b'),
        ref_name: "refs/heads/gitbutler/workspace".into(),
        metadata: Workspace { target_ref: None, push_remote: None, stacks: vec![] },
        target: None,
        branch_tips: vec![],
    };
    let seed = Seed { tip: id('a'), ref_name: Some("refs/heads/main".into()), workspaces: vec![workspace], refs_by_id: vec![] };
    let mut traversal = Traversal::start(seed, Options::default()).unwrap();
    assert_eq!(traversal.taken_into(&id('b')), None);
    assert_eq!(traversal.locate(&id('b')), None);
    let first = traversal.advance(history[1].clone());
    let Advance::Taken { segment, commit: place } = first else {
        panic!("the tip of the workspace is taken first");
    };
    assert_eq!(traversal.taken_into(&id('b')), Some(segment));
    assert_eq!(traversal.locate(&id('b')), Some((segment, place)));
    assert_eq!(traversal.taken_into(&id('a')), None);
    assert_eq!(walk(&mut traversal, &history), Advance::Idle);
    for digit in ['a', 'b', 'c', 'd'] {
        let (s, c) = traversal.locate(&id(digit)).unwrap();
        assert_eq!(traversal.graph.segment(s).unwrap().commits[c].id, id(digit));
        assert_eq!(traversal.graph.locate(&id(digit)), Some((s, c)));
        assert!(traversal.taken_into(&id(digit)).is_some());
    }
    assert_eq!(traversal.locate(&id('e')), None);
}

#[test]
fn a_detached_head_gives_the_name_back_even_without_postprocessing() {
    let raw = Options { dangerously_skip_postprocessing_for_debugging: true, ..Options::default() };
    let history = [commit('3', &['2']), commit('2', &[])];
    let detached = Traversal::from_head(
        Head::Detached { id: id('3') },
        vec![],
        vec![refs('3', &["refs/heads/main", "refs/remotes/origin/main"]), refs('2', &["refs/remotes/origin/old"])],
        raw.clone(),
    );
    let Ok(Begin::Walk(mut traversal)) = detached else { panic!("a detached head gives a traversal") };
    assert_eq!(walk(&mut traversal, &history), Advance::Idle);
    let graph = traversal.finish();
    assert_eq!(graph.entrypoint, Some((0, None)));
    let segment = graph.segment(0).unwrap();
    assert_eq!(segment.ref_name, None);
    assert_eq!(
        segment.commits[0].refs,
        vec!["refs/remotes/origin/main".to_string(), "refs/heads/main".to_string()]
    );
    assert_eq!(segment.commits[1].refs, vec!["refs/remotes/origin/old".to_string()]);

    let seed = Seed {
        tip: id('3'),
        ref_name: Some("refs/heads/main".into()),
        workspaces: vec![],
        refs_by_id: vec![refs('3', &["refs/heads/main", "refs/remotes/origin/main"])],
    };
    let mut attached = Traversal::start(seed, raw).unwrap();
    assert_eq!(walk(&mut attached, &history), Advance::Idle);
    let graph = attached.finish();
    let segment = graph.segment(0).unwrap();
    assert_eq!(segment.ref_name, Some("refs/heads/main".to_string()));
    assert_eq!(segment.commits[0].refs, vec!["refs/remotes/origin/main".to_string()]);
}

#[test]
fn the_workspace_that_the_traversal_started_at_is_the_entrypoint() {
    let workspace = |name: &str, digit: char| WorkspaceTip {
        tip: id(digit),
        ref_name: name.into(),
        metadata: Workspace { target_ref: None, push_remote: None, stacks: vec![] },
        target: None,
        branch_tips: vec![],
    };
    let seed = Seed {
        tip: id('b'),
        ref_name: Some("refs/heads/second".into()),
        workspaces: vec![workspace("refs/heads/first", 'a'), workspace("refs/heads/second", 'b')],
        refs_by_id: vec![],
    };
    let traversal = Traversal::start(seed, Options::default()).unwrap();
    let (entry, _) = traversal.graph.entrypoint.unwrap();
    assert_eq!(traversal.graph.segment(entry).unwrap().ref_name, Some("refs/heads/second".to_string()));
    let queued: Vec<ObjectId> = traversal.next.items.iter().map(|item| item.id).collect();
    assert_eq!(queued, vec![id('b'), id('a')]);
    assert_eq!(traversal.next.items[0].instruction.segment_idx(), entry);
}

#[test]
fn in_each_segment_flags_run_from_commit_to_commit() {
    let history = vec![
        commit('a', &['c']),
        commit('b', &['c']),
        commit('c', &['d']),
        commit('d', &['e', 'f']),
        commit('e', &['9']),
        commit('f', &['9']),
        commit('9', &[]),
    ];
    let workspace = WorkspaceTip {
        tip: id('b'),
        ref_name: "refs/heads/gitbutler/workspace".into(),
        metadata: Workspace { target_ref: None, push_remote: None, stacks: vec![] },
        target: Some(TargetTip { ref_name: "refs/remotes/origin/main".into(), id: id('e'), local: None }),
        branch_tips: vec![],
    };
    let seed = Seed { tip: id('a'), ref_name: Some("refs/heads/main".into()), workspaces: vec![workspace], refs_by_id: vec![] };
    let mut traversal = Traversal::start(seed, Options::default()).unwrap();
    assert_eq!(walk(&mut traversal, &history), Advance::Idle);
    let graph = traversal.finish();
    let mut seen = 0;
    for index in graph.segment_ids() {
        let commits = &graph.segment(index).unwrap().commits;
        seen += commits.len();
        for pair in commits.windows(2) {
            assert_eq!(pair[1].flags.bits & pair[0].flags.bits, pair[0].flags.bits);
        }
    }
    assert!(seen >= 5);
    let (s, c) = graph.locate(&id('c')).unwrap();
    let flags = graph.segment(s).unwrap().commits[c].flags.bits;
    assert_eq!(flags & (NOT_IN_REMOTE | IN_WORKSPACE), NOT_IN_REMOTE | IN_WORKSPACE);
}
