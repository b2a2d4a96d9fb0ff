use ferrite::git_graph::{
    assign_branch_lanes, lane_of, layout_git_graph, parse_git_graph, GitCommitKind, GitGraph,
    GitGraphCommitLayout, GitGraphLayout, GitGraphOrientation, GridPos,
};

fn pos(c: &GitGraphCommitLayout) -> GridPos {
    GridPos { seq: c.sequence, lane: c.lane }
}

fn layout(source: &str) -> GitGraphLayout {
    let graph = parse_git_graph(source).expect("parse");
    layout_git_graph(&graph)
}

fn parse(body: &str) -> GitGraph {
    parse_git_graph(body).expect("parse should succeed")
}

#[test]
fn basic_commits_and_branches_still_parse() {
    let graph = parse(
        "gitGraph\n  commit\n  branch develop\n  commit id: \"d1\"\n  checkout main\n  merge develop",
    );
    assert_eq!(graph.commits.len(), 3);
    assert!(graph.commits[0].id.starts_with('c'));
    assert_eq!(graph.commits[1].id, "d1");
    assert!(graph.commits[2].is_merge);
    assert_eq!(graph.commits[2].merge_from.as_deref(), Some("develop"));
    assert!(graph.warnings.is_empty());
}

#[test]
fn parse_commit_tag() {
    let graph = parse("gitGraph\n  commit id: \"a1\" tag: \"v1.0\"");
    assert_eq!(graph.commits[0].tag.as_deref(), Some("v1.0"));
}

#[test]
fn parse_commit_type_variants() {
    let normal = parse("gitGraph\n  commit type: NORMAL");
    assert_eq!(normal.commits[0].kind, GitCommitKind::Normal);

    let reverse = parse("gitGraph\n  commit type: REVERSE");
    assert_eq!(reverse.commits[0].kind, GitCommitKind::Reverse);

    let highlight = parse("gitGraph\n  commit type: HIGHLIGHT");
    assert_eq!(highlight.commits[0].kind, GitCommitKind::Highlight);
}

#[test]
fn parse_branch_order() {
    let graph = parse("gitGraph\n  branch develop order: 2\n  commit");
    let develop = graph.branches.iter().find(|b| b.name == "develop").unwrap();
    assert_eq!(develop.order, Some(2));
}

#[test]
fn switch_is_checkout_alias() {
    let graph = parse("gitGraph\n  commit\n  branch feature\n  switch feature\n  commit id: \"f1\"");
    assert_eq!(graph.commits[1].branch, "feature");
    assert_eq!(graph.commits[1].id, "f1");
}

#[test]
fn cherry_pick_known_id() {
    let graph = parse("gitGraph\n  commit id: \"base\"\n  branch feature\n  cherry-pick id: \"base\"");
    let cp = graph.commits.last().unwrap();
    assert!(cp.is_cherry_pick);
    assert_eq!(cp.cherry_pick_from_id.as_deref(), Some("base"));
    assert!(graph.warnings.is_empty());
}

#[test]
fn cherry_pick_unknown_id_emits_warning() {
    let graph = parse("gitGraph\n  commit\n  cherry-pick id: \"missing\"");
    assert_eq!(graph.warnings.len(), 1);
    assert_eq!(graph.warnings[0].line, 3);
    assert!(graph.warnings[0].message.contains("unknown commit id: missing"));
    let cp = graph.commits.last().unwrap();
    assert!(cp.is_cherry_pick);
}

#[test]
fn parse_lr_and_tb_header() {
    assert_eq!(parse("gitGraph LR:\n  commit").orientation, GitGraphOrientation::Lr);
    assert_eq!(parse("gitGraph\n  commit").orientation, GitGraphOrientation::Lr);
    assert_eq!(parse("gitGraph TB:\n  commit").orientation, GitGraphOrientation::Tb);
}

#[test]
fn quoted_branch_names_are_stripped() {
    let graph = parse("gitGraph\n  branch \"feat/x\"\n  commit id: \"x1\"");
    assert!(graph.branches.iter().any(|b| b.name == "feat/x"));
    assert_eq!(graph.commits[0].branch, "feat/x");
}

#[test]
fn unknown_statement_emits_warning() {
    let graph = parse("gitGraph\n  commit\n  reset HEAD~1\n  commit id: \"after\"");
    assert_eq!(graph.warnings.len(), 1);
    assert_eq!(graph.warnings[0].line, 3);
    assert!(graph.warnings[0].message.contains("Unknown gitGraph statement"));
    assert_eq!(graph.commits.len(), 2);
    assert_eq!(graph.commits[1].id, "after");
}

#[test]
fn empty_graph_is_error() {
    assert!(parse_git_graph("gitGraph\n").is_err());
}

const FIXTURE_FEATURE_MERGE: &str = r#"gitGraph
  commit id: "ROOT"
  branch develop
  commit id: "DEV1" msg: "Feature work"
  checkout main
  commit id: "MAIN1" msg: "Mainline fix"
  merge develop id: "MERGE1""#;

const FIXTURE_MULTI_BRANCH_ORDER: &str = r#"gitGraph
  commit id: "BASE"
  branch hotfix order: 2
  commit id: "HF1"
  branch feature order: 1
  commit id: "FE1"
  checkout main
  commit id: "MAIN2""#;

const FIXTURE_TAGS_CHERRY_PICK: &str = r#"gitGraph
  commit id: "abc" tag: "v1.0" type: NORMAL
  branch release
  commit id: "rel1" tag: "v1.1"
  checkout main
  cherry-pick id: "abc"
  commit type: HIGHLIGHT"#;

#[test]
fn fixture_feature_branch_merge_topology() {
    let graph = parse(FIXTURE_FEATURE_MERGE);
    assert_eq!(graph.commits.len(), 4);
    assert_eq!(graph.commits[0].id, "ROOT");
    assert_eq!(graph.commits[1].id, "DEV1");
    assert_eq!(graph.commits[1].branch, "develop");
    assert_eq!(graph.commits[2].id, "MAIN1");
    assert_eq!(graph.commits[3].id, "MERGE1");
    assert!(graph.commits[3].is_merge);
    assert_eq!(graph.commits[3].merge_from.as_deref(), Some("develop"));

    let layout = layout_git_graph(&graph);
    assert_eq!(lane_of(&layout.branch_lanes, "main"), Some(0));
    assert_eq!(lane_of(&layout.branch_lanes, "develop"), Some(1));
    assert_eq!(layout.merge_connectors.len(), 1);
    assert_eq!(layout.merge_connectors[0].source_branch, "develop");
    assert_eq!(layout.merge_connectors[0].source_pos, pos(&layout.commits[1]));
    assert_eq!(layout.merge_connectors[0].target_pos, pos(&layout.commits[3]));
}

#[test]
fn fixture_multi_branch_order_topology() {
    let graph = parse(FIXTURE_MULTI_BRANCH_ORDER);
    let layout = layout_git_graph(&graph);

    assert_eq!(lane_of(&layout.branch_lanes, "main"), Some(0));
    assert_eq!(lane_of(&layout.branch_lanes, "feature"), Some(1));
    assert_eq!(lane_of(&layout.branch_lanes, "hotfix"), Some(2));

    // feature (lane 1) sits between main (0) and hotfix (2)
    let lane_of_commit = |id: &str| {
        layout
            .commits
            .iter()
            .find(|c| graph.commits[c.commit_index].id == id)
            .unwrap()
            .lane
    };
    let main_y = lane_of_commit("MAIN2");
    let feature_y = lane_of_commit("FE1");
    let hotfix_y = lane_of_commit("HF1");
    assert!(main_y < feature_y);
    assert!(feature_y < hotfix_y);
}

#[test]
fn fixture_tags_cherry_pick_topology() {
    let graph = parse(FIXTURE_TAGS_CHERRY_PICK);
    assert_eq!(graph.commits[0].tag.as_deref(), Some("v1.0"));
    assert_eq!(graph.commits[1].tag.as_deref(), Some("v1.1"));
    assert!(graph.commits[2].is_cherry_pick);
    assert_eq!(graph.commits[2].cherry_pick_from_id.as_deref(), Some("abc"));
    assert_eq!(graph.commits[3].kind, GitCommitKind::Highlight);

    let layout = layout_git_graph(&graph);
    assert_eq!(layout.cherry_pick_connectors.len(), 1);
    assert_eq!(layout.cherry_pick_connectors[0].source_pos, pos(&layout.commits[0]));
    assert_eq!(layout.cherry_pick_connectors[0].target_pos, pos(&layout.commits[2]));
    assert_eq!(lane_of(&layout.branch_lanes, "main"), Some(0));
    assert_eq!(lane_of(&layout.branch_lanes, "release"), Some(1));
}

#[test]
fn sequence_indices_follow_declaration_order() {
    let layout = layout(
        "gitGraph\n  commit id: \"a\"\n  branch develop\n  commit id: \"b\"\n  checkout main\n  merge develop",
    );
    assert_eq!(layout.commits.len(), 3);
    assert_eq!(layout.commits[0].sequence, 0);
    assert_eq!(layout.commits[1].sequence, 1);
    assert_eq!(layout.commits[2].sequence, 2);
}

#[test]
fn merge_connector_from_source_branch_tip_to_target() {
    let layout =
        layout("gitGraph\n  commit\n  branch develop\n  commit\n  checkout main\n  merge develop");
    assert_eq!(layout.merge_connectors.len(), 1);
    let merge = &layout.merge_connectors[0];
    let develop_tip = pos(layout.commits.iter().find(|c| c.sequence == 1).expect("develop commit"));

    assert_eq!(merge.source_pos, develop_tip);
    assert_eq!(merge.target_pos, pos(&layout.commits[2]));
    assert_eq!(merge.target_commit_index, 2);
    assert_eq!(merge.source_branch, "develop");
}

#[test]
fn cherry_pick_connector_links_source_and_target() {
    let layout = layout("gitGraph\n  commit id: \"base\"\n  branch feature\n  cherry-pick id: \"base\"");
    assert_eq!(layout.cherry_pick_connectors.len(), 1);
    let cp = &layout.cherry_pick_connectors[0];
    assert_eq!(cp.source_pos, pos(&layout.commits[0]));
    assert_eq!(cp.target_pos, pos(&layout.commits[1]));
}

#[test]
fn branch_line_has_branch_off_on_parent() {
    let layout = layout("gitGraph\n  commit\n  branch develop\n  commit");
    let develop_line = layout
        .branch_lines
        .iter()
        .find(|l| l.branch == "develop")
        .expect("develop branch line");
    assert_eq!(develop_line.branch_off, Some(pos(&layout.commits[0])));
    assert_eq!(develop_line.start, pos(&layout.commits[0]));
    assert_eq!(develop_line.end, pos(&layout.commits[1]));
    assert_eq!(develop_line.parent_branch.as_deref(), Some("main"));
}

#[test]
fn bounds_grow_with_lanes_and_commits() {
    let small = layout("gitGraph\n  commit");
    let large = layout("gitGraph\n  commit\n  branch a\n  commit\n  branch b\n  commit\n  commit");
    assert!(large.max_sequence > small.max_sequence);
    assert!(large.max_lane > small.max_lane);
    assert_eq!((small.max_sequence, small.max_lane), (0, 0));
    assert_eq!((large.max_sequence, large.max_lane), (3, 2));
}

#[test]
fn branches_without_commits_get_no_line_and_merges_need_an_earlier_tip() {
    let layout = layout("gitGraph\n  commit\n  branch idle\n  checkout main\n  merge idle");
    assert!(layout.branch_lines.iter().all(|l| l.branch != "idle"));
    assert!(layout.merge_connectors.is_empty());
    assert_eq!(layout.branch_lines.len(), 1);
    assert_eq!(layout.branch_lines[0].branch_off, None);
}

#[test]
fn lane_assignment_declaration_order() {
    let graph =
        parse_git_graph("gitGraph\n  commit\n  branch develop\n  commit\n  branch feature\n  commit")
            .unwrap();
    let lanes = assign_branch_lanes(&graph.branches);
    assert_eq!(lane_of(&lanes, "main"), Some(0));
    assert_eq!(lane_of(&lanes, "develop"), Some(1));
    assert_eq!(lane_of(&lanes, "feature"), Some(2));
}

#[test]
fn lane_assignment_with_order_override() {
    let graph = parse_git_graph(
        "gitGraph\n  commit\n  branch develop order: 2\n  commit\n  branch feature\n  commit",
    )
    .unwrap();
    let lanes = assign_branch_lanes(&graph.branches);
    assert_eq!(lane_of(&lanes, "main"), Some(0));
    assert_eq!(lane_of(&lanes, "develop"), Some(2));
    assert_eq!(lane_of(&lanes, "feature"), Some(1));
}

#[test]
fn every_branch_gets_a_distinct_lane() {
    let graph = parse(
        "gitGraph\n  branch a order: 1\n  branch b\n  branch c order: 1\n  branch d\n  commit",
    );
    let lanes = assign_branch_lanes(&graph.branches);
    assert_eq!(lanes.len(), graph.branches.len());
    for b in &graph.branches {
        assert!(lane_of(&lanes, &b.name).is_some());
    }
    assert_eq!(lane_of(&lanes, "main"), Some(0));
    assert_eq!(lane_of(&lanes, "a"), Some(1));
    assert_eq!(lane_of(&lanes, "c"), Some(1));
    assert_eq!(lane_of(&lanes, "b"), Some(2));
    assert_eq!(lane_of(&lanes, "d"), Some(3));
}

#[test]
fn checkout_creates_branch_and_merge_ids_count_statements() {
    let graph = parse("gitGraph\n  commit\n  checkout nowhere\n  merge ghost\n  commit type: WEIRD");
    assert!(graph.branches.iter().any(|b| b.name == "nowhere"));
    assert_eq!(graph.commits[1].id, "m2");
    assert_eq!(graph.commits[1].branch, "nowhere");
    assert_eq!(graph.commits[1].message.as_deref(), Some("Merge ghost"));
    assert_eq!(graph.commits[2].id, "c3");
    assert_eq!(graph.commits[2].kind, GitCommitKind::Normal);
    assert_eq!(graph.warnings.len(), 1);
    assert!(graph.warnings[0].message.contains("Unknown commit type: WEIRD"));
}

#[test]
fn every_commit_lies_on_a_declared_branch() {
    let src = "gitGraph\n  commit\n  checkout feature\n  commit\n  branch main order: 2\n  commit\n  switch hotfix\n  merge feature\n  cherry-pick id: \"c1\"\n";
    let graph = parse_git_graph(src).unwrap();
    let names: Vec<&str> = graph.branches.iter().map(|b| b.name.as_str()).collect();
    assert_eq!(names, vec!["main", "feature", "hotfix"]);
    assert_eq!(graph.branches[0].order, Some(2));
    for commit in &graph.commits {
        assert!(names.contains(&commit.branch.as_str()));
    }
    let lanes = assign_branch_lanes(&graph.branches);
    for commit in &graph.commits {
        assert!(lane_of(&lanes, &commit.branch).is_some());
    }
}

#[test]
fn kelvin_sign_checkout_switches_to_the_whole_line() {
    let g = parse_git_graph("gitGraph\ncommit\nchec\u{212A}out dev\ncommit\n").unwrap();
    assert_eq!(g.branches.len(), 2);
    assert_eq!(g.branches[1].name, "chec\u{212A}out dev");
    assert_eq!(g.commits[1].branch, "chec\u{212A}out dev");
}

#[test]
fn statements_share_one_counter() {
    let g = parse_git_graph("gitGraph\n commit\n commit id: x\n merge dev\n cherry-pick id: x").unwrap();
    let ids: Vec<&str> = g.commits.iter().map(|c| c.id.as_str()).collect();
    assert_eq!(ids, vec!["c1", "x", "m3", "cp4"]);
    assert!(g.warnings.is_empty());
    assert_eq!(g.commits[2].merge_from.as_deref(), Some("dev"));
    assert_eq!(g.commits[3].cherry_pick_from_id.as_deref(), Some("x"));
}

#[test]
fn no_commit_statement_is_an_error() {
    assert_eq!(parse_git_graph("gitGraph\n").unwrap_err(), "No commits found in git graph");
    assert_eq!(
        parse_git_graph("gitGraph\n branch dev\n cherry-pick\n bogus\n").unwrap_err(),
        "No commits found in git graph"
    );
    assert!(parse_git_graph("gitGraph\n branch dev\n cherry-pick id: z\n").is_ok());
}

#[test]
fn branch_colors_follow_declaration_and_warnings_follow_lines() {
    let g = parse_git_graph("gitGraph\n commit\n branch a\n bogus\n branch b\n commit type: WEIRD\n").unwrap();
    for (i, b) in g.branches.iter().enumerate() {
        assert_eq!(b.color_idx, i);
    }
    let lines: Vec<usize> = g.warnings.iter().map(|w| w.line).collect();
    assert_eq!(lines, vec![4, 6]);
}
