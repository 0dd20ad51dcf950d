use lazier::git::graph::Graph;

#[test]
fn linear_chain() {
    let mut g: Graph<u32> = Graph::new();
    assert_eq!(g.row(&3, &[2]), "●");
    assert_eq!(g.row(&2, &[1]), "●");
    assert_eq!(g.row(&1, &[]), "●");
}

#[test]
fn branch_and_merge() {
    // M merges A and B. Both come from C.
    let (m, a, b, c) = (4u32, 3, 2, 1);
    let mut g: Graph<u32> = Graph::new();
    assert_eq!(g.row(&m, &[a, b]), "◉─╮");
    assert_eq!(g.row(&a, &[c]), "● │");
    assert_eq!(g.row(&b, &[c]), "│ ●");
    assert_eq!(g.row(&c, &[]), "●─╯");
}

#[test]
fn merge_into_tracked_lane() {
    let mut g: Graph<u32> = Graph::new();
    assert_eq!(g.row(&10, &[8, 6]), "◉─╮");
    assert_eq!(g.row(&8, &[7, 6]), "◉─┤");
    assert_eq!(g.row(&7, &[5]), "● │");
    assert_eq!(g.row(&6, &[5]), "│ ●");
    assert_eq!(g.row(&5, &[]), "●─╯");
}

#[test]
fn two_roots() {
    // Two histories with no common commit.
    let mut g: Graph<u32> = Graph::new();
    assert_eq!(g.row(&4, &[2]), "●");
    assert_eq!(g.row(&3, &[1]), "│ ●");
    assert_eq!(g.row(&2, &[]), "● │");
    assert_eq!(g.row(&1, &[]), "  ●");
}

#[test]
fn a_merge_crosses_a_lane_in_between() {
    let mut g: Graph<u32> = Graph::new();
    assert_eq!(g.row(&9, &[8]), "●");
    assert_eq!(g.row(&7, &[6]), "│ ●");
    // The new parent lane opens right of the middle lane.
    assert_eq!(g.row(&8, &[5, 4]), "◉─┼─╮");
}

#[test]
fn a_branch_line_stays_until_its_commit_comes() {
    let mut g: Graph<u32> = Graph::new();
    // A merge opens a lane for its second parent, 3.
    assert_eq!(g.row(&9, &[8, 3]), "◉─╮");
    // Rows of the first line leave the lane of 3 open.
    assert_eq!(g.row(&8, &[7]), "● │");
    assert_eq!(g.row(&7, &[6]), "● │");
    // Then 3 comes and takes that lane.
    assert_eq!(g.row(&3, &[6]), "│ ●");
    // Both lines wait for 6; they join on its row.
    assert_eq!(g.row(&6, &[]), "●─╯");
}

#[test]
fn a_long_linear_history_stays_in_one_lane() {
    let mut g: Graph<u32> = Graph::new();
    for id in (1..=50u32).rev() {
        let parents: Vec<u32> = if id > 1 { vec![id - 1] } else { vec![] };
        assert_eq!(g.row(&id, &parents), "●");
    }
}

#[test]
fn every_row_has_one_node_glyph_and_no_trailing_blank() {
    let glyphs = [' ', '│', '─', '┼', '╯', '╰', '┤', '├', '╮', '╭', '●', '◉'];
    let mut g: Graph<u32> = Graph::new();
    let feed: Vec<(u32, Vec<u32>)> = vec![
        (20, vec![19, 15]),
        (19, vec![18, 14]),
        (15, vec![14]),
        (18, vec![17]),
        (30, vec![17]),
        (17, vec![14]),
        (14, vec![]),
    ];
    for (id, parents) in feed {
        let row = g.row(&id, &parents);
        let chars: Vec<char> = row.chars().collect();
        assert!(chars.iter().all(|c| glyphs.contains(c)), "{row}");
        assert!(!row.ends_with(' '), "{row}");
        let node = if parents.len() > 1 { '◉' } else { '●' };
        let nodes: Vec<usize> = chars.iter().enumerate().filter(|(_, c)| **c == '●' || **c == '◉').map(|(i, _)| i).collect();
        assert_eq!(nodes.len(), 1, "{row}");
        assert_eq!(chars[nodes[0]], node);
        assert_eq!(nodes[0] % 2, 0);
    }
}
