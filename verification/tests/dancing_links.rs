use dlx_sudoku::dancing_link_x::DLX;
use dlx_sudoku::dancing_link_x::Node;

/// Snapshot of every node's four links, for exact-restoration checks.
fn snapshot(d: &DLX, n: usize) -> Vec<(usize, usize, usize, usize)> {
    let mut out = Vec::new();
    let mut i = 0;
    while i < n {
        let node = d.get_node(i);
        out.push((node.up, node.down, node.left, node.right));
        i += 1;
    }
    out
}

#[test]
fn fresh_node_is_self_linked() {
    let n = Node::new(1, 5, 2, 3);
    assert_eq!(n.node, 1);
    assert_eq!(n.id, 5);
    assert_eq!((n.up, n.down, n.left, n.right), (5, 5, 5, 5));
    assert_eq!((n.line, n.col), (2, 3));
}

#[test]
fn set_node_overwrites_only_given_links() {
    let mut d = DLX::new(2);
    d.set_node(1, Some(2), None, None, Some(0));
    let h = d.get_node(1);
    assert_eq!(h.up, 2);
    assert_eq!(h.down, 1);
    assert_eq!(h.left, 0);
    assert_eq!(h.right, 0);
}

#[test]
fn get_node_mut_edits_in_place() {
    let mut d = DLX::new(1);
    d.get_node_mut(1).line = 9;
    assert_eq!(d.get_node(1).line, 9);
}

#[test]
fn new_builds_header_ring() {
    let d = DLX::new(3);
    // root and 3 headers
    let root = d.get_node(0);
    assert_eq!(root.right, 1);
    assert_eq!(root.left, 3);
    assert_eq!(root.up, 0);
    assert_eq!(root.down, 0);
    for k in 0..3 {
        assert_eq!(d.get_col(k), k + 1);
        let h = d.get_node(k + 1);
        assert_eq!(h.left, k);
        assert_eq!(h.right, if k == 2 { 0 } else { k + 2 });
        assert_eq!(h.up, k + 1);
        assert_eq!(h.down, k + 1);
        assert_eq!(h.col, k);
        assert_eq!(h.line, 0);
        assert_eq!(d.col_len(k), 0);
    }
}

#[test]
fn get_id_draws_the_counter() {
    let mut d = DLX::new(2);
    assert_eq!(d.get_id(), 3);
    assert_eq!(d.get_id(), 4);
}

#[test]
fn add_node_splices_above_header() {
    let mut d = DLX::new(2);
    let a = d.add_node(1, 1, 0, None, None);
    assert_eq!(a, 3);
    let head = d.get_node(1);
    assert_eq!(head.down, a);
    assert_eq!(head.up, a);
    let n = d.get_node(a);
    assert_eq!(n.up, 1);
    assert_eq!(n.down, 1);
    assert_eq!(n.left, a);
    assert_eq!(n.right, a);
    assert_eq!(d.col_len(0), 1);

    // columns fill in row-construction order: the second node sits below the
    // first, just above the header
    let b = d.add_node(1, 2, 0, None, None);
    assert_eq!(d.get_node(1).down, a);
    assert_eq!(d.get_node(1).up, b);
    assert_eq!(d.get_node(a).down, b);
    assert_eq!(d.get_node(b).up, a);
    assert_eq!(d.get_node(b).down, 1);
    assert_eq!(d.col_len(0), 2);
}

#[test]
fn add_node_threads_a_row_ring() {
    let mut d = DLX::new(4);
    let n1 = d.add_node(1, 1, 0, None, None);
    let n2 = d.add_node(1, 1, 1, Some(n1), Some(n1));
    let n3 = d.add_node(1, 1, 2, Some(n2), Some(n1));
    let n4 = d.add_node(1, 1, 3, Some(n3), Some(n1));
    // the row ring closes into a cycle n1 -> n2 -> n3 -> n4 -> n1
    assert_eq!(d.get_node(n1).right, n2);
    assert_eq!(d.get_node(n2).right, n3);
    assert_eq!(d.get_node(n3).right, n4);
    assert_eq!(d.get_node(n4).right, n1);
    assert_eq!(d.get_node(n1).left, n4);
    assert_eq!(d.get_node(n2).left, n1);
    assert_eq!(d.get_node(n3).left, n2);
    assert_eq!(d.get_node(n4).left, n3);
}

/// A small matrix with two threaded rows over three columns.
fn two_row_matrix() -> (DLX, usize, usize, usize, usize) {
    let mut d = DLX::new(3);
    let a1 = d.add_node(1, 1, 0, None, None);
    let a2 = d.add_node(1, 1, 1, Some(a1), Some(a1));
    let b1 = d.add_node(1, 2, 1, None, None);
    let b2 = d.add_node(1, 2, 2, Some(b1), Some(b1));
    (d, a1, a2, b1, b2)
}

#[test]
fn remove_recover_round_trip_restores_all_links() {
    let (mut d, _a1, a2, _b1, _b2) = two_row_matrix();
    let n = 8; // root + 3 headers + 4 member nodes
    let before = snapshot(&d, n);
    d.remove_node(a2);
    assert_ne!(snapshot(&d, n), before);
    d.recover_node(a2);
    assert_eq!(snapshot(&d, n), before);
}

#[test]
fn rings_stay_circular() {
    let (mut d, _a1, a2, b1, _b2) = two_row_matrix();
    // header ring: right from the root returns after exactly 4 steps
    let mut cur = 0;
    for step in 1..=4 {
        cur = d.get_node(cur).right;
        assert_eq!(cur == 0, step == 4);
    }
    // column 1's ring: down from header 2 returns after exactly 3 steps
    let mut cur = d.get_col(1);
    for step in 1..=3 {
        cur = d.get_node(cur).down;
        assert_eq!(cur == d.get_col(1), step == 3);
    }
    // after a matched remove/recover pair both walks are unchanged
    d.remove_node(a2);
    d.remove_node(b1);
    d.recover_node(b1);
    d.recover_node(a2);
    let mut cur = 0;
    for step in 1..=4 {
        cur = d.get_node(cur).right;
        assert_eq!(cur == 0, step == 4);
    }
    let mut cur = d.get_col(1);
    for step in 1..=3 {
        cur = d.get_node(cur).down;
        assert_eq!(cur == d.get_col(1), step == 3);
    }
}

#[test]
fn col_len_counts_the_reachable_ring() {
    let (mut d, _a1, a2, b1, _b2) = two_row_matrix();
    assert_eq!(d.col_len(0), 1);
    assert_eq!(d.col_len(1), 2);
    assert_eq!(d.col_len(2), 1);
    // col_len tracks covers and uncovers exactly
    d.remove_node(a2);
    assert_eq!(d.col_len(1), 1);
    d.remove_node(b1);
    assert_eq!(d.col_len(1), 0);
    d.recover_node(b1);
    assert_eq!(d.col_len(1), 1);
    d.recover_node(a2);
    assert_eq!(d.col_len(1), 2);
}

#[test]
fn solve_trivial_matrix_is_satisfied() {
    let mut d = DLX::new(0);
    let mut res = Vec::new();
    assert!(d.solve(&mut res));
    assert!(res.is_empty());
}

#[test]
fn solve_single_candidate() {
    let mut d = DLX::new(1);
    d.add_node(1, 7, 0, None, None);
    let mut res = Vec::new();
    assert!(d.solve(&mut res));
    assert_eq!(res, vec![7]);
    // solved state: no unsatisfied column remains
    assert_eq!(d.get_node(0).right, 0);
}

#[test]
fn solve_reports_infeasible_and_restores_partial_solution() {
    // column 1 has no candidate at all: no exact cover exists
    let mut d = DLX::new(2);
    d.add_node(1, 1, 0, None, None);
    let before = snapshot(&d, 4);
    let mut res = vec![42];
    assert!(!d.solve(&mut res));
    assert_eq!(res, vec![42]);
    // failure hands back every link field untouched
    assert_eq!(snapshot(&d, 4), before);
}

#[test]
fn failed_solve_restores_every_link() {
    // rows {0,1} and {1,2} clash on column 1, and column 0 has no other
    // candidate: the search branches, backtracks and fails, and must leave
    // the full link state exactly as it was
    let mut d = DLX::new(3);
    let r1a = d.add_node(1, 1, 0, None, None);
    let _r1b = d.add_node(1, 1, 1, Some(r1a), Some(r1a));
    let r2a = d.add_node(1, 2, 1, None, None);
    let _r2b = d.add_node(1, 2, 2, Some(r2a), Some(r2a));
    let before = snapshot(&d, 8);
    let mut res = Vec::new();
    assert!(!d.solve(&mut res));
    assert!(res.is_empty());
    assert_eq!(snapshot(&d, 8), before);
}

#[test]
fn solve_picks_disjoint_rows() {
    // rows {0,1} and {2}: both are needed to cover the three columns
    let mut d = DLX::new(3);
    let a1 = d.add_node(1, 1, 0, None, None);
    let _a2 = d.add_node(1, 1, 1, Some(a1), Some(a1));
    d.add_node(1, 2, 2, None, None);
    let mut res = Vec::new();
    assert!(d.solve(&mut res));
    let mut sorted = res.clone();
    sorted.sort();
    assert_eq!(sorted, vec![1, 2]);
}

#[test]
fn solve_backtracks_to_a_cover() {
    // rows: 1 = {0,1}, 2 = {0,2}, 3 = {1}, 4 = {1,2}. Every column has two
    // candidates, so the scan settles on column 0 and tries row 1 first;
    // covering {0,1} strips column 2 bare, forcing a backtrack to row 2.
    let mut d = DLX::new(3);
    let r1a = d.add_node(1, 1, 0, None, None);
    let _r1b = d.add_node(1, 1, 1, Some(r1a), Some(r1a));
    let r2a = d.add_node(1, 2, 0, None, None);
    let _r2b = d.add_node(1, 2, 2, Some(r2a), Some(r2a));
    d.add_node(1, 3, 1, None, None);
    let r4a = d.add_node(1, 4, 1, None, None);
    let _r4b = d.add_node(1, 4, 2, Some(r4a), Some(r4a));
    let mut res = Vec::new();
    assert!(d.solve(&mut res));
    let mut sorted = res.clone();
    sorted.sort();
    assert_eq!(sorted, vec![2, 3]);
}
