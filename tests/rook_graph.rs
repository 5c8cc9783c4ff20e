use rook_graph::{edge_list_bytes, in_line, AlphaBetaRookGraph, Probability};

fn text(g: &AlphaBetaRookGraph) -> String {
    String::from_utf8(g.to_edge_list_bytes()).unwrap()
}

fn chance(numerator: u32, denominator: u32) -> Probability {
    Probability::new(numerator, denominator).unwrap()
}

#[test]
fn exact_rook_graph_without_rewiring() {
    let (n, m) = (3, 4);
    let g = AlphaBetaRookGraph::new(n, m, Probability::never(), Probability::never());
    assert_eq!(g.vertex_count(), 12);
    for u in 0..12 {
        for v in 0..12 {
            let expected = u != v && (u / m == v / m || u % m == v % m);
            assert_eq!(g.is_adjacent(u, v), expected, "pair {} {}", u, v);
        }
    }
    // each vertex meets m - 1 in its row and n - 1 in its column
    assert_eq!(g.edges().len(), 12 * (3 + 2) / 2);
}

#[test]
fn removal_always_and_adding_never_leaves_no_edges() {
    let g = AlphaBetaRookGraph::new(3, 3, Probability::never(), Probability::always());
    assert!(g.edges().is_empty());
    assert_eq!(text(&g), "p tww 9 0\n");
}

#[test]
fn adding_always_and_removal_never_gives_complete_graph() {
    let g = AlphaBetaRookGraph::new(3, 3, Probability::always(), Probability::never());
    for u in 0..9 {
        for v in 0..9 {
            assert_eq!(g.is_adjacent(u, v), u != v);
        }
    }
    assert_eq!(g.edges().len(), 36);
    assert!(text(&g).starts_with("p tww 9 36\n"));
}

#[test]
fn two_by_two_grid_text() {
    let g = AlphaBetaRookGraph::new(2, 2, Probability::never(), Probability::never());
    assert_eq!(g.edges(), vec![(1, 2), (1, 3), (2, 4), (3, 4)]);
    assert_eq!(text(&g), "p tww 4 4\n1 2\n1 3\n2 4\n3 4\n");
    assert!(!g.is_adjacent(0, 3));
    assert!(!g.is_adjacent(1, 2));
}

#[test]
fn empty_grids_have_empty_text() {
    for (n, m) in [(0, 0), (0, 5), (5, 0)] {
        let g = AlphaBetaRookGraph::new(n, m, chance(1, 2), chance(1, 2));
        assert_eq!(g.vertex_count(), 0);
        assert_eq!(text(&g), "p tww 0 0\n");
    }
}

#[test]
fn single_cell_grid() {
    let g = AlphaBetaRookGraph::new(1, 1, Probability::always(), Probability::never());
    assert_eq!(text(&g), "p tww 1 0\n");
}

#[test]
fn single_row_is_one_clique() {
    let g = AlphaBetaRookGraph::new(1, 3, Probability::never(), Probability::never());
    assert_eq!(text(&g), "p tww 3 3\n1 2\n1 3\n2 3\n");
}

#[test]
fn random_graph_is_symmetric_and_loop_free() {
    let g = AlphaBetaRookGraph::new(4, 5, chance(1, 2), chance(1, 3));
    for u in 0..20 {
        assert!(!g.is_adjacent(u, u));
        for v in 0..20 {
            assert_eq!(g.is_adjacent(u, v), g.is_adjacent(v, u));
        }
    }
    let edges = g.edges();
    for w in edges.windows(2) {
        assert!(w[0] < w[1]);
    }
    for &(a, b) in &edges {
        assert!(1 <= a && a < b && b <= 20);
        assert!(g.is_adjacent(a - 1, b - 1));
    }
}

#[test]
fn header_counts_match_lines() {
    let g = AlphaBetaRookGraph::new(5, 4, chance(1, 4), chance(1, 4));
    let t = text(&g);
    let lines: Vec<&str> = t.lines().collect();
    let header: Vec<&str> = lines[0].split(' ').collect();
    assert_eq!(header[0], "p");
    assert_eq!(header[1], "tww");
    assert_eq!(header[2], "20");
    assert_eq!(header[3].parse::<usize>().unwrap(), lines.len() - 1);
    assert_eq!(lines.len() - 1, g.edges().len());
    assert!(t.ends_with('\n'));
}

#[test]
fn writing_twice_gives_same_bytes() {
    let g = AlphaBetaRookGraph::new(4, 4, chance(1, 2), chance(1, 2));
    assert_eq!(g.to_edge_list_bytes(), g.to_edge_list_bytes());
}

#[test]
fn cliques_on_an_empty_relation() {
    let mut g = AlphaBetaRookGraph::new(2, 3, Probability::never(), Probability::always());
    assert!(g.edges().is_empty());
    g.generate_cliques();
    assert_eq!(
        g.edges(),
        vec![(1, 2), (1, 3), (1, 4), (2, 3), (2, 5), (3, 6), (4, 5), (4, 6), (5, 6)]
    );
}

#[test]
fn rewiring_with_zero_chances_changes_nothing() {
    let mut g = AlphaBetaRookGraph::new(3, 3, Probability::never(), Probability::never());
    let before = g.edges();
    g.modify_edges();
    assert_eq!(g.edges(), before);
}

#[test]
fn rewiring_with_certain_chances_flips_every_pair() {
    let mut g = AlphaBetaRookGraph::new(2, 2, Probability::never(), Probability::never());
    assert_eq!(g.edges().len(), 4);
    let mut h = AlphaBetaRookGraph::new(2, 2, Probability::always(), Probability::always());
    // all line pairs removed, both cross pairs added
    assert_eq!(h.edges(), vec![(1, 4), (2, 3)]);
    h.generate_cliques();
    assert_eq!(h.edges().len(), 6);
    g.modify_edges();
    assert_eq!(g.edges().len(), 4);
}

#[test]
fn one_trial_on_line_and_cross_pairs() {
    let mut g = AlphaBetaRookGraph::new(2, 2, Probability::never(), Probability::never());
    g.apply_trial(0, 1, false);
    assert!(g.is_adjacent(0, 1));
    g.apply_trial(0, 1, true);
    assert!(!g.is_adjacent(0, 1));
    assert!(!g.is_adjacent(1, 0));
    g.apply_trial(3, 0, false);
    assert!(!g.is_adjacent(0, 3));
    g.apply_trial(3, 0, true);
    assert!(g.is_adjacent(0, 3));
    assert!(g.is_adjacent(3, 0));
    assert_eq!(g.edges(), vec![(1, 3), (1, 4), (2, 4), (3, 4)]);
}

#[test]
fn line_membership() {
    assert!(in_line(3, 0, 2));
    assert!(in_line(3, 1, 7));
    assert!(!in_line(3, 0, 4));
    assert!(in_line(1, 0, 5));
}

#[test]
fn chances_from_ratios() {
    assert!(Probability::new(1, 0).is_none());
    let p = chance(3, 4);
    assert_eq!((p.numerator(), p.denominator()), (3, 4));
    let q = chance(9, 4);
    assert_eq!((q.numerator(), q.denominator()), (4, 4));
    assert_eq!(Probability::never().numerator(), 0);
    let a = Probability::always();
    assert_eq!(a.numerator(), a.denominator());
}

#[test]
fn text_with_multi_digit_numbers() {
    let bytes = edge_list_bytes(120, &vec![(9, 10), (12, 105)]);
    assert_eq!(String::from_utf8(bytes).unwrap(), "p tww 120 2\n9 10\n12 105\n");
    assert_eq!(edge_list_bytes(0, &vec![]), b"p tww 0 0\n".to_vec());
}

#[test]
fn accessors() {
    let g = AlphaBetaRookGraph::new(2, 5, chance(1, 3), chance(2, 3));
    assert_eq!((g.n(), g.m(), g.vertex_count()), (2, 5, 10));
    assert_eq!(g.alpha().numerator(), 1);
    assert_eq!(g.beta().numerator(), 2);
}
