use typst_spatial::grid_snap::{grid_cell_count, grid_coords, packing_cells};
use typst_spatial::lattice::HexCoord;
use typst_spatial::page_graph::PageGraph;
use typst_spatial::report::{
    bridge_line, bridge_section, bridge_suggestion, cluster_line, cluster_section, fiedler_section,
    overview_head, packing_head, report_header, split_line, ClusterDetail,
};
use typst_spatial::sweep_cut::{best_sweep_cut, SweepCut};
use typst_spatial::structure::{
    build_adjacency_matrix, compute_degrees, count_components_excluding, detect_bridges, dfs_component,
    BridgePage,
};

fn make_simple_graph() -> PageGraph {
    let mut g = PageGraph::new();
    for i in 1..=10 {
        g.add_page(i, format!("Page {}", i));
    }
    g.add_ref(1, 2);
    g.add_ref(2, 3);
    g.add_ref(3, 4);
    g.add_ref(4, 5);
    g.add_ref(6, 7);
    g.add_ref(7, 8);
    g.add_ref(8, 9);
    g.add_ref(9, 10);
    g
}

fn make_bridged_graph() -> PageGraph {
    let mut g = PageGraph::new();
    for i in 1..=10 {
        g.add_page(i, format!("Page {}", i));
    }
    g.add_ref(1, 2);
    g.add_ref(2, 3);
    g.add_ref(3, 4);
    g.add_ref(4, 5);
    g.add_ref(3, 6);
    g.add_ref(6, 7);
    g.add_ref(3, 8);
    g.add_ref(8, 9);
    g.add_ref(9, 10);
    g
}

// ---------------------------------------------------------------------------
// Page graph
// ---------------------------------------------------------------------------

#[test]
fn page_graph_test_empty_graph() {
    let g = PageGraph::new();
    assert_eq!(g.page_count(), 0);
}

#[test]
fn test_single_page() {
    let mut g = PageGraph::new();
    g.add_page(1, "Introduction".into());
    assert_eq!(g.page_count(), 1);
    assert_eq!(g.get_page(1).unwrap().title, "Introduction");
    assert_eq!(g.get_page(1).unwrap().position, HexCoord::new(0, 0));
}

#[test]
fn test_spiral_positions() {
    let mut g = PageGraph::new();
    for i in 1..=7 {
        g.add_page(i, format!("Page {}", i));
    }
    assert_eq!(g.page_count(), 7);

    assert_eq!(g.get_page(1).unwrap().position, HexCoord::new(0, 0));

    let ring1: Vec<HexCoord> = (2..=7).map(|i| g.get_page(i).unwrap().position).collect();

    for pos in &ring1 {
        assert_eq!(pos.hex_distance(), 1);
    }
}

#[test]
fn test_reading_path() {
    let mut g = PageGraph::new();
    for i in 1..=5 {
        g.add_page(i, format!("P{}", i));
    }

    let path = g.reading_path_directions();
    assert_eq!(path.len(), 4);
    for step in &path {
        assert!(step.a() != 0 || step.b() != 0);
    }
}

#[test]
fn test_cross_references() {
    let mut g = PageGraph::new();
    for i in 1..=7 {
        g.add_page(i, format!("S{}", i));
    }
    g.add_ref(1, 3);
    g.add_ref(3, 5);
    g.add_ref(2, 6);
    g.add_ref(1, 7);

    assert_eq!(g.total_refs(), 4);
    assert_eq!(g.get_page(1).unwrap().refs.len(), 2);
    assert_eq!(g.get_page(3).unwrap().refs.len(), 1);
}

#[test]
fn test_adjacency_matrix() {
    let mut g = PageGraph::new();
    for i in 1..=5 {
        g.add_page(i, format!("P{}", i));
    }
    g.add_ref(1, 3);
    g.add_ref(2, 4);

    let adj = g.adjacency_matrix();
    let n = g.page_count();
    assert!(adj[0 * n + 2]);
    assert!(adj[2 * n + 0]);
    assert!(!adj[0 * n + 1]);
}

#[test]
fn test_degrees() {
    let mut g = PageGraph::new();
    for i in 1..=5 {
        g.add_page(i, format!("P{}", i));
    }
    g.add_ref(1, 3);
    g.add_ref(3, 5);
    g.add_ref(1, 5);

    let degs = g.degrees();
    assert_eq!(degs[0], 2);
    assert_eq!(degs[2], 2);
    assert_eq!(degs[4], 2);
    assert_eq!(degs[1], 0);
}

#[test]
fn test_page_distance() {
    let mut g = PageGraph::new();
    g.add_page_at(1, "A".into(), HexCoord::new(0, 0));
    g.add_page_at(2, "B".into(), HexCoord::new(3, 0));
    g.add_page_at(3, "C".into(), HexCoord::new(-2, 1));

    assert_eq!(g.page_distance(1, 2), Some(3));
    assert_eq!(g.page_distance(1, 3), Some(2));
    assert_eq!(g.page_distance(2, 3), Some(5));
}

#[test]
fn spiral_first_two_rings() {
    let mut g = PageGraph::new();
    for i in 1..=19 {
        g.add_page(i, format!("P{}", i));
    }
    let expected = [
        (0, 0),
        (1, 0), (0, 1), (-1, 1), (-1, 0), (0, -1), (1, -1),
        (2, 0), (1, 1), (0, 2), (-1, 2), (-2, 2), (-2, 1), (-2, 0), (-1, -1), (0, -2), (1, -2),
        (2, -2), (2, -1),
    ];
    for (i, &(a, b)) in expected.iter().enumerate() {
        assert_eq!(g.get_page(i + 1).unwrap().position, HexCoord::new(a, b));
    }
    // All distinct, each on its ring.
    for i in 1..=19 {
        let p = g.get_page(i).unwrap().position;
        let ring = if i == 1 { 0 } else if i <= 7 { 1 } else { 2 };
        assert_eq!(p.hex_distance(), ring);
        for j in (i + 1)..=19 {
            assert_ne!(p, g.get_page(j).unwrap().position);
        }
    }
}

#[test]
fn spiral_steps_within_a_ring_are_unit_steps() {
    let mut g = PageGraph::new();
    for i in 1..=19 {
        g.add_page(i, format!("P{}", i));
    }
    let path = g.reading_path_directions();
    for (i, step) in path.iter().enumerate() {
        // The step from page i+1 to page i+2; page 8 starts ring 2.
        if i + 2 == 8 {
            assert_eq!(step.hex_distance(), 2);
        } else {
            assert_eq!(step.hex_distance(), 1);
        }
    }
}

#[test]
fn add_ref_ignores_duplicates_and_missing_pages() {
    let mut g = PageGraph::new();
    g.add_page(1, "A".into());
    g.add_ref(1, 2);
    g.add_ref(1, 2);
    g.add_ref(7, 1);
    assert_eq!(g.get_page(1).unwrap().refs, vec![2]);
    assert_eq!(g.total_refs(), 1);
    assert!(g.get_page(7).is_none());
}

#[test]
fn page_numbers_and_nodes_in_order() {
    let mut g = PageGraph::default();
    g.add_page(4, "D".into());
    g.add_page(2, "B".into());
    assert_eq!(g.page_numbers(), vec![2, 4]);
    let titles: Vec<&str> = g.nodes().iter().map(|n| n.title.as_str()).collect();
    assert_eq!(titles, vec!["B", "D"]);
    assert_eq!(g.page_distance(2, 3), None);
}

#[test]
fn get_page_mut_changes_the_node() {
    let mut g = PageGraph::new();
    g.add_page(1, "A".into());
    g.get_page_mut(1).unwrap().title = "Alpha".into();
    assert_eq!(g.get_page(1).unwrap().title, "Alpha");
    assert!(g.get_page_mut(5).is_none());
}

#[test]
fn adjacency_matrix_is_symmetric_with_self_loops() {
    let mut g = PageGraph::new();
    for i in 1..=3 {
        g.add_page(i, format!("P{}", i));
    }
    g.add_ref(2, 2);
    g.add_ref(3, 1);
    let adj = g.adjacency_matrix();
    assert_eq!(adj.len(), 9);
    assert!(adj[1 * 3 + 1]);
    for i in 0..3 {
        for j in 0..3 {
            assert_eq!(adj[i * 3 + j], adj[j * 3 + i]);
        }
    }
}

// ---------------------------------------------------------------------------
// Structure
// ---------------------------------------------------------------------------

#[test]
fn test_bridge_detection() {
    let g = make_bridged_graph();
    let adj = build_adjacency_matrix(&g);
    let bridges = detect_bridges(&g, &adj);
    let found: Vec<&BridgePage> = bridges.iter().filter(|b| b.page == 3).collect();
    assert!(
        !found.is_empty(),
        "Page 3 should be detected as bridge. Bridges found: {:?}",
        bridges.iter().map(|b| b.page).collect::<Vec<_>>()
    );
}

#[test]
fn test_no_bridges_in_chain() {
    let g = make_simple_graph();
    let adj = build_adjacency_matrix(&g);
    let bridges = detect_bridges(&g, &adj);
    println!(
        "Bridges in chain graph: {:?}",
        bridges.iter().map(|b| b.page).collect::<Vec<_>>()
    );
}

#[test]
fn components_of_two_chains() {
    let g = make_simple_graph();
    let adj = build_adjacency_matrix(&g);
    assert_eq!(count_components_excluding(&adj, 10), 2);
    // Removing page 3 splits the first chain.
    assert_eq!(count_components_excluding(&adj, 2), 3);
    // Removing an end page does not.
    assert_eq!(count_components_excluding(&adj, 0), 2);
}

#[test]
fn bridge_pages_of_the_bridged_graph() {
    let g = make_bridged_graph();
    let adj = build_adjacency_matrix(&g);
    let bridges = detect_bridges(&g, &adj);
    let pages: Vec<usize> = bridges.iter().map(|b| b.page).collect();
    // Every articulation point: pages 2, 4, 6, 8 and 9 each split off one
    // branch; page 3 splits the graph into four.
    assert_eq!(pages, vec![2, 3, 4, 6, 8, 9]);
    let splits: Vec<usize> = bridges.iter().map(|b| b.splits_into).collect();
    assert_eq!(splits, vec![2, 4, 2, 2, 2, 2]);
    let degrees: Vec<usize> = bridges.iter().map(|b| b.degree).collect();
    assert_eq!(degrees, vec![2, 4, 2, 2, 2, 2]);
    assert_eq!(bridges[1].title, "Page 3");
}

#[test]
fn bridge_in_a_path_of_three() {
    let mut g = PageGraph::new();
    g.add_page(1, "A".into());
    g.add_page(2, "B".into());
    g.add_page(3, "C".into());
    g.add_ref(1, 2);
    g.add_ref(2, 3);
    let adj = build_adjacency_matrix(&g);
    let bridges = detect_bridges(&g, &adj);
    assert_eq!(bridges.len(), 1);
    assert_eq!(bridges[0].page, 2);
    assert_eq!(bridges[0].splits_into, 2);
    assert_eq!(bridges[0].degree, 2);
}

#[test]
fn dfs_from_a_visited_start() {
    let g = make_simple_graph();
    let adj = build_adjacency_matrix(&g);
    let mut visited = vec![false; 10];
    visited[2] = true;
    visited[3] = true;
    dfs_component(&adj, 2, &mut visited);
    // From page 3 (index 2): page 2 and 1 are reached; page 4 was already
    // visited, so page 5 beyond it is not.
    assert_eq!(visited, vec![true, true, true, true, false, false, false, false, false, false]);
}

#[test]
fn bridges_need_two_pages() {
    let mut g = PageGraph::new();
    g.add_page(1, "Only".into());
    g.add_ref(1, 1);
    let adj = build_adjacency_matrix(&g);
    assert!(detect_bridges(&g, &adj).is_empty());
}

#[test]
fn adjacency_rows_and_degrees() {
    let g = make_bridged_graph();
    let adj = build_adjacency_matrix(&g);
    assert_eq!(adj.len(), 10);
    for i in 0..10 {
        assert!(!adj[i][i]);
        for j in 0..10 {
            assert_eq!(adj[i][j], adj[j][i]);
        }
    }
    let degs = compute_degrees(&adj);
    assert_eq!(degs, vec![1, 2, 4, 2, 1, 2, 1, 2, 2, 1]);
}

// ---------------------------------------------------------------------------
// Grid
// ---------------------------------------------------------------------------

#[test]
fn test_hex_coords_count() {
    let coords = grid_coords(3, 3);
    assert_eq!(coords.len(), 37);
}

#[test]
fn grid_coords_order_and_count() {
    let coords = grid_coords(1, 0);
    let pts: Vec<(i32, i32)> = coords.iter().map(|c| (c.a, c.b)).collect();
    assert_eq!(pts, vec![(-1, 0), (-1, 1), (0, -1), (0, 0), (0, 1), (1, -1), (1, 0)]);
    assert_eq!(grid_cell_count(3, 2), 37);
    assert_eq!(grid_cell_count(0, 0), 1);
}

#[test]
fn packing_cell_totals() {
    // 1000x1000 box at spacing 10: 57 hex columns, 66 hex rows, 100x100 squares.
    assert_eq!(packing_cells(100, 100, 57, 66), (3795, 10000));
    assert_eq!(packing_cells(3, 4, 0, 5), (0, 12));
}

// ---------------------------------------------------------------------------
// Report text
// ---------------------------------------------------------------------------

fn bridge(page: usize, title: &str, splits: usize, degree: usize) -> BridgePage {
    BridgePage { page, title: title.to_string(), splits_into: splits, degree }
}

#[test]
fn suggestion_texts() {
    assert_eq!(
        bridge_suggestion(&vec![]),
        "No bridge sections detected; document is well-structured."
    );
    assert_eq!(
        bridge_suggestion(&vec![bridge(4, "Methods", 3, 2)]),
        "Section 4 (\"Methods\") bridges 3 topics — consider splitting here."
    );
    assert_eq!(
        bridge_suggestion(&vec![bridge(4, "A", 3, 2), bridge(12, "B", 2, 1)]),
        "Multiple bridge sections found: Section 4 (\"A\"), Section 12 (\"B\"). \
         These separate distinct logical clusters."
    );
}

#[test]
fn bridge_and_cluster_lines() {
    assert_eq!(
        bridge_line(&bridge(3, "Page 3", 4, 3)),
        "    - Section 3 (\"Page 3\"): degree 3, splits into 4 components"
    );
    let label = "Cluster A".to_string();
    let d = ClusterDetail::of_cluster(&label, &vec![1, 2, 3]);
    assert_eq!(d.count, 3);
    assert_eq!(cluster_line(&d), "  • Cluster A: 3 pages (pages 1, 2, 3)");
    let many: Vec<usize> = (5..=20).collect();
    let d = ClusterDetail::of_cluster(&label, &many);
    assert_eq!(cluster_line(&d), "  • Cluster A: 16 pages (16 pages (5 .. 20))");
}

fn matrix(n: usize, edges: &[(usize, usize)]) -> Vec<Vec<bool>> {
    let mut adj = vec![vec![false; n]; n];
    for &(a, b) in edges {
        adj[a][b] = true;
        adj[b][a] = true;
    }
    adj
}

#[test]
fn sweep_cut_of_a_path() {
    let adj = matrix(4, &[(0, 1), (1, 2), (2, 3)]);
    let best = best_sweep_cut(&adj, &vec![0, 1, 2, 3]);
    assert_eq!(best, Some(SweepCut { size: 2, boundary: 1, volume: 3 }));
    let best = best_sweep_cut(&adj, &vec![0, 3, 1, 2]);
    assert_eq!(best, Some(SweepCut { size: 1, boundary: 1, volume: 1 }));
}

#[test]
fn sweep_cut_keeps_the_first_of_equal_conductance() {
    let adj = matrix(6, &[(0, 1), (2, 3), (4, 5)]);
    let best = best_sweep_cut(&adj, &vec![0, 1, 2, 3, 4, 5]);
    assert_eq!(best, Some(SweepCut { size: 2, boundary: 0, volume: 2 }));
}

#[test]
fn sweep_cut_needs_four_vertices_and_volume() {
    let adj = matrix(3, &[(0, 1), (1, 2)]);
    assert_eq!(best_sweep_cut(&adj, &vec![0, 1, 2]), None);
    let adj = matrix(5, &[]);
    assert_eq!(best_sweep_cut(&adj, &vec![0, 1, 2, 3, 4]), None);
    let adj = matrix(4, &[(0, 1)]);
    assert_eq!(best_sweep_cut(&adj, &vec![2, 3, 0, 1]), Some(SweepCut { size: 3, boundary: 1, volume: 1 }));
}

#[test]
fn sweep_cut_of_the_bridged_graph() {
    let g = make_bridged_graph();
    let adj = build_adjacency_matrix(&g);
    let order: Vec<usize> = (0..10).collect();
    let best = best_sweep_cut(&adj, &order).unwrap();
    assert_eq!(best, SweepCut { size: 7, boundary: 1, volume: 5 });
}

#[test]
fn report_header_text() {
    let rule = "=".repeat(60);
    assert_eq!(
        report_header("Layout Intelligence Report", 47, 51),
        format!("{rule}\n  Layout Intelligence Report\n  47 pages, 51 cross-refs\n{rule}\n")
    );
}

#[test]
fn report_sections_without_numbers() {
    assert_eq!(
        bridge_section(1, &vec![bridge(4, "Methods", 3, 2)], "split here"),
        "\n── Bridge Sections ──\n  • 1 bridge section found\n    - Section 4 (\"Methods\"): degree 2, splits into 3 components\n  ▶ split here\n"
    );
    assert_eq!(
        bridge_section(0, &vec![], "none"),
        "\n── Bridge Sections ──\n  • 0 bridge sections found\n  ▶ none\n"
    );
    let a = ClusterDetail::of_cluster(&"Cluster A".to_string(), &vec![1, 2]);
    let b = ClusterDetail::of_cluster(&"Cluster B".to_string(), &vec![3]);
    assert_eq!(
        cluster_section(&vec![a, b], "two clusters"),
        "\n── Spectral Clusters ──\n  • Cluster A: 2 pages (pages 1, 2)\n  • Cluster B: 1 pages (pages 3)\n  two clusters\n"
    );
    assert_eq!(
        fiedler_section("range [0, 1]", "fine"),
        "\n── Fiedler Vector ──\n  • range [0, 1]\n  • fine\n"
    );
}

#[test]
fn report_overview_and_packing_lines() {
    assert_eq!(overview_head(1), "\n── Spectral Overview ──\n  • 1 spectral cluster\n");
    assert_eq!(overview_head(3), "\n── Spectral Overview ──\n  • 3 spectral clusters\n");
    assert_eq!(split_line(true), "  • Clear structural split: YES\n");
    assert_eq!(split_line(false), "  • Clear structural split: no\n");
    assert_eq!(
        packing_head(17, 12, 204, 16, 12, 192),
        "\n── Packing Analysis ──\n  • Hex grid: 17 cols x 12 rows = 204 cells\n  • Square grid: 16 cols x 12 rows = 192 cells\n"
    );
}
