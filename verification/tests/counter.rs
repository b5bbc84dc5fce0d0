use hampath::counter::{
    count_hamiltonian_paths, count_hamiltonian_paths_edges, count_hamiltonian_paths_par,
    count_hamiltonian_paths_plain,
};
use hampath::graph::Graph;

const M7: u64 = 1_000_000_007;
const M9: u64 = 1_000_000_009;
const M21: u64 = 1_000_000_021;

fn complete_graph(n: usize) -> Graph {
    let mut adj: Vec<Vec<usize>> = Vec::new();
    for u in 0..n {
        let mut row = Vec::new();
        for v in 0..n {
            if v != u {
                row.push(v);
            }
        }
        adj.push(row);
    }
    Graph::new(adj).unwrap()
}

fn cycle_graph(n: usize) -> Graph {
    let mut adj: Vec<Vec<usize>> = Vec::new();
    for u in 0..n {
        adj.push(vec![(u + 1) % n]);
    }
    Graph::new(adj).unwrap()
}

#[test]
fn complete_graph_three_vertices_single_batch() {
    // Eight masks on three vertices fill exactly one batch.
    let g = complete_graph(3);
    for m in [M7, M9, M21, 0] {
        assert_eq!(count_hamiltonian_paths(&g, m), 2);
        assert_eq!(count_hamiltonian_paths_plain(&g, m), 2);
        assert_eq!(count_hamiltonian_paths_par(&g, m), 2);
    }
}

#[test]
fn complete_graph_four_vertices() {
    let g = complete_graph(4);
    for m in [M7, M9, M21, 0] {
        assert_eq!(count_hamiltonian_paths(&g, m), 6);
    }
}

#[test]
fn complete_graph_five_vertices() {
    let g = complete_graph(5);
    for m in [M7, M9, M21, 0] {
        assert_eq!(count_hamiltonian_paths(&g, m), 24);
    }
}

#[test]
fn complete_graph_six_vertices() {
    let g = complete_graph(6);
    for m in [M7, M9, M21, 0] {
        assert_eq!(count_hamiltonian_paths(&g, m), 120);
    }
}

#[test]
fn complete_graph_seven_vertices() {
    let g = complete_graph(7);
    for m in [M7, M9, M21, 0] {
        assert_eq!(count_hamiltonian_paths(&g, m), 720);
        assert_eq!(count_hamiltonian_paths_par(&g, m), 720);
    }
}

#[test]
fn cycle_graph_is_counted_once() {
    for n in [4usize, 5, 6, 7] {
        let g = cycle_graph(n);
        for m in [M7, M9, M21, 0] {
            assert_eq!(count_hamiltonian_paths(&g, m), 1, "cycle on {n} vertices");
        }
    }
}

fn path_graph(n: usize) -> Graph {
    let mut adj: Vec<Vec<usize>> = Vec::new();
    for u in 0..n {
        if u + 1 < n {
            adj.push(vec![u + 1]);
        } else {
            adj.push(Vec::new());
        }
    }
    Graph::new(adj).unwrap()
}

#[test]
fn path_graph_has_one_hamiltonian_path() {
    // A directed chain has exactly one Hamiltonian path starting at
    // vertex 0, and no edge back to vertex 0 is needed.
    for n in [2usize, 4, 5, 6] {
        let g = path_graph(n);
        for m in [M7, M9, M21, 0] {
            assert_eq!(count_hamiltonian_paths(&g, m), 1, "chain on {n} vertices");
            assert_eq!(count_hamiltonian_paths_plain(&g, m), 1, "chain on {n} vertices");
        }
    }
}

#[test]
fn empty_graph_counts_zero() {
    for n in [2usize, 3, 5] {
        let adj = vec![Vec::new(); n];
        let g = Graph::new(adj).unwrap();
        for m in [M7, M9, M21, 0] {
            assert_eq!(count_hamiltonian_paths(&g, m), 0);
        }
    }
}

#[test]
fn single_vertex_reports_edge_count() {
    let g = Graph::new(vec![vec![0, 0, 0, 0, 0]]).unwrap();
    assert_eq!(count_hamiltonian_paths(&g, 0), 5);
    assert_eq!(count_hamiltonian_paths(&g, M7), 5);
    assert_eq!(count_hamiltonian_paths(&g, 3), 2);
    assert_eq!(count_hamiltonian_paths(&g, 1), 0);
}

#[test]
fn duplicate_edges_multiply() {
    let g = Graph::new(vec![vec![1, 1], vec![0]]).unwrap();
    for m in [M7, M9, M21, 0] {
        assert_eq!(count_hamiltonian_paths(&g, m), 2);
    }
}

#[test]
fn two_vertex_cycle() {
    let g = Graph::new(vec![vec![1], vec![0]]).unwrap();
    for m in [M7, M9, M21, 0] {
        assert_eq!(count_hamiltonian_paths(&g, m), 1);
    }
}

#[test]
fn modulus_one_reduces_everything_to_zero() {
    let g = complete_graph(5);
    assert_eq!(count_hamiltonian_paths(&g, 1), 0);
}

#[test]
fn huge_modulus_takes_fallback_reduction() {
    // Larger than u64::MAX / 8, so the end-of-run reduction must fold the
    // lanes pairwise instead of summing them first.
    let m = 0x4000_0000_0000_0001u64;
    let g = complete_graph(5);
    assert_eq!(count_hamiltonian_paths(&g, m), 24);
}

#[test]
fn bit_tier_matches_plain() {
    // Six and seven vertices exercise exclusion bits at index four and
    // above, the once-per-batch tier.
    for n in [5usize, 6, 7] {
        let g = complete_graph(n);
        for m in [M7, M9, M21, 0, 97] {
            assert_eq!(
                count_hamiltonian_paths(&g, m),
                count_hamiltonian_paths_plain(&g, m),
                "tier mismatch on {n} vertices mod {m}"
            );
        }
    }
}

#[test]
fn flat_edges_match_adjacency() {
    let edges: Vec<(usize, usize)> = vec![
        (0, 1),
        (1, 2),
        (2, 0),
        (2, 3),
        (3, 0),
        (1, 3),
        (3, 2),
    ];
    let g = Graph::from_edges(4, &edges).unwrap();
    for m in [M7, M9, M21, 0] {
        let flat = count_hamiltonian_paths_edges(4, &edges, m).unwrap();
        assert_eq!(flat, count_hamiltonian_paths(&g, m));
        assert_eq!(flat, count_hamiltonian_paths_plain(&g, m));
    }
}

#[test]
fn flat_edges_path_graph() {
    let edges: Vec<(usize, usize)> = vec![(0, 1), (1, 2), (2, 3)];
    for m in [M7, M9, M21, 0] {
        assert_eq!(count_hamiltonian_paths_edges(4, &edges, m), Some(1));
    }
}

#[test]
fn flat_edges_single_vertex() {
    let edges: Vec<(usize, usize)> = vec![(0, 0), (0, 0), (0, 0)];
    assert_eq!(count_hamiltonian_paths_edges(1, &edges, 0), Some(3));
    assert_eq!(count_hamiltonian_paths_edges(1, &edges, 2), Some(1));
}

#[test]
fn flat_edges_rejects_bad_input() {
    let edges: Vec<(usize, usize)> = vec![(0, 1)];
    assert_eq!(count_hamiltonian_paths_edges(0, &edges, 0), None);
    assert_eq!(count_hamiltonian_paths_edges(32, &edges, 0), None);
    assert_eq!(count_hamiltonian_paths_edges(1, &edges, 0), None);
    let loose: Vec<(usize, usize)> = vec![(0, 5)];
    assert_eq!(count_hamiltonian_paths_edges(3, &loose, 0), None);
}

#[test]
fn parallel_matches_sequential() {
    for n in [1usize, 2, 4, 6, 8] {
        let g = complete_graph(n);
        for m in [M7, M9, M21, 0] {
            assert_eq!(
                count_hamiltonian_paths_par(&g, m),
                count_hamiltonian_paths(&g, m),
                "parallel mismatch on {n} vertices mod {m}"
            );
        }
    }
}

#[test]
fn repeated_runs_are_identical() {
    let g = complete_graph(7);
    for m in [M7, 0] {
        let first = count_hamiltonian_paths_par(&g, m);
        for _ in 0..3 {
            assert_eq!(count_hamiltonian_paths_par(&g, m), first);
        }
    }
}

#[test]
fn wraparound_result_reduces_to_modular_results() {
    // The exact totals here fit the native width, so reducing the
    // no-modulus result must reproduce each modulus-specific result.
    for g in [complete_graph(6), cycle_graph(5), complete_graph(4)] {
        let native = count_hamiltonian_paths(&g, 0);
        for p in [M7, M9, M21, 97] {
            assert_eq!(count_hamiltonian_paths(&g, p), native % p);
        }
    }
}

#[test]
fn graph_builders_validate() {
    assert!(Graph::new(Vec::new()).is_none());
    assert!(Graph::new(vec![Vec::new(); 32]).is_none());
    assert!(Graph::new(vec![vec![2], vec![0]]).is_none());
    assert!(Graph::new(vec![vec![1], vec![0]]).is_some());
    let g = Graph::new(vec![vec![1], vec![0]]).unwrap();
    assert_eq!(g.vertex_count(), 2);
    assert_eq!(g.successors(0).as_slice(), &[1]);
    assert!(Graph::from_edges(2, &vec![(0, 1), (1, 0)]).is_some());
    assert!(Graph::from_edges(2, &vec![(0, 2)]).is_none());
}
