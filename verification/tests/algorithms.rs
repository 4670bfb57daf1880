use spmspm_pim::algorithms::bfs::Bfs;
use spmspm_pim::algorithms::page_rank::PageRank;
use spmspm_pim::algorithms::spmm::Spmm;
use spmspm_pim::algorithms::sssp::Sssp;
use spmspm_pim::algorithms::{sorted_values, FrontierType, SparseFrontier, SpmvAlgorithm};
use spmspm_pim::sparse::CsrPattern;

fn graph() -> CsrPattern {
    CsrPattern { cols: 5, indices: vec![vec![1, 2], vec![3], vec![3, 4], vec![0], vec![]] }
}

fn sparse(dim: usize, indices: Vec<u32>) -> Option<FrontierType> {
    Some(FrontierType::Sparse(SparseFrontier { dim, indices }))
}

#[test]
fn test_next_frontier() {
    let mut page_rank = PageRank;
    assert_eq!(page_rank.next_frontier(), Some(FrontierType::All));
}

#[test]
fn test_bfs() {
    let matrix = graph();
    let mut bfs = Bfs::new(&matrix);
    println!("{:?}", matrix.indices);
    while bfs.can_step() {
        match bfs.next_frontier() {
            Some(frontier) => println!("{:?}", frontier),
            None => break,
        }
    }
}

#[test]
fn bfs_levels() {
    let matrix = graph();
    let mut bfs = Bfs::new(&matrix);
    assert_eq!(bfs.next_frontier(), sparse(5, vec![0]));
    assert_eq!(bfs.next_frontier(), sparse(5, vec![1, 2]));
    assert_eq!(bfs.next_frontier(), sparse(5, vec![3, 4]));
    assert_eq!(bfs.next_frontier(), None);
    assert_eq!(bfs.next_frontier(), None);
}

#[test]
fn bfs_sorts_the_new_frontier() {
    // vertex 0 reaches 3 before 1; the frontier still comes out sorted
    let matrix = CsrPattern { cols: 4, indices: vec![vec![2], vec![], vec![3, 1], vec![]] };
    let mut bfs = Bfs::new(&matrix);
    assert_eq!(bfs.next_frontier(), sparse(4, vec![0]));
    assert_eq!(bfs.next_frontier(), sparse(4, vec![2]));
    assert_eq!(bfs.next_frontier(), sparse(4, vec![1, 3]));
    assert_eq!(bfs.next_frontier(), None);
}

#[test]
fn bfs_cannot_start_without_vertices() {
    let matrix = CsrPattern { cols: 0, indices: vec![] };
    let bfs = Bfs::new(&matrix);
    assert!(!bfs.can_step());
}

#[test]
fn bfs_stops_at_a_vertex_without_row() {
    // column 3 has no row, so the frontier {3} cannot be expanded
    let matrix = CsrPattern { cols: 4, indices: vec![vec![3], vec![], vec![]] };
    let mut bfs = Bfs::new(&matrix);
    assert!(bfs.can_step());
    assert_eq!(bfs.next_frontier(), sparse(4, vec![0]));
    assert!(bfs.can_step());
    assert_eq!(bfs.next_frontier(), sparse(4, vec![3]));
    assert!(!bfs.can_step());
}

#[test]
fn sssp_levels() {
    let matrix = graph();
    let mut sssp = Sssp::new(&matrix);
    assert!(sssp.can_step());
    assert_eq!(sssp.next_frontier(), sparse(5, vec![0]));
    assert!(sssp.can_step());
    assert_eq!(sssp.next_frontier(), sparse(5, vec![1, 2]));
    assert!(sssp.can_step());
    assert_eq!(sssp.next_frontier(), sparse(5, vec![3, 4]));
    assert!(sssp.can_step());
    assert_eq!(sssp.next_frontier(), None);
    assert_eq!(sssp.next_frontier(), None);
}

#[test]
fn sssp_out_of_order_step_is_refused() {
    // from the frontier {1, 2} vertex 5 is met before vertex 3
    let matrix = CsrPattern { cols: 6, indices: vec![vec![1, 2], vec![5], vec![3], vec![], vec![], vec![]] };
    let mut sssp = Sssp::new(&matrix);
    assert_eq!(sssp.next_frontier(), sparse(6, vec![0]));
    assert_eq!(sssp.next_frontier(), sparse(6, vec![1, 2]));
    assert!(!sssp.can_step());
}

#[test]
fn spmm_walks_the_rows() {
    let matrix = graph();
    let mut spmm = Spmm::new(&matrix);
    assert_eq!(spmm.next_frontier(), sparse(5, vec![1, 2]));
    assert_eq!(spmm.next_frontier(), sparse(5, vec![3]));
    assert_eq!(spmm.next_frontier(), sparse(5, vec![3, 4]));
    assert_eq!(spmm.next_frontier(), sparse(5, vec![0]));
    assert_eq!(spmm.next_frontier(), sparse(5, vec![]));
    assert_eq!(spmm.next_frontier(), None);
}

#[test]
fn sorted_values_orders() {
    assert_eq!(sorted_values(&vec![5, 1, 4, 2]), vec![1, 2, 4, 5]);
    assert_eq!(sorted_values(&vec![]), Vec::<u32>::new());
}
