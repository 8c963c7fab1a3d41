use col_order::{order_simple, ColStorage, ColsQueue, Perm, Slice};

fn storage_from_cols(col_rows: &[&[usize]]) -> ColStorage {
    let mut row_storage: Vec<usize> = Vec::new();
    let mut cols: Vec<Slice> = Vec::new();
    for rows in col_rows {
        let begin = row_storage.len();
        for &r in *rows {
            row_storage.push(r);
        }
        let end = row_storage.len();
        cols.push(Slice { begin, end });
    }
    ColStorage { row_storage, cols }
}

fn check_bijection(perm: &Perm, n: usize) {
    assert_eq!(perm.orig2new.len(), n);
    assert_eq!(perm.new2orig.len(), n);
    for i in 0..n {
        assert_eq!(perm.orig2new[perm.new2orig[i]], i);
        assert_eq!(perm.new2orig[perm.orig2new[i]], i);
    }
}

#[test]
fn test_order_simple() {
    // the columns of a 4x6 matrix built from triplets, columns 0, 1, 2 and 4
    // of which are ordered; their row indices are listed per column
    let mat = storage_from_cols(&[&[0, 1, 2, 3], &[2], &[0, 1], &[1, 2, 3]]);
    order_simple(4, &mat);
}

#[test]
fn test_order_simple_values() {
    // nonzero counts per column: [4, 1, 2, 3]
    let mat = storage_from_cols(&[&[0, 1, 2, 3], &[2], &[0, 1], &[1, 2, 3]]);
    let perm = order_simple(4, &mat);
    assert_eq!(perm.new2orig, vec![1, 2, 3, 0]);
    assert_eq!(perm.orig2new, vec![3, 0, 1, 2]);
    check_bijection(&perm, 4);
}

#[test]
fn test_order_ties_broken_by_column_index() {
    // nonzero counts per column: [3, 2, 3, 2]; the two columns of count 2
    // come first, each group in increasing column order
    let mat = storage_from_cols(&[&[0, 1, 2], &[0, 1], &[1, 2, 3], &[2, 3]]);
    let perm = order_simple(4, &mat);
    assert_eq!(perm.new2orig, vec![1, 3, 0, 2]);
    assert_eq!(perm.orig2new, vec![2, 0, 3, 1]);
    check_bijection(&perm, 4);
}

#[test]
fn test_order_monotone_density() {
    let cols: Vec<Vec<usize>> = vec![
        vec![0, 1, 2],
        vec![0, 1],
        vec![1, 2, 3],
        vec![2, 3],
        vec![0],
    ];
    let borrowed: Vec<&[usize]> = cols.iter().map(|c| c.as_slice()).collect();
    let mat = storage_from_cols(&borrowed);
    let perm = order_simple(5, &mat);
    for w in perm.new2orig.windows(2) {
        assert!(cols[w[0]].len() <= cols[w[1]].len());
    }
    check_bijection(&perm, 5);
}

#[test]
fn test_single_column_is_identity() {
    let mat = storage_from_cols(&[&[0]]);
    let perm = order_simple(1, &mat);
    assert_eq!(perm.new2orig, vec![0]);
    assert_eq!(perm.orig2new, vec![0]);
}

#[test]
fn test_equal_counts_keep_insertion_order() {
    // every column has the same nonzero count, so the extraction order is
    // the insertion order: the identity permutation
    let mat = storage_from_cols(&[&[0, 1], &[1, 2], &[2, 3], &[3, 4], &[0, 4]]);
    let perm = order_simple(5, &mat);
    assert_eq!(perm.new2orig, vec![0, 1, 2, 3, 4]);
    assert_eq!(perm.orig2new, vec![0, 1, 2, 3, 4]);
}

#[test]
fn test_order_empty_matrix() {
    let mat = storage_from_cols(&[]);
    let perm = order_simple(0, &mat);
    assert!(perm.new2orig.is_empty());
    assert!(perm.orig2new.is_empty());
}

#[test]
fn test_order_is_deterministic() {
    let mat = storage_from_cols(&[&[0, 1, 2], &[0, 1], &[1, 2, 3], &[2, 3]]);
    let first = order_simple(4, &mat);
    let second = order_simple(4, &mat);
    assert_eq!(first.new2orig, second.new2orig);
    assert_eq!(first.orig2new, second.orig2new);
}

#[test]
fn test_queue_drains_to_empty() {
    let mut queue = ColsQueue::new(3);
    queue.add(0, 1);
    queue.add(1, 0);
    queue.add(2, 1);
    assert_eq!(queue.len(), 3);
    assert_eq!(queue.pop_min(), Some(1));
    assert_eq!(queue.pop_min(), Some(0));
    assert_eq!(queue.pop_min(), Some(2));
    assert_eq!(queue.len(), 0);
    assert_eq!(queue.pop_min(), None);
}

#[test]
fn test_queue_min_score_first() {
    let mut queue = ColsQueue::new(6);
    queue.add(4, 5);
    queue.add(2, 3);
    queue.add(0, 3);
    queue.add(5, 1);
    assert_eq!(queue.pop_min(), Some(5));
    // within the shared bucket of score 3, first inserted leaves first
    assert_eq!(queue.pop_min(), Some(2));
    assert_eq!(queue.pop_min(), Some(0));
    assert_eq!(queue.pop_min(), Some(4));
    assert_eq!(queue.pop_min(), None);
}

#[test]
fn test_slice_elems() {
    let storage: Vec<usize> = vec![5, 6, 7, 8];
    let slice = Slice { begin: 1, end: 3 };
    assert_eq!(slice.elems(&storage), &[6, 7]);
}
