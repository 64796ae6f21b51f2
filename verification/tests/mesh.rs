use lab_graphics::mesh::{flat_normal_indices, group_triples, indices_in_range, Faces};

#[test]
fn flat_indices_are_grouped_in_threes() {
    assert_eq!(group_triples(&[0, 1, 2, 2, 1, 3]), vec![[0usize, 1, 2], [2, 1, 3]]);
    assert_eq!(group_triples(&[5, 6, 7, 8]), vec![[5usize, 6, 7]]);
    assert_eq!(group_triples(&[5, 6]), Vec::<[usize; 3]>::new());
    assert_eq!(group_triples(&[]), Vec::<[usize; 3]>::new());
    assert_eq!(group_triples(&[u32::MAX, 0, 1]), vec![[u32::MAX as usize, 0, 1]]);
}

#[test]
fn flat_normals_are_indexed_by_triangle() {
    assert_eq!(flat_normal_indices(3), vec![[0usize, 0, 0], [1, 1, 1], [2, 2, 2]]);
    assert_eq!(flat_normal_indices(0), Vec::<[usize; 3]>::new());
}

#[test]
fn indices_are_checked_against_the_array() {
    let triples = vec![[0usize, 1, 2], [2, 1, 3]];
    assert!(indices_in_range(&triples, 4));
    assert!(!indices_in_range(&triples, 3));
    assert!(!indices_in_range(&[[0usize, 9, 0]], 9));
    assert!(!indices_in_range(&[[9usize, 0, 0]], 9));
    assert!(indices_in_range(&[], 0));
}

#[test]
fn faces_must_fit_their_arrays() {
    let faces = Faces {
        indices: vec![[0, 1, 2], [2, 1, 3]],
        normal_indices: flat_normal_indices(2),
        texcoord_indices: vec![[0, 0, 0], [4, 4, 4]],
    };
    assert!(faces.is_valid(4, 2, 5));
    assert!(!faces.is_valid(3, 2, 5));
    assert!(!faces.is_valid(4, 1, 5));
    assert!(!faces.is_valid(4, 2, 4));
    let uneven = Faces {
        indices: vec![[0, 1, 2], [2, 1, 3]],
        normal_indices: flat_normal_indices(1),
        texcoord_indices: vec![[0, 0, 0], [4, 4, 4]],
    };
    assert!(!uneven.is_valid(4, 2, 5));
}
