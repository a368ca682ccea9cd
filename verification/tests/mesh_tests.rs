use invesalius_rs::mesh::Mesh;

fn sorted(mut v: Vec<usize>) -> Vec<usize> {
    v.sort();
    v
}

#[test]
fn mesh_rejects_invalid_faces() {
    // an index at or above the vertex count is rejected
    assert!(Mesh::new(3, vec![(0, 1, 3)]).is_none());
    // a face with a repeated corner is rejected
    assert!(Mesh::new(3, vec![(0, 1, 1)]).is_none());
    assert!(Mesh::new(3, vec![(0, 1, 2)]).is_some());
}

#[test]
fn mesh_single_triangle_is_all_border() {
    let m = Mesh::new(3, vec![(0, 1, 2)]).unwrap();
    assert!(m.is_border(0));
    assert!(m.is_border(1));
    assert!(m.is_border(2));
    assert_eq!(sorted(m.get_ring1(0)), vec![1, 2]);
    assert_eq!(sorted(m.get_ring1(1)), vec![0, 2]);
    assert_eq!(m.n_vertices(), 3);
    assert_eq!(m.n_faces(), 1);
}

#[test]
fn mesh_adjacency_lists_incident_faces_in_order() {
    let m = Mesh::new(4, vec![(0, 1, 2), (1, 3, 2)]).unwrap();
    assert_eq!(m.incident_faces(0).clone(), vec![0]);
    assert_eq!(m.incident_faces(1).clone(), vec![0, 1]);
    assert_eq!(m.incident_faces(2).clone(), vec![0, 1]);
    assert_eq!(m.incident_faces(3).clone(), vec![1]);
    assert_eq!(sorted(m.get_ring1(1)), vec![0, 2, 3]);
}

#[test]
fn mesh_unreferenced_vertex_has_no_faces() {
    // the adjacency map covers exactly the vertices that faces reference
    let m = Mesh::new(5, vec![(0, 1, 2)]).unwrap();
    assert_eq!(m.incident_faces(3).len(), 0);
    assert_eq!(m.incident_faces(4).len(), 0);
    assert_eq!(m.get_ring1(3), Vec::<usize>::new());
}

#[test]
fn mesh_tetrahedron_has_no_border() {
    // every edge of a closed tetrahedron is shared by two faces
    let m = Mesh::new(4, vec![(0, 1, 2), (0, 3, 1), (0, 2, 3), (1, 3, 2)]).unwrap();
    for v in 0..4 {
        assert!(!m.is_border(v));
    }
    assert_eq!(sorted(m.get_ring1(0)), vec![1, 2, 3]);
    // interior vertices smooth over their whole ring
    assert_eq!(sorted(m.smoothing_neighbors(0)), vec![1, 2, 3]);
}

#[test]
fn mesh_border_vertex_smooths_over_border_ring() {
    // two triangles in a strip: the shared edge (1, 2) is interior, every
    // vertex is a border vertex, so smoothing uses only border neighbours
    // (which here is the whole ring)
    let m = Mesh::new(4, vec![(0, 1, 2), (1, 3, 2)]).unwrap();
    for v in 0..4 {
        assert!(m.is_border(v));
    }
    assert_eq!(sorted(m.smoothing_neighbors(1)), vec![0, 2, 3]);
}

#[test]
fn mesh_near_vertices_follow_flagged_paths() {
    // faces (0,1,2) and (2,3,4): vertex 2 joins the two triangles
    let m = Mesh::new(5, vec![(0, 1, 2), (2, 3, 4)]).unwrap();
    let all = vec![true; 5];
    assert_eq!(sorted(m.get_near_vertices_to_v(0, &all)), vec![1, 2, 3, 4]);
    // an unflagged vertex is dead and blocks every path through it
    let mut blocked = vec![true; 5];
    blocked[2] = false;
    assert_eq!(sorted(m.get_near_vertices_to_v(0, &blocked)), vec![1]);
    // the start vertex itself is never collected
    let near = m.get_near_vertices_to_v(2, &all);
    assert!(!near.contains(&2));
    assert_eq!(sorted(near), vec![0, 1, 3, 4]);
}
