use blue_noise::mesh::{
    count_common_elements, extract_voronoi_cell_vertices, generate_mesh, is_subset,
    remove_subsets, sort_vertices_topologically, OrderError, VertexMap,
};

fn fixture() -> Vec<usize> {
    vec![
            2, 2, 2, 2, 2, 1, 1, 1, 1, 1, 1, 5, 5, 5, 5, 5, 2, 2, 2, 2, 2, 1, 1, 1, 1, 1, 1, 5, 5,
            5, 5, 5, 2, 2, 2, 2, 1, 1, 1, 1, 1, 1, 1, 1, 5, 5, 5, 5, 2, 2, 2, 2, 1, 1, 1, 1, 1, 1,
            1, 1, 5, 5, 5, 5, 2, 2, 2, 2, 1, 1, 1, 1, 1, 1, 1, 1, 5, 5, 5, 5, 2, 2, 2, 1, 1, 1, 1,
            1, 1, 1, 1, 1, 3, 3, 3, 3, 2, 2, 2, 1, 1, 1, 1, 1, 1, 1, 1, 3, 3, 3, 3, 3, 2, 2, 1, 1,
            1, 1, 1, 1, 1, 1, 3, 3, 3, 3, 3, 3, 2, 2, 4, 4, 4, 4, 4, 4, 4, 4, 3, 3, 3, 3, 3, 3, 4,
            4, 4, 4, 4, 4, 4, 4, 4, 4, 4, 3, 3, 3, 3, 3, 4, 4, 4, 4, 4, 4, 4, 4, 4, 4, 4, 4, 3, 3,
            3, 3, 4, 4, 4, 4, 4, 4, 4, 4, 4, 4, 4, 4, 3, 3, 3, 3, 4, 4, 4, 4, 4, 4, 4, 4, 4, 4, 4,
            4, 4, 3, 3, 3, 4, 4, 4, 4, 4, 4, 4, 4, 4, 4, 4, 4, 4, 4, 3, 3, 4, 4, 4, 4, 4, 4, 4, 4,
            4, 4, 4, 4, 4, 4, 3, 3, 4, 4, 4, 4, 4, 4, 4, 4, 4, 4, 4, 4, 4, 4, 4, 3,
        ]
}

#[test]
fn test_extract_voronoi_cell_vertices() {
    let pixels = fixture();
    let num_colors = 5;
    let res = 16;
    let mut color_vertices: Vec<Vec<Vec<usize>>> = vec![Vec::new(); num_colors];
    let mut vertex_map = VertexMap::new();
    extract_voronoi_cell_vertices(&pixels, res, &mut color_vertices, &mut vertex_map);

    let expected_color_vertices = vec![
        vec![
            vec![0, 1, 2],
            vec![0, 1, 5],
            vec![1, 3, 5],
            vec![1, 2, 4],
            vec![1, 3, 4],
        ],
        vec![vec![0, 1, 2], vec![0, 1, 2, 4], vec![0, 2, 4]],
        vec![vec![1, 3, 5], vec![0, 3, 5], vec![1, 3, 4], vec![0, 3, 4]],
        vec![vec![1, 2, 4], vec![1, 3, 4], vec![0, 2, 4], vec![0, 3, 4]],
        vec![vec![0, 1, 5], vec![1, 3, 5], vec![0, 3, 5]],
    ];

    let expected_vertex_map: Vec<(Vec<usize>, (u32, u32))> = vec![
        (vec![1, 3, 5], (11, 4)),
        (vec![1, 2, 4], (2, 7)),
        (vec![0, 3, 5], (15, 4)),
        (vec![1, 3, 4], (9, 7)),
        (vec![0, 1, 2], (4, 0)),
        (vec![0, 1, 2, 4], (1, 7)),
        (vec![0, 3, 4], (15, 14)),
        (vec![0, 2, 4], (0, 8)),
        (vec![0, 1, 5], (10, 0)),
    ];

    assert_eq!(color_vertices, expected_color_vertices);
    assert_eq!(vertex_map.len(), expected_vertex_map.len());
    for (key, pos) in expected_vertex_map.iter() {
        assert_eq!(vertex_map.get(key), Some(*pos));
    }
}

#[test]
fn vertex_map_keeps_discovery_order() {
    let pixels = fixture();
    let mut color_vertices: Vec<Vec<Vec<usize>>> = vec![Vec::new(); 5];
    let mut vertex_map = VertexMap::new();
    extract_voronoi_cell_vertices(&pixels, 16, &mut color_vertices, &mut vertex_map);
    assert_eq!(vertex_map.entry(0), (vec![0, 1, 2], (4, 0)));
    assert_eq!(vertex_map.entry(1), (vec![0, 1, 5], (10, 0)));
    assert_eq!(vertex_map.get(&vec![0, 1]), None);
}

#[test]
fn extraction_appends_only_new_keys() {
    let pixels = fixture();
    let mut color_vertices: Vec<Vec<Vec<usize>>> = vec![Vec::new(); 5];
    color_vertices[1] = vec![vec![0, 2, 4], vec![7]];
    let mut vertex_map = VertexMap::new();
    extract_voronoi_cell_vertices(&pixels, 16, &mut color_vertices, &mut vertex_map);
    assert_eq!(
        color_vertices[1],
        vec![vec![0, 2, 4], vec![7], vec![0, 1, 2], vec![0, 1, 2, 4]]
    );
}

#[test]
fn empty_grid_gives_no_vertices() {
    let pixels = vec![0usize; 64];
    let mut color_vertices: Vec<Vec<Vec<usize>>> = Vec::new();
    let mut vertex_map = VertexMap::new();
    extract_voronoi_cell_vertices(&pixels, 8, &mut color_vertices, &mut vertex_map);
    assert_eq!(vertex_map.len(), 0);
    assert!(color_vertices.is_empty());
}

#[test]
fn count_common_elements_of_sorted_keys() {
    assert_eq!(count_common_elements(&vec![1, 3, 5], &vec![1, 2, 3]), 2);
    assert_eq!(count_common_elements(&vec![0, 1, 2, 4], &vec![0, 2, 4]), 3);
    assert_eq!(count_common_elements(&vec![], &vec![0, 2, 4]), 0);
    assert_eq!(count_common_elements(&vec![7, 8], &vec![0, 2, 4]), 0);
}

#[test]
fn is_subset_checks_every_element() {
    assert!(is_subset(&vec![0, 2], &vec![0, 1, 2]));
    assert!(!is_subset(&vec![0, 3], &vec![0, 1, 2]));
    assert!(is_subset(&vec![], &vec![5]));
}

#[test]
fn remove_subsets_drops_strict_subsets_only() {
    let mut keys = vec![vec![0, 1], vec![0, 1, 2], vec![3, 4, 5], vec![3, 4, 5]];
    remove_subsets(&mut keys);
    assert_eq!(keys, vec![vec![0, 1, 2], vec![3, 4, 5], vec![3, 4, 5]]);

    let mut keys = vec![vec![0, 1, 2], vec![0, 1, 2, 4], vec![0, 2, 4]];
    remove_subsets(&mut keys);
    assert_eq!(keys, vec![vec![0, 1, 2, 4]]);
}

fn shares_two(a: &Vec<usize>, b: &Vec<usize>) -> bool {
    a.iter().filter(|v| b.contains(v)).count() == 2
}

#[test]
fn ordered_polygon_is_a_closed_loop() {
    let pixels = fixture();
    let mut color_vertices: Vec<Vec<Vec<usize>>> = vec![Vec::new(); 5];
    let mut vertex_map = VertexMap::new();
    extract_voronoi_cell_vertices(&pixels, 16, &mut color_vertices, &mut vertex_map);
    let original = color_vertices[0].clone();
    let mut keys = color_vertices[0].clone();
    assert_eq!(sort_vertices_topologically(&mut keys, &vertex_map), Ok(()));
    assert_eq!(keys.len(), original.len());
    assert_eq!(keys[0], original[0]);
    for k in original.iter() {
        assert_eq!(keys.iter().filter(|x| *x == k).count(), 1);
    }
    for i in 0..keys.len() {
        assert!(shares_two(&keys[i], &keys[(i + 1) % keys.len()]));
    }
    assert_eq!(
        keys,
        vec![
            vec![0, 1, 2],
            vec![0, 1, 5],
            vec![1, 3, 5],
            vec![1, 3, 4],
            vec![1, 2, 4],
        ]
    );
}

#[test]
fn ordering_reports_a_dead_end() {
    let vertex_map = VertexMap::new();
    let mut keys = vec![vec![0, 1, 2], vec![3, 4, 5], vec![6, 7, 8]];
    assert_eq!(
        sort_vertices_topologically(&mut keys, &vertex_map),
        Err(OrderError::Stuck)
    );
    assert_eq!(keys, vec![vec![0, 1, 2], vec![3, 4, 5], vec![6, 7, 8]]);
}

#[test]
fn ordering_reports_an_open_path() {
    let vertex_map = VertexMap::new();
    let mut keys = vec![vec![0, 1, 2], vec![1, 2, 3], vec![2, 3, 4]];
    assert_eq!(
        sort_vertices_topologically(&mut keys, &vertex_map),
        Err(OrderError::Unclosed)
    );
}

#[test]
fn ordering_reports_a_missing_vertex() {
    let vertex_map = VertexMap::new();
    let mut keys = vec![vec![0, 1, 2], vec![0, 1, 5], vec![1, 2, 4], vec![1, 4, 5]];
    assert_eq!(
        sort_vertices_topologically(&mut keys, &vertex_map),
        Err(OrderError::MissingVertex)
    );
}

#[test]
fn mesh_of_the_fixture_grid() {
    let pixels = fixture();
    let (polygons, vertex_map) = generate_mesh(&pixels, 16, 5).unwrap();
    assert_eq!(vertex_map.len(), 9);
    assert_eq!(polygons.len(), 5);
    assert_eq!(
        polygons[0],
        vec![vec![0, 1, 2], vec![0, 1, 5], vec![1, 3, 5], vec![1, 3, 4], vec![1, 2, 4]]
    );
    // owner 2 keeps a single key once its strict subsets are dropped
    assert!(polygons[1].is_empty());
    assert_eq!(
        polygons[2],
        vec![vec![1, 3, 5], vec![0, 3, 5], vec![0, 3, 4], vec![1, 3, 4]]
    );
    assert_eq!(
        polygons[3],
        vec![vec![1, 2, 4], vec![1, 3, 4], vec![0, 3, 4], vec![0, 2, 4]]
    );
    assert_eq!(polygons[4], vec![vec![0, 1, 5], vec![0, 3, 5], vec![1, 3, 5]]);
}

#[test]
fn mesh_without_seeds_is_empty() {
    let pixels = vec![0usize; 256];
    let (polygons, vertex_map) = generate_mesh(&pixels, 16, 0).unwrap();
    assert!(polygons.is_empty());
    assert_eq!(vertex_map.len(), 0);
}

#[test]
fn mesh_of_a_flooded_grid_closes_every_cell() {
    let seeds = vec![(8usize, 8usize), (40, 10), (20, 50), (55, 55), (30, 30)];
    let pixels = blue_noise::jfa::jfa(&seeds, 64).unwrap();
    let (polygons, _) = generate_mesh(&pixels, 64, seeds.len()).unwrap();
    for p in polygons.iter().filter(|p| !p.is_empty()) {
        for i in 0..p.len() {
            assert!(shares_two(&p[i], &p[(i + 1) % p.len()]));
        }
    }
}
