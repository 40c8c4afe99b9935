use std::collections::HashMap;

use renderer::geometry::mesh::{material_map, resolve_material, triangle_corners};
use renderer::material::MaterialIndex;

#[test]
fn indices_are_cut_into_triangles() {
    let indices = vec![0u32, 1, 2, 2, 3, 0, 7];
    let triangles = triangle_corners(&indices);
    assert_eq!(triangles, vec![[0, 1, 2], [2, 3, 0]]);
}

#[test]
fn no_index_no_triangle() {
    assert!(triangle_corners(&Vec::new()).is_empty());
    assert!(triangle_corners(&vec![4, 5]).is_empty());
}

#[test]
fn material_map_falls_back() {
    let map = material_map(&vec![Some(MaterialIndex(3)), None, Some(MaterialIndex(4))], MaterialIndex(1));
    assert_eq!(map.len(), 3);
    assert_eq!(map[&0].0, 3);
    assert_eq!(map[&1].0, 1);
    assert_eq!(map[&2].0, 4);
}

#[test]
fn model_material_resolution() {
    let map = material_map(&vec![Some(MaterialIndex(3)), None], MaterialIndex(1));
    assert_eq!(resolve_material(&map, Some(0), MaterialIndex(1)).0, 3);
    assert_eq!(resolve_material(&map, Some(1), MaterialIndex(1)).0, 1);
    assert_eq!(resolve_material(&map, Some(9), MaterialIndex(1)).0, 1);
    assert_eq!(resolve_material(&map, None, MaterialIndex(1)).0, 1);
    let empty: HashMap<usize, MaterialIndex> = HashMap::new();
    assert_eq!(resolve_material(&empty, Some(0), MaterialIndex(2)).0, 2);
}
