use std::collections::HashMap;

use vstd::prelude::*;

use crate::material::MaterialIndex;

verus! {

broadcast use vstd::std_specs::hash::group_hash_axioms;

/// The corner positions of triangle `t` of an indexed face list.
pub open spec fn corners_of(indices: Seq<u32>, t: int) -> [usize; 3] {
    [indices[3 * t] as usize, indices[3 * t + 1] as usize, indices[3 * t + 2] as usize]
}

/// Cuts an indexed face list into triangles: every complete group of three consecutive
/// entries names the three corners of a triangle; a trailing incomplete group is dropped.
pub fn triangle_corners(indices: &Vec<u32>) -> (triangles: Vec<[usize; 3]>)
    ensures
        triangles.len() == indices.len() / 3,
        forall|t: int| 0 <= t < triangles.len() ==> #[trigger] triangles@[t] == corners_of(indices@, t),
        forall|t: int, k: int|
            0 <= t < triangles.len() && 0 <= k < 3 ==> #[trigger] triangles@[t][k] as int == indices@[3 * t + k] as int,
{
    let count = indices.len() / 3;
    let mut triangles: Vec<[usize; 3]> = Vec::with_capacity(count);
    let mut t: usize = 0;
    while t < count
        invariant
            count == indices.len() / 3,
            t <= count,
            triangles.len() == t,
            forall|k: int| 0 <= k < t ==> #[trigger] triangles@[k] == corners_of(indices@, k),
        decreases count - t,
    {
        let base = 3 * t;
        triangles.push([indices[base] as usize, indices[base + 1] as usize, indices[base + 2] as usize]);
        t = t + 1;
    }
    proof {
        assert forall|t: int, k: int|
            0 <= t < triangles.len() && 0 <= k < 3 implies #[trigger] triangles@[t][k] as int == indices@[3 * t + k] as int by {
            lemma_corners_are_indices(indices@, t);
        }
    }
    triangles
}

/// The corners of triangle `t` are entries `3t`, `3t + 1` and `3t + 2` of the index list,
/// each as the same number, for every index value: no index is cut short.
pub proof fn lemma_corners_are_indices(indices: Seq<u32>, t: int)
    requires
        0 <= t,
        3 * t + 3 <= indices.len(),
    ensures
        forall|k: int| 0 <= k < 3 ==> #[trigger] corners_of(indices, t)[k] as int == indices[3 * t + k] as int,
{
    assert forall|k: int| 0 <= k < 3 implies #[trigger] corners_of(indices, t)[k] as int == indices[3 * t + k] as int by {
        if k == 0 {
        } else if k == 1 {
        } else {
        }
    }
}

/// The map from the position of each OBJ material to the scene material it became.
pub open spec fn spec_material_map(assigned: Seq<Option<MaterialIndex>>, fallback: MaterialIndex) -> Map<usize, MaterialIndex> {
    Map::new(
        |k: usize| k < assigned.len(),
        |k: usize|
            match assigned[k as int] {
                Some(index) => index,
                None => fallback,
            },
    )
}

/// The material a model gets from `map` when it names `material_id`.
pub open spec fn spec_resolve_material(map: Map<usize, MaterialIndex>, material_id: Option<usize>, fallback: MaterialIndex) -> MaterialIndex {
    match material_id {
        Some(id) => if map.contains_key(id) {
            map[id]
        } else {
            fallback
        },
        None => fallback,
    }
}

/// A model that names the OBJ material at position `k` gets the scene material that one
/// became, or the fallback when it was not added to the scene; a model that names no
/// material, or one past the end of the material list, gets the fallback.
pub proof fn lemma_model_material(assigned: Seq<Option<MaterialIndex>>, fallback: MaterialIndex, material_id: Option<usize>)
    ensures
        spec_resolve_material(spec_material_map(assigned, fallback), material_id, fallback) == match material_id {
            Some(k) => if k < assigned.len() {
                match assigned[k as int] {
                    Some(index) => index,
                    None => fallback,
                }
            } else {
                fallback
            },
            None => fallback,
        },
{
}

/// Maps each material of an OBJ file, by its position, to the scene material it became:
/// `assigned[k]` when that material was added to the scene, `fallback` otherwise.
pub fn material_map(assigned: &Vec<Option<MaterialIndex>>, fallback: MaterialIndex) -> (map: HashMap<usize, MaterialIndex>)
    ensures
        map@ == spec_material_map(assigned@, fallback),
{
    let mut map: HashMap<usize, MaterialIndex> = HashMap::new();
    let mut k: usize = 0;
    while k < assigned.len()
        invariant
            k <= assigned.len(),
            forall|j: usize| #[trigger] map@.contains_key(j) <==> j < k,
            forall|j: usize|
                j < k ==> #[trigger] map@[j] == match assigned@[j as int] {
                    Some(index) => index,
                    None => fallback,
                },
        decreases assigned.len() - k,
    {
        let index = match assigned[k] {
            Some(index) => index,
            None => fallback,
        };
        map.insert(k, index);
        k = k + 1;
    }
    assert(map@ =~= spec_material_map(assigned@, fallback));
    map
}

/// The material of a model: the scene material that the model's own material was mapped to,
/// or `fallback` when the model names no material or one that was not mapped.
pub fn resolve_material(
    material_map: &HashMap<usize, MaterialIndex>,
    material_id: Option<usize>,
    fallback: MaterialIndex,
) -> (index: MaterialIndex)
    ensures
        index == spec_resolve_material(material_map@, material_id, fallback),
{
    match material_id {
        Some(id) => match material_map.get(&id) {
            Some(index) => *index,
            None => fallback,
        },
        None => fallback,
    }
}

} // verus!
