use vstd::prelude::*;

use crate::material::MaterialIndex;

verus! {

/// Compile-time switches of the lighting computation.
pub trait SceneConfig {
    const ENABLE_INDIRECT_LIGHTING: bool;
}

/// The objects, lights and materials of a scene. Lights are objects too: each entry of the
/// light list is the position of an object in the object list.
#[derive(Debug)]
pub struct Scene<O, M> {
    objects: Vec<O>,
    lights: Vec<usize>,
    materials: Vec<M>,
}

impl<O, M> Scene<O, M> {
    /// The objects, in the order they were added.
    pub closed spec fn objects(self) -> Seq<O> {
        self.objects@
    }

    /// The positions of the objects that are lights, in the order they were added.
    pub closed spec fn lights(self) -> Seq<usize> {
        self.lights@
    }

    /// The materials, in the order they were added.
    pub closed spec fn materials(self) -> Seq<M> {
        self.materials@
    }

    /// Every light names an object of the scene.
    pub open spec fn lights_are_objects(self) -> bool {
        forall|i: int| 0 <= i < self.lights().len() ==> #[trigger] self.lights()[i] < self.objects().len()
    }

    /// A scene that holds `default_material` as its material `0` and nothing else.
    pub fn with_default_material(default_material: M) -> (scene: Self)
        ensures
            scene.objects() == Seq::<O>::empty(),
            scene.lights() == Seq::<usize>::empty(),
            scene.materials() == seq![default_material],
            scene.lights_are_objects(),
    {
        let mut materials = Vec::new();
        materials.push(default_material);
        Scene { objects: Vec::new(), lights: Vec::new(), materials }
    }

    /// Adds an object that is not a light.
    pub fn add_object(&mut self, object: O)
        ensures
            final(self).objects() == old(self).objects().push(object),
            final(self).lights() == old(self).lights(),
            final(self).materials() == old(self).materials(),
            old(self).lights_are_objects() ==> final(self).lights_are_objects(),
    {
        self.objects.push(object);
    }

    /// Adds an object that is a light: it joins the object list and its position joins the
    /// light list.
    pub fn add_light(&mut self, object: O)
        ensures
            final(self).objects() == old(self).objects().push(object),
            final(self).lights() == old(self).lights().push(old(self).objects().len() as usize),
            final(self).materials() == old(self).materials(),
            old(self).lights_are_objects() ==> final(self).lights_are_objects(),
    {
        let object_index = self.objects.len();
        self.add_object(object);
        self.lights.push(object_index);
    }

    /// Adds a material and gives back its position.
    pub fn add_material(&mut self, material: M) -> (index: MaterialIndex)
        ensures
            index.0 == old(self).materials().len(),
            final(self).materials() == old(self).materials().push(material),
            final(self).objects() == old(self).objects(),
            final(self).lights() == old(self).lights(),
            old(self).lights_are_objects() ==> final(self).lights_are_objects(),
    {
        let index = self.materials.len();
        self.materials.push(material);
        MaterialIndex(index)
    }

    /// Number of materials.
    pub fn material_count(&self) -> (count: usize)
        ensures
            count == self.materials().len(),
    {
        self.materials.len()
    }

    /// The material at `index`.
    pub fn material(&self, index: MaterialIndex) -> (material: &M)
        requires
            index.0 < self.materials().len(),
        ensures
            *material == self.materials()[index.0 as int],
    {
        &self.materials[index.0]
    }

    /// The objects, in the order they were added.
    pub fn object_list(&self) -> (objects: &Vec<O>)
        ensures
            objects@ == self.objects(),
    {
        &self.objects
    }

    /// The positions of the objects that are lights.
    pub fn light_list(&self) -> (lights: &Vec<usize>)
        ensures
            lights@ == self.lights(),
    {
        &self.lights
    }
}

/// The material that `add_material` added is the one `material` finds at the index it gave
/// back, and every material added before keeps its index.
pub proof fn lemma_added_material_found<O, M>(before: Scene<O, M>, after: Scene<O, M>, material: M, index: MaterialIndex)
    requires
        index.0 == before.materials().len(),
        after.materials() == before.materials().push(material),
    ensures
        index.0 < after.materials().len(),
        after.materials()[index.0 as int] == material,
        forall|j: int| 0 <= j < before.materials().len() ==> #[trigger] after.materials()[j] == before.materials()[j],
{
}

} // verus!
