use renderer::material::MaterialIndex;
use renderer::scene::Scene;

#[test]
fn default_material_is_index_zero() {
    let scene: Scene<&str, &str> = Scene::with_default_material("grey");
    assert_eq!(*scene.material(MaterialIndex::default()), "grey");
    assert_eq!(MaterialIndex::default().0, 0);
}

#[test]
fn added_materials_are_found_at_their_index() {
    let mut scene: Scene<&str, &str> = Scene::with_default_material("grey");
    let white = scene.add_material("white");
    let black = scene.add_material("black");
    assert_eq!(white.0, 1);
    assert_eq!(black.0, 2);
    assert_eq!(*scene.material(white), "white");
    assert_eq!(*scene.material(black), "black");
    assert_eq!(*scene.material(MaterialIndex(0)), "grey");
}

#[test]
fn lights_name_their_objects() {
    let mut scene: Scene<&str, u8> = Scene::with_default_material(0);
    scene.add_object("floor");
    scene.add_light("lamp");
    scene.add_object("wall");
    scene.add_light("sun");
    assert_eq!(scene.object_list(), &vec!["floor", "lamp", "wall", "sun"]);
    assert_eq!(scene.light_list(), &vec![1, 3]);
    for &light in scene.light_list() {
        assert!(light < scene.object_list().len());
    }
    assert_eq!(scene.object_list()[scene.light_list()[0]], "lamp");
}

#[test]
fn fresh_scene_is_empty() {
    let scene: Scene<u8, u8> = Scene::with_default_material(5);
    assert!(scene.object_list().is_empty());
    assert!(scene.light_list().is_empty());
}
