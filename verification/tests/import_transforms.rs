use engine::events::{CommandResult, Event, MouseButton, Reaction};
use engine::import::{
    import_materials, import_textures, load_node, load_nodes, load_scenes, material_from_desc, materials_importable,
    nodes_loadable, LightDesc, MaterialDesc, MeshData, NodeDesc, PrimitiveDesc, SceneDesc,
};
use engine::material::MaterialManager;
use engine::scene::light::PointLight;
use engine::scene::mesh::Mesh;
use engine::scene::model::Model;
use engine::texture::{Texture, TextureKind, TextureManager};
use std::collections::HashMap;

fn tex(data: u8) -> Texture<u8> {
    Texture { id: None, name: None, kind: TextureKind::Other, data }
}

fn managers() -> (TextureManager<u8>, MaterialManager<u8>) {
    let t = TextureManager::new(tex(1), tex(2));
    let (m, _) = MaterialManager::new(0u8, 32);
    (t, m)
}

fn desc(index: Option<usize>, albedo: Option<usize>, normal: Option<usize>, factors: u8) -> MaterialDesc<u8> {
    MaterialDesc {
        index,
        name: Some(format!("m{}", factors)),
        albedo,
        metallic_roughness: None,
        normal,
        occlusion: None,
        emissive: None,
        factors,
    }
}

#[test]
fn update_transforms_places_meshes_lights_and_children() {
    let grandchild = Model::from(vec![Mesh::from(0i64)], None, vec![], 3i64, None);
    let child = Model::from(vec![Mesh::from(0i64)], None, vec![grandchild], 5i64, Some(PointLight::new(1, 0i64)));
    let mut root = Model::from(vec![Mesh::from(0i64), Mesh::from(0i64)], None, vec![child], 10i64, Some(PointLight::new(0, 0i64)));
    for m in root.meshes.iter_mut() {
        m.dirty = false;
    }
    root.update_transforms(
        &1i64,
        &|p: &i64, t: &i64, _g: &i64| p + t,
        &|p: &i64, t: &i64, _l: &i64| p * 100 + t,
        &|p: &i64, t: &i64| p + t,
    );
    assert!(root.meshes.iter().all(|m| m.dirty && m.data == 11));
    let light = root.light.as_ref().unwrap();
    assert!(light.dirty);
    assert_eq!(light.index, 0);
    assert_eq!(light.data, 110);
    let child = &root.children[0];
    assert_eq!(child.meshes[0].data, 16);
    assert_eq!(child.light.as_ref().unwrap().data, 1105);
    assert_eq!(child.children[0].meshes[0].data, 19);
    assert_eq!(root.transform, 10);
}

#[test]
fn duplicate_names() {
    let named: Model<u8, (), ()> = Model::from(vec![], Some("cube".to_string()), vec![], (), None);
    assert_eq!(named.duplicate_name(), "cube duplicate");
    let unnamed: Model<u8, (), ()> = Model::from(vec![], None, vec![], (), None);
    assert_eq!(unnamed.duplicate_name(), " duplicate");
}

#[test]
fn game_reactions() {
    assert_eq!(Event::Click { x: 4, y: 9, mouse_button: MouseButton::Left }.reaction(), Reaction::QueryClick(4, 9));
    assert_eq!(Event::Click { x: 4, y: 9, mouse_button: MouseButton::Right }.reaction(), Reaction::Ignore);
    assert_eq!(Event::Click { x: 4, y: 9, mouse_button: MouseButton::Middle }.reaction(), Reaction::Ignore);
    assert_eq!(Event::CommandResult(CommandResult::ClickQuery(0)).reaction(), Reaction::Select(None));
    assert_eq!(Event::CommandResult(CommandResult::ClickQuery(7)).reaction(), Reaction::Select(Some(7)));
}

#[test]
fn imported_textures_are_keyed_by_gltf_index() {
    let (mut t, _) = managers();
    let map = import_textures(vec![tex(10), tex(11)], &mut t);
    assert_eq!(map.len(), 2);
    assert_eq!(t.get_texture(&map[&0]).data, 10);
    assert_eq!(t.get_texture(&map[&0]).id, Some(2));
    assert_eq!(t.get_texture(&map[&1]).data, 11);
    assert_eq!(t.get_texture(&map[&1]).id, Some(3));
    assert_eq!(t.iter().len(), 4);
}

#[test]
fn material_desc_resolves_texture_keys() {
    let (mut t, _) = managers();
    let map = import_textures(vec![tex(10), tex(11)], &mut t);
    let m = material_from_desc(desc(Some(0), Some(1), Some(0), 5), &map);
    assert!(m.dirty);
    assert_eq!(m.shader_id, 0);
    assert_eq!(m.albedo_texture, Some(map[&1]));
    assert_eq!(m.normal_texture, Some(map[&0]));
    assert_eq!(m.occlusion_texture, None);
    assert_eq!(m.factors, 5);
    assert_eq!(m.name, Some("m5".to_string()));
}

#[test]
fn imported_materials_skip_the_default_one() {
    let (mut t, mut mm) = managers();
    let tmap = import_textures(vec![tex(10), tex(11)], &mut t);
    let descs = vec![desc(None, None, None, 1), desc(Some(0), Some(1), None, 2), desc(Some(1), None, Some(0), 3)];
    let (mmap, plans) = import_materials(descs, &tmap, &mut mm);
    assert_eq!(mmap.len(), 2);
    assert_eq!(plans.len(), 2);
    assert_eq!(plans[0].write_offset, 32);
    assert_eq!(plans[1].write_offset, 64);
    let first = mm.get_material(mmap[&0]);
    assert_eq!(first.shader_id(), 1);
    assert_eq!(first.name(), &Some("m2".to_string()));
    let second = mm.get_material(mmap[&1]);
    assert_eq!(second.shader_id(), 2);
    assert_eq!(mm.iter().len(), 3);
    assert_eq!(mm.buffer.len(), 3);
}

#[test]
fn later_material_with_same_index_wins() {
    let (_, mut mm) = managers();
    let tmap: HashMap<usize, slotmap::DefaultKey> = HashMap::new();
    let (mmap, plans) = import_materials(vec![desc(Some(0), None, None, 2), desc(Some(0), None, None, 3)], &tmap, &mut mm);
    assert_eq!(plans.len(), 2);
    assert_eq!(mmap.len(), 1);
    assert_eq!(mm.get_material(mmap[&0]).shader_id(), 2);
}

#[test]
fn nodes_become_models() {
    let (_, mut mm) = managers();
    let tmap: HashMap<usize, slotmap::DefaultKey> = HashMap::new();
    let (mmap, _) = import_materials(vec![desc(Some(0), None, None, 2)], &tmap, &mut mm);
    let child = NodeDesc {
        name: Some("child".to_string()),
        transform: 2u8,
        primitives: vec![],
        light: Some(LightDesc { index: 1, data: 'b' }),
        children: vec![],
    };
    let root = NodeDesc {
        name: Some("root".to_string()),
        transform: 1u8,
        primitives: vec![
            PrimitiveDesc { material: Some(0), geometry: "a" },
            PrimitiveDesc { material: None, geometry: "b" },
        ],
        light: Some(LightDesc { index: 3, data: 'a' }),
        children: vec![child],
    };
    let mut lights = 0u32;
    let m = load_node(root, &mmap, mm.default_material, &mut lights);
    assert_eq!(lights, 2);
    assert_eq!(m.name, Some("root".to_string()));
    assert_eq!(m.transform, 1);
    assert!(m.id < 0x8000_0000);
    assert_eq!(m.meshes.len(), 2);
    let MeshData { material, geometry } = &m.meshes[0].data;
    assert_eq!(*material, mmap[&0]);
    assert_eq!(*geometry, "a");
    assert_eq!(m.meshes[1].data.material, mm.default_material);
    assert!(m.meshes.iter().all(|x| x.dirty));
    let l = m.light.as_ref().unwrap();
    assert!(l.dirty && l.index == 3 && l.data == 'a');
    assert_eq!(m.children.len(), 1);
    assert_eq!(m.children[0].name, Some("child".to_string()));
    assert_eq!(m.children[0].light.as_ref().unwrap().index, 1);
    let none: Vec<NodeDesc<&str, char, u8>> = vec![];
    assert!(load_nodes(none, &mmap, mm.default_material, &mut lights).is_empty());
    assert_eq!(lights, 2);
}

fn node(material: Option<usize>, light: Option<usize>, children: Vec<NodeDesc<&'static str, char, u8>>) -> NodeDesc<&'static str, char, u8> {
    NodeDesc {
        name: None,
        transform: 0,
        primitives: vec![PrimitiveDesc { material, geometry: "g" }],
        light: light.map(|index| LightDesc { index, data: 'l' }),
        children,
    }
}

#[test]
fn imports_are_checked_before_they_are_made() {
    let (mut t, mm) = managers();
    let tmap = import_textures(vec![tex(10)], &mut t);
    assert!(materials_importable(&vec![desc(Some(0), Some(0), None, 1)], &tmap, &mm));
    assert!(!materials_importable(&vec![desc(Some(0), Some(1), None, 1)], &tmap, &mm));
    assert!(!materials_importable(&vec![desc(None, None, Some(4), 1)], &tmap, &mm));
    let mut mats: HashMap<usize, slotmap::DefaultKey> = HashMap::new();
    mats.insert(0, mm.default_material);
    let nodes = vec![node(Some(0), Some(0), vec![node(None, Some(1), vec![])])];
    assert!(nodes_loadable(&nodes, &mats, 0));
    assert!(nodes_loadable(&nodes, &mats, u32::MAX - 2));
    assert!(!nodes_loadable(&nodes, &mats, u32::MAX - 1));
    let unknown = vec![node(None, None, vec![node(Some(3), None, vec![])])];
    assert!(!nodes_loadable(&unknown, &mats, 0));
}

#[test]
fn scenes_are_loaded_one_by_one() {
    let (_, mm) = managers();
    let mut mats: HashMap<usize, slotmap::DefaultKey> = HashMap::new();
    mats.insert(0, mm.default_material);
    let descs = vec![
        SceneDesc { name: Some("a".to_string()), nodes: vec![node(Some(0), Some(0), vec![]), node(None, None, vec![])] },
        SceneDesc { name: None, nodes: vec![] },
    ];
    let scenes = load_scenes(descs, &mats, mm.default_material, 8, 16).unwrap();
    assert_eq!(scenes.len(), 2);
    let (first, ops) = &scenes[0];
    assert_eq!(first.name, Some("a".to_string()));
    assert_eq!(first.models.len(), 2);
    assert_eq!(first.mesh_buffer.len(), 2);
    assert_eq!(first.light_buffer.len(), 1);
    assert_eq!(ops.len(), 3);
    assert!(scenes[1].0.models.is_empty());
    let bad = vec![SceneDesc { name: None, nodes: vec![node(Some(5), None, vec![])] }];
    assert!(load_scenes(bad, &mats, mm.default_material, 8, 16).is_none());
    let empty: Vec<SceneDesc<&str, char, u8>> = vec![];
    assert!(load_scenes(empty, &mats, mm.default_material, u64::MAX, 16).unwrap().is_empty());
}
