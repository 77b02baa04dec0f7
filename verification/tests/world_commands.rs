use engine::camera::CameraSync;
use engine::import::MeshData;
use engine::material::{Material, MaterialManager, PbrMaterial};
use engine::saved::{material_from_serde, model_from_serde, scene_from_serde, MaterialSerde, MeshSerde, ModelSerde, SceneSerde};
use engine::scene::light::PointLight;
use engine::scene::mesh::Mesh;
use engine::scene::model::Model;
use engine::scene::{BufferWrite, Scene};
use engine::texture::{Texture, TextureKind, TextureManager};
use engine::world::{importable, World, WorldError};

fn textures() -> TextureManager<u8> {
    TextureManager::new(
        Texture { id: None, name: None, kind: TextureKind::Albedo, data: 1 },
        Texture { id: None, name: None, kind: TextureKind::Normal, data: 2 },
    )
}

type W = World<u32, (), (), (), u8>;

fn world() -> W {
    let (mm, _) = MaterialManager::new((), 32);
    World::new(mm, textures())
}

fn scene_of(models: Vec<Model<u32, (), ()>>) -> Scene<u32, (), ()> {
    Scene::from(models, None, 8, 16).0
}

fn bare() -> Model<u32, (), ()> {
    Model::from(vec![], None, vec![], (), None)
}

fn keep_mesh(_: &(), _: &(), g: &u32) -> u32 {
    *g
}

fn keep_light(_: &(), _: &(), _: &()) {}

fn unit(_: &(), _: &()) {}

fn copy_u32(g: &u32) -> u32 {
    *g
}

#[test]
fn importable_takes_gltf_files_only() {
    assert!(importable("glb"));
    assert!(importable("gltf"));
    assert!(!importable("obj"));
    assert!(!importable("GLB"));
    assert!(!importable("gl"));
    assert!(!importable(""));
}

#[test]
fn import_scene_joins_roots_into_the_scene_shown() {
    let mut w = world();
    assert_eq!(w.import_scene(scene_of(vec![bare()])).unwrap_err(), WorldError::NoScene);
    let first = bare();
    let first_id = first.id;
    w.add_scene(scene_of(vec![first]));
    let mesh = Mesh::from(9u32);
    let mesh_id = mesh.id;
    let lit = Model::from(vec![mesh], None, vec![], (), Some(PointLight::new(0, ())));
    let lit_id = lit.id;
    let ops = w.import_scene(scene_of(vec![lit])).unwrap();
    let s = w.get_active_scene().unwrap();
    assert_eq!(s.models.iter().map(|m| m.id).collect::<Vec<_>>(), vec![first_id, lit_id]);
    assert_eq!(s.mesh_buffer.len(), 1);
    assert_eq!(s.light_buffer.len(), 1);
    assert!(matches!(ops[0], BufferWrite::PushMesh { mesh_id: id, .. } if id == mesh_id));
    assert!(matches!(ops[1], BufferWrite::PushLight { model_id: id, .. } if id == lit_id));
    assert_eq!(ops[2], BufferWrite::UpdateMesh { mesh_id, offset: 0 });
    assert_eq!(ops[3], BufferWrite::UpdateLight { model_id: lit_id, offset: 0 });
    assert_eq!(ops.len(), 4);
}

#[test]
fn checks_before_joining_and_adding() {
    let root = bare();
    let root_id = root.id;
    let s = scene_of(vec![root]);
    assert!(s.is_wf());
    assert!(s.can_join(&scene_of(vec![bare()])));
    assert!(s.can_add_model(&bare(), None));
    assert!(s.can_add_model(&bare(), Some(root_id)));
    assert!(!s.can_add_model(&bare(), Some(root_id.wrapping_add(1))));
    let mut far = Model::from(vec![], None, vec![], (), Some(PointLight::new(5, ())));
    far.light.as_mut().unwrap().dirty = true;
    assert!(!s.can_add_model(&far, None));
    assert!(s.can_add_model(&Model::from(vec![], None, vec![], (), Some(PointLight::new(0, ()))), None));
}

#[test]
fn create_light_takes_the_slot_after_the_camera_count() {
    let mut w = world();
    let mut camera = CameraSync::new();
    assert_eq!(
        w.create_light(&camera, (), (), None, &(), &keep_mesh, &keep_light, &unit).unwrap_err(),
        WorldError::NoScene
    );
    let root = bare();
    let root_id = root.id;
    w.add_scene(scene_of(vec![root]));
    let ops = w.create_light(&camera, (), (), None, &(), &keep_mesh, &keep_light, &unit).unwrap();
    {
        let s = w.get_active_scene().unwrap();
        assert_eq!(s.models.len(), 2);
        let light = s.models[1].light.as_ref().unwrap();
        assert_eq!(light.index, 0);
        assert!(!light.dirty);
        assert!(s.models[1].meshes.is_empty() && s.models[1].children.is_empty() && s.models[1].name.is_none());
        assert_eq!(s.light_buffer.len(), 1);
        assert_eq!(ops.len(), 2);
    }
    camera.update_light_count(1);
    w.create_light(&camera, (), (), Some(root_id), &(), &keep_mesh, &keep_light, &unit).unwrap();
    let s = w.get_active_scene().unwrap();
    assert_eq!(s.models.len(), 2);
    assert_eq!(s.models[0].children[0].light.as_ref().unwrap().index, 1);
    assert_eq!(s.light_buffer.len(), 2);
    assert_eq!(
        w.create_light(&camera, (), (), Some(root_id.wrapping_add(1)), &(), &keep_mesh, &keep_light, &unit)
            .unwrap_err(),
        WorldError::CannotAttach
    );
    assert_eq!(w.get_active_scene().unwrap().light_buffer.len(), 2);
}

#[test]
fn change_model_parent_moves_a_model_between_scenes() {
    let mut w = world();
    let moving = bare();
    let moving_id = moving.id;
    w.add_scene(scene_of(vec![moving]));
    let target_root = bare();
    let target_id = target_root.id;
    w.add_scene(scene_of(vec![target_root]));
    let (r, writes) = w.change_model_parent(moving_id, Some(target_id), 7);
    assert_eq!(r, Err(WorldError::NoScene));
    assert!(writes.is_empty());
    assert_eq!(w.get_scene(1).unwrap().models.len(), 1);
    let (r, writes) = w.change_model_parent(moving_id, Some(target_id), 2);
    assert_eq!(r, Ok(()));
    assert_eq!(writes.last().unwrap().scene_id, 2);
    assert!(w.get_scene(1).unwrap().models.is_empty());
    assert_eq!(w.get_scene(2).unwrap().models[0].children[0].id, moving_id);
    let (r, _) = w.change_model_parent(moving_id.wrapping_add(1), None, 2);
    assert_eq!(r, Err(WorldError::NotFound));
    let (r, _) = w.change_model_parent(moving_id, None, 1);
    assert_eq!(r, Ok(()));
    assert_eq!(w.get_scene(1).unwrap().models[0].id, moving_id);
    assert!(w.get_scene(2).unwrap().models[0].children.is_empty());
}

#[test]
fn duplicate_model_adds_a_copy_as_a_root() {
    let mut w = world();
    let original = Model::from(
        vec![Mesh::from(3u32), Mesh::from(4u32)],
        Some("lamp".to_string()),
        vec![bare()],
        (),
        Some(PointLight::new(0, ())),
    );
    let original_id = original.id;
    w.add_scene(scene_of(vec![original]));
    w.add_scene(scene_of(vec![bare()]));
    let writes = w.duplicate_model(original_id, &copy_u32);
    assert_eq!(writes.len(), 2);
    let s = w.get_scene(1).unwrap();
    assert_eq!(s.models.len(), 2);
    let copy = &s.models[1];
    assert_ne!(copy.id, original_id);
    assert_eq!(copy.name, Some("lamp duplicate".to_string()));
    assert_eq!(copy.meshes.iter().map(|m| m.data).collect::<Vec<_>>(), vec![3, 4]);
    assert!(copy.children.is_empty());
    assert!(copy.light.is_none());
    assert_eq!(s.mesh_buffer.len(), 4);
    assert_eq!(w.get_scene(2).unwrap().models.len(), 1);
    let untouched = writes.iter().find(|x| x.scene_id == 2).unwrap();
    assert!(untouched.writes.is_empty());
    let none = w.duplicate_model(original_id.wrapping_add(1), &copy_u32);
    assert!(none.iter().all(|x| x.writes.is_empty()));
    assert_eq!(w.get_scene(1).unwrap().models.len(), 2);
}

#[test]
fn settled_worlds_allow_removals() {
    let mut w = world();
    assert!(w.is_settled());
    w.add_scene(scene_of(vec![bare()]));
    assert!(w.is_settled());
    let mut far = Model::from(vec![], None, vec![], (), Some(PointLight::new(3, ())));
    far.light.as_mut().unwrap().dirty = true;
    w.scene_mut(1).unwrap().models.push(far);
    assert!(!w.is_settled());
}

type Geo = MeshData<u8>;

fn materials() -> (MaterialManager<()>, slotmap::DefaultKey) {
    let (mut mm, _) = MaterialManager::new((), 32);
    let (k, _) = mm.add_material(Material::Pbr(PbrMaterial::from_default(None, ())));
    (mm, k)
}

#[test]
fn materials_are_found_by_shader_id() {
    let (mm, k) = materials();
    assert_eq!(mm.key_of_shader(1), Some(k));
    assert_eq!(mm.key_of_shader(0), Some(mm.default_material));
    assert_eq!(mm.key_of_shader(2), None);
}

fn mesh(material: slotmap::DefaultKey, geometry: u8) -> Mesh<Geo> {
    Mesh::from(MeshData { material, geometry })
}

#[test]
fn a_model_survives_saving_and_loading() {
    let (mm, k) = materials();
    let child = Model::from(vec![mesh(mm.default_material, 5)], Some("child".to_string()), vec![], 2u32, None);
    let child_id = child.id;
    let m: Model<Geo, (), u32> =
        Model::from(vec![mesh(k, 7)], Some("root".to_string()), vec![child], 1u32, Some(PointLight::new(0, ())));
    let id = m.id;
    let mesh_id = m.meshes[0].id;
    let record = m.to_serde(&mm);
    assert_eq!(record.id, id);
    assert_eq!(record.name, Some("root".to_string()));
    assert_eq!(record.transform, 1);
    assert_eq!(record.meshes[0].id, mesh_id);
    assert_eq!(record.meshes[0].material, 1);
    assert_eq!(record.meshes[0].geometry, 7);
    assert_eq!(record.children[0].meshes[0].material, 0);
    let back: Model<Geo, (), u32> = model_from_serde(record, &mm).unwrap();
    assert_eq!(back.id, id);
    assert_eq!(back.name, Some("root".to_string()));
    assert_eq!(back.transform, 1);
    assert_eq!(back.meshes[0].id, mesh_id);
    assert_eq!(back.meshes[0].data.material, k);
    assert_eq!(back.meshes[0].data.geometry, 7);
    assert!(back.meshes[0].dirty);
    assert!(back.light.is_none());
    assert_eq!(back.children[0].id, child_id);
    assert_eq!(back.children[0].meshes[0].data.material, mm.default_material);
}

#[test]
fn a_record_naming_an_unknown_material_is_refused() {
    let (mm, _) = materials();
    let record = ModelSerde {
        id: 4,
        meshes: vec![],
        children: vec![ModelSerde {
            id: 5,
            meshes: vec![MeshSerde { id: 6, material: 9, geometry: 0u8 }],
            children: vec![],
            name: None,
            transform: 0u32,
        }],
        name: None,
        transform: 0u32,
    };
    assert!(model_from_serde::<u8, (), u32, ()>(record, &mm).is_none());
}

fn scene_record(id: u32, name: &str, mesh_id: u32) -> SceneSerde<u8, u32> {
    SceneSerde {
        id,
        models: vec![ModelSerde {
            id: mesh_id + 100,
            meshes: vec![MeshSerde { id: mesh_id, material: 0, geometry: 1 }],
            children: vec![],
            name: None,
            transform: 0,
        }],
        name: Some(name.to_string()),
    }
}

#[test]
fn a_scene_is_read_from_its_record() {
    let (mm, _) = materials();
    let (s, ops) = scene_from_serde::<u8, (), u32, ()>(scene_record(3, "hall", 11), &mm, 8, 16).unwrap();
    assert_eq!(s.id, 3);
    assert_eq!(s.name, Some("hall".to_string()));
    assert_eq!(s.models[0].id, 111);
    assert_eq!(s.mesh_buffer.len(), 1);
    assert_eq!(s.light_buffer.len(), 0);
    assert_eq!(ops.len(), 1);
    assert!(matches!(ops[0], BufferWrite::PushMesh { mesh_id: 11, .. }));
    assert!(scene_from_serde::<u8, (), u32, ()>(scene_record(3, "hall", 11), &mm, u64::MAX, 16).is_none());
}

#[test]
fn a_world_is_read_from_records_and_written_back() {
    let (mm, _) = materials();
    let records = vec![scene_record(2, "a", 1), scene_record(5, "b", 2), scene_record(2, "c", 3)];
    let (w, writes) = World::<Geo, (), u32, (), u8>::from_serde(records, mm, textures(), 8, 16).unwrap();
    assert_eq!(w.active_scene, 0);
    assert_eq!(writes.iter().map(|x| x.scene_id).collect::<Vec<_>>(), vec![2, 5, 2]);
    let mut ids = w.scene_ids();
    ids.sort();
    assert_eq!(ids, vec![2, 5]);
    assert_eq!(w.get_scene(2).unwrap().name, Some("c".to_string()));
    assert_eq!(w.get_scene(5).unwrap().models[0].meshes[0].id, 2);
    let (saved, mm, _) = w.to_serde();
    assert_eq!(mm.iter().len(), 2);
    let mut names: Vec<Option<String>> = saved.iter().map(|s| s.name.clone()).collect();
    names.sort();
    assert_eq!(names, vec![Some("b".to_string()), Some("c".to_string())]);
    let (bad, _) = materials();
    let refused = vec![SceneSerde {
        id: 1,
        models: vec![ModelSerde {
            id: 1,
            meshes: vec![MeshSerde { id: 1, material: 7, geometry: 0u8 }],
            children: vec![],
            name: None,
            transform: 0u32,
        }],
        name: None,
    }];
    assert!(World::<Geo, (), u32, (), u8>::from_serde(refused, bad, textures(), 8, 16).is_none());
}

#[test]
fn shader_ids_stay_distinct() {
    let (mut mm, _) = MaterialManager::new((), 32);
    for _ in 0..5 {
        mm.add_material(Material::Pbr(PbrMaterial::from_default(None, ())));
    }
    let mut ids: Vec<u32> = mm.iter_with_ids().iter().map(|(_, m)| m.shader_id()).collect();
    ids.sort();
    assert_eq!(ids, vec![0, 1, 2, 3, 4, 5]);
}

fn numbered_textures() -> TextureManager<u8> {
    TextureManager::from_loaded(vec![
        Texture { id: None, name: None, kind: TextureKind::Albedo, data: 1 },
        Texture { id: None, name: None, kind: TextureKind::Normal, data: 2 },
        Texture { id: None, name: Some("brick".to_string()), kind: TextureKind::Other, data: 3 },
    ])
    .unwrap()
}

#[test]
fn loaded_textures_are_numbered_by_position() {
    let t = numbered_textures();
    let ids: Vec<Option<u32>> = t.iter().iter().map(|x| x.id).collect();
    assert_eq!(ids, vec![Some(0), Some(1), Some(2)]);
    assert_eq!(t.default_tex(TextureKind::Albedo).data, 1);
    assert_eq!(t.default_tex(TextureKind::Normal).data, 2);
    let k = t.key_of_id(2).unwrap();
    assert_eq!(t.get_texture(&k).data, 3);
    assert!(t.key_of_id(3).is_none());
    assert!(TextureManager::from_loaded(vec![Texture { id: None, name: None, kind: TextureKind::Albedo, data: 1u8 }]).is_none());
}

fn material_record(id: u32, texture: u32) -> MaterialSerde<u16> {
    MaterialSerde {
        id,
        name: Some(format!("m{}", id)),
        albedo_texture: texture,
        metallic_roughness_texture: 0,
        normal_texture: 1,
        occlusion_texture: 0,
        emissive_texture: 0,
        factors: 40 + id as u16,
    }
}

#[test]
fn a_material_survives_saving_and_loading() {
    let t = numbered_textures();
    let brick = t.key_of_id(2).unwrap();
    let m = material_from_serde(material_record(3, 2), &t).unwrap();
    assert!(m.dirty);
    assert_eq!(m.name, Some("m3".to_string()));
    assert_eq!(m.factors, 43);
    assert_eq!(m.albedo_texture, Some(brick));
    assert_eq!(m.normal_texture, t.key_of_id(1));
    let record = Material::Pbr(m).to_serde(&t);
    assert_eq!(record.id, 3);
    assert_eq!(record.albedo_texture, 2);
    assert_eq!(record.normal_texture, 1);
    assert_eq!(record.factors, 43);
    let none = Material::Pbr(PbrMaterial::from_default(None, 7u16)).to_serde(&t);
    assert_eq!(none.albedo_texture, 0);
    assert_eq!(none.emissive_texture, 0);
    assert!(material_from_serde(material_record(3, 9), &t).is_none());
}

#[test]
fn materials_are_read_in_order() {
    let t = numbered_textures();
    let records = vec![material_record(0, 0), material_record(1, 2), material_record(2, 1)];
    let (mm, plans) = MaterialManager::from_serde(records, &t, 32).unwrap();
    assert_eq!(plans.len(), 3);
    let all = mm.iter();
    assert_eq!(all.len(), 3);
    assert_eq!(all[0].shader_id(), 0);
    assert_eq!(*all[1].name(), Some("m1".to_string()));
    assert_eq!(all[2].shader_id(), 2);
    assert!(MaterialManager::from_serde(vec![material_record(0, 0), material_record(5, 0)], &t, 32).is_none());
    assert!(MaterialManager::from_serde(Vec::<MaterialSerde<u16>>::new(), &t, 32).is_none());
    assert!(MaterialManager::from_serde(vec![material_record(0, 0), material_record(1, 8)], &t, 32).is_none());
}
