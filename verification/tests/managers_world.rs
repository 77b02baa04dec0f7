use engine::material::{Material, MaterialManager, MaterialWrite, PbrMaterial, TextureResource};
use engine::saved::{TextureManagerSerde, TextureSerde};
use engine::scene::light::PointLight;
use engine::scene::mesh::Mesh;
use engine::scene::model::Model;
use engine::scene::{BufferWrite, Scene};
use engine::texture::{Texture, TextureKind, TextureManager};
use engine::world::World;

fn tex(name: &str, kind: TextureKind, data: u8) -> Texture<u8> {
    Texture { id: None, name: Some(name.to_string()), kind, data }
}

fn textures() -> TextureManager<u8> {
    TextureManager::new(tex("albedo", TextureKind::Albedo, 1), tex("normal", TextureKind::Normal, 2))
}

#[test]
fn texture_defaults_by_kind() {
    let t = textures();
    assert_eq!(t.default_tex(TextureKind::Albedo).data, 1);
    assert_eq!(t.default_tex(TextureKind::Normal).data, 2);
    assert_eq!(t.default_tex(TextureKind::MetalRoughness).data, 1);
    assert_eq!(t.default_tex(TextureKind::Occlusion).data, 1);
    assert_eq!(t.default_tex(TextureKind::Emission).data, 1);
    assert_eq!(t.default_tex(TextureKind::Depth).data, 1);
    assert_eq!(t.default_tex(TextureKind::Other).data, 1);
}

#[test]
fn added_textures_are_numbered_in_order() {
    let mut t = textures();
    let k3 = t.add_texture(tex("c", TextureKind::Albedo, 3));
    let k4 = t.add_texture(tex("d", TextureKind::Emission, 4));
    assert_ne!(k3, k4);
    assert_eq!(t.get_texture(&k3).id, Some(2));
    assert_eq!(t.get_texture(&k3).data, 3);
    assert_eq!(t.get_texture(&k4).id, Some(3));
    assert_eq!(t.get_texture(&k4).name, Some("d".to_string()));
    let all: Vec<u8> = t.iter().iter().map(|x| x.data).collect();
    assert_eq!(all, vec![1, 2, 3, 4]);
}

#[test]
fn texture_keys_list_every_texture_once() {
    let mut t = textures();
    let k = t.add_texture(tex("c", TextureKind::Albedo, 3));
    let with_ids = t.iter_with_ids();
    assert_eq!(with_ids.len(), 3);
    for (key, x) in &with_ids {
        assert_eq!(t.get_texture(key).data, x.data);
    }
    assert!(with_ids.iter().any(|(key, x)| *key == k && x.data == 3));
    let mut datas: Vec<u8> = with_ids.iter().map(|(_, x)| x.data).collect();
    datas.sort();
    assert_eq!(datas, vec![1, 2, 3]);
}

#[test]
fn unwrap_default_prefers_the_named_texture() {
    let mut t = textures();
    let k = t.add_texture(tex("c", TextureKind::Normal, 3));
    assert_eq!(t.unwrap_default(&Some(k), TextureKind::Normal).data, 3);
    assert_eq!(t.unwrap_default(&None, TextureKind::Normal).data, 2);
    assert_eq!(t.unwrap_default(&None, TextureKind::Albedo).data, 1);
}

#[test]
fn default_pbr_material() {
    let m = PbrMaterial::from_default(None, ());
    assert!(m.dirty());
    assert_eq!(m.shader_id, 0);
    assert_eq!(m.name, Some("Default material".to_string()));
    assert!(m.albedo_texture.is_none() && m.normal_texture.is_none() && m.emissive_texture.is_none());
}

#[test]
fn texture_bind_group_falls_back_to_defaults() {
    let mut t = textures();
    let k = t.add_texture(tex("c", TextureKind::Albedo, 3));
    let m = PbrMaterial::from_default(Some(k), ());
    let entries = m.create_texture_bind_group(&t);
    assert_eq!(entries.len(), 10);
    let datas: Vec<u8> = entries.iter().map(|e| e.texture.data).collect();
    assert_eq!(datas, vec![3, 3, 2, 2, 1, 1, 1, 1, 1, 1]);
    for (i, e) in entries.iter().enumerate() {
        assert_eq!(e.binding, i as u32);
        let expected = if i % 2 == 0 { TextureResource::View } else { TextureResource::Sampler };
        assert_eq!(e.resource, expected);
    }
}

#[test]
fn material_accessors() {
    let mut m = Material::Pbr(PbrMaterial::from_default(None, ()));
    assert_eq!(m.shader_id(), 0);
    m.set_shader_id(7);
    assert_eq!(m.shader_id(), 7);
    assert_eq!(m.name(), &Some("Default material".to_string()));
    assert!(m.dirty());
}

#[test]
fn material_shader_ids_follow_the_buffer() {
    let (mut mm, plan) = MaterialManager::new((), 32);
    assert_eq!(plan.write_offset, 0);
    assert_eq!(mm.get_default_material().shader_id(), 0);
    assert_eq!(mm.buffer.len(), 1);
    let mut pbr = PbrMaterial::from_default(None, ());
    pbr.shader_id = 99;
    let (k, plan) = mm.add_material(Material::Pbr(pbr));
    assert_eq!(plan.write_offset, 32);
    assert_eq!(mm.get_material(k).shader_id(), 1);
    assert_eq!(mm.buffer.len(), 2);
    let ids: Vec<u32> = mm.iter().iter().map(|m| m.shader_id()).collect();
    assert_eq!(ids, vec![0, 1]);
    assert_eq!(mm.iter_with_ids().len(), 2);
}

#[test]
fn update_dirty_rewrites_each_dirty_material_once() {
    let (mut mm, _) = MaterialManager::new((), 32);
    let mut clean = PbrMaterial::from_default(None, ());
    clean.dirty = false;
    mm.add_material(Material::Pbr(clean));
    mm.add_material(Material::Pbr(PbrMaterial::from_default(None, ())));
    assert_eq!(
        mm.update_dirty(),
        vec![MaterialWrite { shader_id: 0, offset: 0 }, MaterialWrite { shader_id: 2, offset: 64 }]
    );
    assert_eq!(mm.update_dirty(), vec![]);
    assert!(mm.iter().iter().all(|m| !m.dirty()));
}

#[test]
fn saved_textures_hold_plain_values() {
    let saved = TextureManagerSerde {
        textures: vec![TextureSerde { id: 2, name: Some("c".to_string()), img_path: "textures/c.png".to_string() }],
    };
    assert_eq!(saved.textures[0].id, 2);
    assert_eq!(saved.textures[0].img_path, "textures/c.png");
}

type W = World<u32, (), (), (), u8>;

fn world() -> W {
    let (mm, _) = MaterialManager::new((), 32);
    World::new(mm, textures())
}

fn scene_with(model: Model<u32, (), ()>) -> Scene<u32, (), ()> {
    Scene::from(vec![model], None, 8, 16).0
}

#[test]
fn empty_world_has_no_active_scene() {
    let mut w = world();
    assert_eq!(w.active_scene, 0);
    assert!(w.get_active_scene().is_none());
    assert!(w.pbr_meshes().is_none());
    assert!(w.update_active_scene().is_empty());
    assert!(w.get_scene(1).is_none());
    assert!(w.scene_mut(1).is_none());
}

#[test]
fn added_scenes_get_increasing_ids() {
    let mut w = world();
    let id1 = w.add_scene(scene_with(Model::from(vec![], None, vec![], (), None)));
    assert_eq!(id1, 1);
    assert_eq!(w.active_scene, 1);
    assert_eq!(w.get_active_scene().unwrap().id, 1);
    let id2 = w.add_scene(scene_with(Model::from(vec![], None, vec![], (), None)));
    assert_eq!(id2, 2);
    assert_eq!(w.active_scene, 2);
    assert_eq!(w.get_scene(1).unwrap().id, 1);
    assert_eq!(w.get_scene(2).unwrap().id, 2);
}

#[test]
fn active_scene_updates_its_dirty_meshes() {
    let mut w = world();
    let mesh = Mesh::from(4u32);
    let mesh_id = mesh.id;
    w.add_scene(scene_with(Model::from(vec![mesh], None, vec![], (), None)));
    assert_eq!(w.pbr_meshes().unwrap().iter().map(|m| m.id).collect::<Vec<_>>(), vec![mesh_id]);
    assert_eq!(w.update_active_scene(), vec![BufferWrite::UpdateMesh { mesh_id, offset: 0 }]);
    assert_eq!(w.update_active_scene(), vec![]);
}

#[test]
fn world_remove_model_searches_all_scenes() {
    let mut w = world();
    let a = Model::from(vec![], None, vec![], (), None);
    let a_id = a.id;
    let b = Model::from(vec![], None, vec![], (), Some(PointLight::new(0, ())));
    let b_id = b.id;
    w.add_scene(scene_with(a));
    w.add_scene(scene_with(b));
    let (found, writes) = w.remove_model(b_id);
    let (sid, m) = found.unwrap();
    assert_eq!(sid, 2);
    assert_eq!(m.id, b_id);
    assert_eq!(writes.last().unwrap().scene_id, 2);
    assert!(w.get_scene(2).unwrap().models.is_empty());
    assert_eq!(w.get_scene(1).unwrap().models[0].id, a_id);
    let (none, writes) = w.remove_model(b_id);
    assert!(none.is_none());
    let mut visited: Vec<usize> = writes.iter().map(|x| x.scene_id).collect();
    visited.sort();
    assert_eq!(visited, vec![1, 2]);
}

#[test]
fn scene_mut_changes_the_stored_scene() {
    let mut w = world();
    w.add_scene(scene_with(Model::from(vec![], None, vec![], (), None)));
    let extra = Model::from(vec![], None, vec![], (), None);
    let extra_id = extra.id;
    w.scene_mut(1).unwrap().add_model(extra, None);
    let s = w.get_scene(1).unwrap();
    assert_eq!(s.models.len(), 2);
    assert_eq!(s.models[1].id, extra_id);
}

#[test]
fn scene_ids_list_every_scene_once() {
    let mut w = world();
    assert!(w.scene_ids().is_empty());
    w.add_scene(scene_with(Model::from(vec![], None, vec![], (), None)));
    w.add_scene(scene_with(Model::from(vec![], None, vec![], (), None)));
    w.add_scene(scene_with(Model::from(vec![], None, vec![], (), None)));
    let mut ids = w.scene_ids();
    ids.sort();
    assert_eq!(ids, vec![1, 2, 3]);
}
