use engine::buffers::{DynamicBufferArray, DynamicBufferMap, PushPlan, Resize};
use engine::scene::light::PointLight;
use engine::scene::mesh::Mesh;
use engine::scene::model::{forest_has, remove_model_deep, DeepIter, Model};
use engine::scene::{BufferWrite, Scene};
use engine::Dirtyable;

type M = Model<u32, (), ()>;

fn model(meshes: Vec<Mesh<u32>>, children: Vec<M>, light: Option<PointLight<()>>) -> M {
    Model::from(meshes, None, children, (), light)
}

#[test]
fn buffer_array_starts_empty() {
    let a = DynamicBufferArray::new(Some("b".to_string()), 4);
    assert_eq!(a.len(), 0);
    assert_eq!(a.size_in_bytes(), 64);
}

#[test]
fn buffer_array_push_writes_after_old_elements() {
    let mut a = DynamicBufferArray::new(None, 4);
    assert_eq!(a.push(1), PushPlan { resize: None, write_offset: 0 });
    assert_eq!(a.push(2), PushPlan { resize: None, write_offset: 4 });
    assert_eq!(a.len(), 3);
    assert_eq!(a.update(2), 8);
}

#[test]
fn buffer_array_doubles_when_full() {
    let mut a = DynamicBufferArray::new(None, 4);
    for i in 0..16u64 {
        assert_eq!(a.push(1), PushPlan { resize: None, write_offset: 4 * i });
    }
    let plan = a.push(1);
    assert_eq!(
        plan,
        PushPlan { resize: Some(Resize { new_capacity: 32, new_size: 128, copy_size: 64 }), write_offset: 64 }
    );
    assert_eq!(a.size_in_bytes(), 128);
    assert_eq!(a.len(), 17);
}

#[test]
fn buffer_map_remembers_last_index_per_key() {
    let mut m = DynamicBufferMap::new(None, 8);
    m.push(7, 1);
    m.push(9, 2);
    assert_eq!(m.get(&7), Some(&0));
    assert_eq!(m.get(&9), Some(&1));
    assert_eq!(m.get(&3), None);
    assert_eq!(m.update(&9), 8);
    assert_eq!(m.len(), 3);
    m.push(7, 1);
    assert_eq!(m.get(&7), Some(&3));
}

#[test]
fn new_meshes_and_models_get_random_ids() {
    let mut ids = Vec::new();
    for _ in 0..20 {
        let mesh = Mesh::from(0u32);
        assert!(mesh.id < 0x8000_0000);
        assert!(mesh.dirty());
        ids.push(mesh.id);
        let m = model(vec![], vec![], None);
        assert!(m.id < 0x8000_0000);
    }
    assert!(ids.iter().any(|&i| i != ids[0]));
}

#[test]
fn dirtyable_set_and_read() {
    let mut mesh = Mesh::from(5u32);
    mesh.set_dirty(false);
    assert!(!mesh.dirty());
    let mut light = PointLight::new(2, ());
    assert!(light.dirty());
    assert_eq!(light.index, 2);
    light.set_dirty(false);
    assert!(!light.dirty());
}

#[test]
fn forest_search_and_deep_removal() {
    let leaf = model(vec![], vec![], None);
    let leaf_id = leaf.id;
    let mid = model(vec![], vec![leaf], None);
    let mid_id = mid.id;
    let root = model(vec![], vec![mid], None);
    let other = model(vec![], vec![], None);
    let mut forest = vec![root, other];
    assert!(forest_has(&forest, leaf_id));
    assert!(!forest_has(&forest, 0x9000_0000));
    let order: Vec<u32> = forest.iter_deep().iter().map(|m| m.id).collect();
    assert_eq!(order.len(), 4);
    assert_eq!(order[0], forest[0].id);
    assert_eq!(order[1], forest[1].id);
    assert_eq!(order[2], mid_id);
    assert_eq!(order[3], leaf_id);
    let removed = remove_model_deep(&mut forest, leaf_id).unwrap();
    assert_eq!(removed.id, leaf_id);
    assert!(!forest_has(&forest, leaf_id));
    assert!(forest_has(&forest, mid_id));
    assert!(remove_model_deep(&mut forest, leaf_id).is_none());
}

fn sample_scene() -> (Scene<u32, (), ()>, Vec<BufferWrite>, u32, u32) {
    let mesh = Mesh::from(1u32);
    let mesh_id = mesh.id;
    let lit = model(vec![mesh], vec![], Some(PointLight::new(0, ())));
    let model_id = lit.id;
    let (scene, ops) = Scene::from(vec![lit], Some("s".to_string()), 8, 16);
    (scene, ops, mesh_id, model_id)
}

#[test]
fn scene_from_pushes_meshes_then_lights() {
    let (scene, ops, mesh_id, model_id) = sample_scene();
    assert!(scene.id < 0x8000_0000);
    assert_eq!(scene.models.len(), 1);
    assert_eq!(scene.name, Some("s".to_string()));
    assert_eq!(
        ops,
        vec![
            BufferWrite::PushMesh { mesh_id, plan: PushPlan { resize: None, write_offset: 0 } },
            BufferWrite::PushLight { model_id, plan: PushPlan { resize: None, write_offset: 0 } },
        ]
    );
    assert_eq!(scene.mesh_buffer.get(&mesh_id), Some(&0));
    assert_eq!(scene.light_buffer.len(), 1);
    assert_eq!(scene.iter_meshes().len(), 1);
}

#[test]
fn scene_updates_dirty_meshes_and_lights_once() {
    let (mut scene, _, mesh_id, model_id) = sample_scene();
    assert_eq!(scene.update_meshes(), vec![BufferWrite::UpdateMesh { mesh_id, offset: 0 }]);
    assert_eq!(scene.update_meshes(), vec![]);
    assert_eq!(scene.update_lights(), vec![BufferWrite::UpdateLight { model_id, offset: 0 }]);
    assert_eq!(scene.update_lights(), vec![]);
}

#[test]
fn scene_add_model_under_parent() {
    let (mut scene, _, _, model_id) = sample_scene();
    scene.update_meshes();
    scene.update_lights();
    let mesh = Mesh::from(2u32);
    let new_mesh_id = mesh.id;
    let child = model(vec![mesh], vec![], None);
    let child_id = child.id;
    let ops = scene.add_model(child, Some(model_id));
    assert_eq!(ops, vec![BufferWrite::PushMesh { mesh_id: new_mesh_id, plan: PushPlan { resize: None, write_offset: 8 } }]);
    assert_eq!(scene.models.len(), 1);
    assert_eq!(scene.models[0].children.len(), 1);
    assert_eq!(scene.models[0].children[0].id, child_id);
    assert_eq!(scene.mesh_buffer.get(&new_mesh_id), Some(&1));
    assert_eq!(scene.iter_models_deep().len(), 2);
}

#[test]
fn scene_add_model_without_parent_is_a_root() {
    let (mut scene, _, _, _) = sample_scene();
    let ops = scene.add_model(model(vec![], vec![], Some(PointLight::new(1, ()))), None);
    assert_eq!(scene.models.len(), 2);
    assert_eq!(scene.light_buffer.len(), 2);
    assert!(ops.iter().any(|op| matches!(op, BufferWrite::PushLight { plan: PushPlan { write_offset: 16, .. }, .. })));
}

#[test]
fn scene_remove_model_takes_it_out() {
    let (mut scene, _, mesh_id, model_id) = sample_scene();
    let (removed, ops) = scene.remove_model(model_id);
    assert_eq!(removed.unwrap().id, model_id);
    assert!(scene.models.is_empty());
    assert!(ops.is_empty());
    assert_eq!(scene.mesh_buffer.get(&mesh_id), Some(&0));
    let (none, ops) = scene.remove_model(model_id);
    assert!(none.is_none());
    assert!(ops.is_empty());
}

#[test]
fn scene_remove_missing_model_still_refreshes() {
    let (mut scene, _, mesh_id, model_id) = sample_scene();
    let (removed, ops) = scene.remove_model(0x9000_0000);
    assert!(removed.is_none());
    assert_eq!(
        ops,
        vec![BufferWrite::UpdateMesh { mesh_id, offset: 0 }, BufferWrite::UpdateLight { model_id, offset: 0 }]
    );
}

#[test]
fn scene_join_appends_roots() {
    let (mut a, _, _, _) = sample_scene();
    let (b, _, b_mesh, b_model) = sample_scene();
    let ops = a.join(b);
    assert_eq!(a.models.len(), 2);
    assert_eq!(a.models[1].id, b_model);
    assert_eq!(a.mesh_buffer.get(&b_mesh), Some(&1));
    assert_eq!(a.light_buffer.len(), 2);
    assert!(ops.contains(&BufferWrite::PushMesh { mesh_id: b_mesh, plan: PushPlan { resize: None, write_offset: 8 } }));
}

#[test]
fn lights_fit_only_within_the_light_buffer() {
    let (scene, _, _, _) = sample_scene();
    assert!(scene.lights_fit());
    let far = model(vec![], vec![], Some(PointLight::new(5, ())));
    let (far_scene, _) = Scene::from(vec![far], None, 8, 16);
    assert_eq!(far_scene.light_buffer.len(), 1);
    assert!(!far_scene.lights_fit());
}

#[test]
fn find_mesh_and_light_search_all_models() {
    let deep_mesh = Mesh::from(7u32);
    let deep_mesh_id = deep_mesh.id;
    let child = model(vec![deep_mesh], vec![], Some(PointLight::new(0, ())));
    let child_id = child.id;
    let root = model(vec![Mesh::from(1u32)], vec![child], None);
    let root_id = root.id;
    let (scene, _) = Scene::from(vec![root], None, 8, 16);
    assert_eq!(scene.find_mesh(deep_mesh_id).unwrap().data, 7);
    assert!(scene.find_mesh(0x9000_0000).is_none());
    assert_eq!(scene.find_light(child_id).unwrap().index, 0);
    assert!(scene.find_light(root_id).is_none());
    assert!(scene.find_light(0x9000_0000).is_none());
}

#[test]
fn buffer_array_grows_until_a_large_push_fits() {
    let mut a = DynamicBufferArray::new(None, 4);
    let plan = a.push(40);
    assert_eq!(
        plan,
        PushPlan { resize: Some(Resize { new_capacity: 64, new_size: 256, copy_size: 0 }), write_offset: 0 }
    );
    assert_eq!(a.len(), 40);
    assert_eq!(a.size_in_bytes(), 256);
    assert_eq!(a.push(24), PushPlan { resize: None, write_offset: 160 });
    assert_eq!(a.push(1).resize, Some(Resize { new_capacity: 128, new_size: 512, copy_size: 256 }));
}

#[test]
fn buffer_array_length_is_the_sum_of_its_pushes() {
    let mut a = DynamicBufferArray::new(None, 4);
    assert_eq!(a.len(), 0);
    let mut total = 0u64;
    for n in [3u64, 0, 20, 1, 7] {
        a.push(n);
        total += n;
        assert_eq!(a.len(), total);
        a.update(0);
        assert_eq!(a.len(), total);
    }
    assert_eq!(a.len(), 31);
}
