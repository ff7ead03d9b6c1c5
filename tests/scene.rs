use rayrs::scene::Scene;

#[test]
fn scene_keeps_insertion_order() {
    let mut scene: Scene<&str> = Scene::new();
    assert!(scene.objects.is_empty());
    assert_eq!(scene.add("ground"), 0);
    assert_eq!(scene.add("center"), 1);
    assert_eq!(scene.add("left"), 2);
    assert_eq!(scene.objects, vec!["ground", "center", "left"]);
}

#[test]
fn scene_hit_is_nearest_over_objects() {
    let mut scene: Scene<u64> = Scene::new();
    for d in [7u64, 3, 9, 3, 5] {
        scene.add(d);
    }
    let objects = scene.objects.clone();
    let r = scene.hit(&|i: usize| if objects[i] == 9 { None } else { Some(objects[i]) });
    assert_eq!(r, Some((1, 3)));
    let none = scene.hit(&|_: usize| None);
    assert_eq!(none, None);
    let empty: Scene<u64> = Scene::new();
    assert_eq!(empty.hit(&|_: usize| Some(0)), None);
}
