use raytracer::geometry::Vec3;
use raytracer::objects::HitableList;

#[test]
fn hitable_list_push_appends() {
    let mut list: HitableList<u32> = HitableList::new();
    assert_eq!(list.len(), 0);
    list.push(3);
    list.push(1);
    list.push(3);
    assert_eq!(list.len(), 3);
    assert_eq!(list.list, vec![3, 1, 3]);
}

#[test]
fn vec3_new_keeps_coordinates() {
    let v = Vec3::new(1, -2, 3);
    assert_eq!((v.x, v.y, v.z), (1, -2, 3));
}
