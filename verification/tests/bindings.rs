use isotope::lights::{LightSlots, MAX_LIGHTS};
use isotope::collider::{Collider, SphereCollider};
use isotope::instancer::{BufferBindingKind, BufferUsages, InstancerBinding, PodData};

struct Bytes(Vec<u8>);

impl PodData for Bytes {
    fn as_bytes(&self) -> &[u8] {
        &self.0
    }

    fn len(&self) -> usize {
        self.0.len()
    }
}

#[test]
fn binding_kinds_and_usages() {
    let uniform = InstancerBinding::new_uniform(Bytes(vec![1, 2, 3, 4]));
    let ro = InstancerBinding::new_storage_ro(Bytes(vec![5]));
    let rw = InstancerBinding::new_storage_rw(Bytes(vec![]));

    assert_eq!(uniform.binding_type(), BufferBindingKind::Uniform);
    assert_eq!(ro.binding_type(), BufferBindingKind::Storage { read_only: true });
    assert_eq!(rw.binding_type(), BufferBindingKind::Storage { read_only: false });

    assert_eq!(uniform.buffer_usages(), BufferUsages { uniform: true, storage: false, copy_dst: true });
    assert_eq!(ro.buffer_usages(), BufferUsages { uniform: false, storage: true, copy_dst: true });
    assert_eq!(rw.buffer_usages(), BufferUsages { uniform: false, storage: true, copy_dst: true });

    assert_eq!(uniform.data().len(), 4);
    assert_eq!(ro.data().as_bytes(), &[5]);
}

#[test]
fn sphere_collider() {
    assert_eq!(SphereCollider::new(), Collider::Sphere(SphereCollider));
    assert_ne!(SphereCollider::new(), Collider::Empty);
}

#[test]
fn light_slots_take_a_prefix() {
    let mut slots = LightSlots::new(0u8);
    assert_eq!(slots.num_lights(), 0);
    assert_eq!(slots.as_slice().len(), MAX_LIGHTS);
    slots.update_lights(&[1, 2, 3]);
    assert_eq!(slots.num_lights(), 3);
    assert_eq!(&slots.as_slice()[..4], &[1, 2, 3, 0]);
    slots.update_lights(&[9]);
    assert_eq!(slots.num_lights(), 1);
    assert_eq!(&slots.as_slice()[..4], &[9, 2, 3, 0]);
    let too_many = vec![7u8; MAX_LIGHTS + 1];
    slots.update_lights(&too_many);
    assert_eq!(slots.num_lights(), 1);
    assert_eq!(&slots.as_slice()[..2], &[9, 2]);
    slots.update_lights(&vec![5u8; MAX_LIGHTS]);
    assert_eq!(slots.num_lights() as usize, MAX_LIGHTS);
}
