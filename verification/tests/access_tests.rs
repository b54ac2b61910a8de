use ecs_core::access::AccessDescriptor;

fn d(r: &[u64], w: &[u64], rr: &[u64], rw: &[u64]) -> AccessDescriptor {
    AccessDescriptor::new(r.to_vec(), w.to_vec(), rr.to_vec(), rw.to_vec())
}

#[test]
fn readers_of_one_type_do_not_conflict() {
    assert!(!d(&[1, 2], &[], &[7], &[]).conflicts_with(&d(&[2, 1], &[], &[7], &[])));
}

#[test]
fn a_writer_conflicts_with_readers_and_writers() {
    let writer = d(&[], &[1], &[], &[]);
    assert!(writer.conflicts_with(&d(&[1], &[], &[], &[])));
    assert!(d(&[1], &[], &[], &[]).conflicts_with(&writer));
    assert!(writer.conflicts_with(&d(&[], &[1], &[], &[])));
    assert!(!writer.conflicts_with(&d(&[2], &[3], &[], &[])));
}

#[test]
fn resources_conflict_like_components_but_apart_from_them() {
    let a = d(&[], &[], &[], &[5]);
    assert!(a.conflicts_with(&d(&[], &[], &[5], &[])));
    assert!(a.conflicts_with(&d(&[], &[], &[], &[5])));
    assert!(!a.conflicts_with(&d(&[5], &[5], &[], &[])));
}

#[test]
fn ambiguity_names_the_first_type_read_and_written() {
    assert_eq!(d(&[1, 2, 3], &[3, 2], &[], &[]).ambiguity(), Some(2));
    assert_eq!(d(&[1], &[2], &[4, 6], &[6]).ambiguity(), Some(6));
    assert_eq!(d(&[1], &[2], &[3], &[4]).ambiguity(), None);
}

#[test]
fn what_may_be_read_and_written() {
    let a = d(&[1], &[2], &[3], &[4]);
    assert!(a.may_read(1) && a.may_read(2) && !a.may_read(3));
    assert!(a.may_write(2) && !a.may_write(1));
    assert!(a.may_read_resource(3) && a.may_read_resource(4) && !a.may_read_resource(1));
    assert!(a.may_write_resource(4) && !a.may_write_resource(3));
    let b = a.duplicate();
    assert_eq!(b.reads, vec![1]);
    assert_eq!(b.resource_writes, vec![4]);
}
