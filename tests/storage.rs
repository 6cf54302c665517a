use gpu_storage::{GPUDenseVecStorage, GPUStorage};
use hibitset::BitSet;

fn filled(pairs: &[(u32, i64)]) -> GPUDenseVecStorage<i64> {
    let mut s = GPUDenseVecStorage::default();
    for &(id, v) in pairs {
        s.insert(id, v);
    }
    s
}

#[test]
fn default_is_empty() {
    let s: GPUDenseVecStorage<i64> = GPUDenseVecStorage::default();
    assert!(s.as_slice().is_empty());
    assert!(s.gpu_data().is_empty());
    assert!(s.gpu_index().is_empty());
}

#[test]
fn get_after_insert() {
    let mut s = GPUDenseVecStorage::default();
    s.insert(3, 42i64);
    assert_eq!(*s.get(3), 42);
    s.insert(0, -7);
    assert_eq!(*s.get(0), -7);
    assert_eq!(*s.get(3), 42);
}

#[test]
fn swap_remove_keeps_other_values() {
    let mut s = filled(&[(1, 100), (2, 200), (3, 300)]);
    assert_eq!(s.remove(2), 200);
    assert_eq!(*s.get(1), 100);
    assert_eq!(*s.get(3), 300);
    assert_eq!(s.as_slice().len(), 2);
}

#[test]
fn tables_agree_after_inserts_and_removes() {
    let mut s = filled(&[(4, 40), (9, 90), (1, 10), (6, 60), (0, 0)]);
    assert_eq!(s.remove(9), 90);
    s.insert(12, 120);
    assert_eq!(s.remove(4), 40);
    assert_eq!(s.remove(0), 0);
    s.insert(9, 91);
    let live = [(1u32, 10i64), (6, 60), (12, 120), (9, 91)];
    assert_eq!(s.gpu_data().len(), live.len());
    for &(id, v) in &live {
        let slot = s.gpu_index()[id as usize].unwrap() as usize;
        assert_eq!(s.gpu_data()[slot], v);
        assert_eq!(*s.get(id), v);
    }
}

#[test]
fn remove_from_last_slot() {
    let mut s = filled(&[(7, 1), (3, 2), (5, 3)]);
    assert_eq!(s.remove(5), 3);
    assert_eq!(s.as_slice(), &[1, 2]);
    assert_eq!(s.gpu_index()[7], Some(0));
    assert_eq!(s.gpu_index()[3], Some(1));
    assert_eq!(*s.get(7), 1);
    assert_eq!(*s.get(3), 2);
}

#[test]
fn remove_only_value() {
    let mut s = filled(&[(2, 5)]);
    assert_eq!(s.remove(2), 5);
    assert!(s.as_slice().is_empty());
    s.insert(2, 6);
    assert_eq!(*s.get(2), 6);
}

#[test]
fn clean_changes_nothing() {
    let mut s = filled(&[(1, 11), (2, 22), (3, 33), (4, 44)]);
    assert_eq!(s.remove(1), 11);
    let mut has = BitSet::new();
    has.add(2);
    has.add(4);
    let before: Vec<i64> = s.as_slice().to_vec();
    s.clean(&has);
    assert_eq!(s.as_slice(), &before[..]);
    assert_eq!(*s.get(2), 22);
    assert_eq!(*s.get(3), 33);
    assert_eq!(*s.get(4), 44);
    s.clean(&BitSet::new());
    assert_eq!(s.as_slice(), &before[..]);
}

#[test]
fn slice_follows_insertion_not_ids() {
    let mut s = filled(&[(5, 10), (2, 20), (8, 30)]);
    assert_eq!(s.as_slice(), &[10, 20, 30]);
    assert_eq!(s.remove(2), 20);
    assert_eq!(s.as_slice(), &[10, 30]);
    assert_eq!(*s.get(8), 30);
    assert_eq!(*s.get(5), 10);
}

#[test]
fn get_mut_changes_in_place() {
    let mut s = filled(&[(3, 1), (1, 2)]);
    *s.get_mut(3) += 10;
    assert_eq!(*s.get(3), 11);
    assert_eq!(*s.get(1), 2);
    assert_eq!(s.as_slice(), &[11, 2]);
}

#[test]
fn as_mut_slice_writes_through() {
    let mut s = filled(&[(6, 1), (0, 2)]);
    for v in s.as_mut_slice().iter_mut() {
        *v *= 3;
    }
    assert_eq!(*s.get(6), 3);
    assert_eq!(*s.get(0), 6);
}

#[test]
fn index_table_grows_to_large_id() {
    let mut s = filled(&[(1000, 5)]);
    assert_eq!(s.gpu_index().len(), 1001);
    assert_eq!(s.gpu_index()[1000], Some(0));
    assert_eq!(s.gpu_index()[999], None);
    s.insert(10, 6);
    assert_eq!(s.gpu_index().len(), 1001);
    assert_eq!(*s.get(10), 6);
    assert_eq!(*s.get(1000), 5);
}

#[test]
fn large_sparse_id_round_trips() {
    let mut s = GPUDenseVecStorage::<u8>::default();
    s.insert(70_000, 9);
    assert_eq!(*s.get(70_000), 9);
    assert_eq!(s.remove(70_000), 9);
    assert!(s.as_slice().is_empty());
}

#[test]
fn removed_entry_is_left_in_index_table() {
    let mut s = filled(&[(1, 10), (2, 20), (3, 30)]);
    assert_eq!(s.remove(1), 10);
    assert_eq!(s.gpu_index()[3], Some(0));
    assert_eq!(s.gpu_index()[1], Some(0));
    assert_eq!(s.as_slice(), &[30, 20]);
    s.insert(1, 11);
    assert_eq!(s.gpu_index()[1], Some(2));
    assert_eq!(*s.get(1), 11);
}
