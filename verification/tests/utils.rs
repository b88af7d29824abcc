use iascar::utils::ToHashSet;

fn sorted(mut v: Vec<i32>) -> Vec<i32> {
    v.sort();
    v
}

#[test]
fn to_hashset_drops_duplicates() {
    let v: Vec<i32> = vec![1, 2, 2, 3, 1];
    let hs = v.to_hashset();
    assert_eq!(hs.len(), 3);
    assert!(hs.contains(&1) && hs.contains(&2) && hs.contains(&3));
    assert!(!hs.contains(&4));
}

#[test]
fn union_holds_both_sides_once() {
    let a: Vec<i32> = vec![1, 2, 2];
    let b: Vec<i32> = vec![2, 3];
    assert_eq!(sorted(a.union(&b)), vec![1, 2, 3]);
}

#[test]
fn intersect_holds_common_elements_once() {
    let a: Vec<i32> = vec![1, 2, 2, 3];
    let b: Vec<i32> = vec![2, 3, 4];
    assert_eq!(sorted(a.intersect(&b)), vec![2, 3]);
    let empty: Vec<i32> = vec![5];
    assert_eq!(a.intersect(&empty), Vec::<i32>::new());
}

#[test]
fn intersect_with_hashsets() {
    let a: Vec<i32> = vec![1, 2, 3, 3];
    let other = vec![2, 3, 9].to_hashset();
    assert_eq!(sorted(a.intersect_with_hs(&other)), vec![2, 3]);
    let hs = a.to_intersection_with_hs(&other);
    assert_eq!(hs.len(), 2);
    assert!(hs.contains(&2) && hs.contains(&3) && !hs.contains(&1));
}

#[test]
fn slice_operations_agree_with_vector_ones() {
    let a: Vec<i32> = vec![1, 2];
    let s: &[i32] = &[1, 2];
    let b: Vec<i32> = vec![2, 4];
    assert_eq!(sorted(s.union(&b)), sorted(a.union(&b)));
    assert_eq!(sorted(s.intersect(&b)), sorted(a.intersect(&b)));
}
