use paged_small_vec::{PagedSmallVec, DEFAULT_CHUNK, DEFAULT_DIRECT, DEFAULT_INLINE};

type Small = PagedSmallVec<u32, 2, 3, 4>;

fn filled(n: u32) -> Small {
    let mut v = Small::with_layout();
    for i in 0..n {
        v.push(i);
    }
    v
}

fn contents<const I: usize, const D: usize, const C: usize>(
    v: &PagedSmallVec<u32, I, D, C>,
) -> Vec<u32> {
    let mut out = Vec::new();
    for i in 0..v.len() {
        out.push(*v.get(i).unwrap());
    }
    out
}

fn pieces<const I: usize, const D: usize, const C: usize>(
    v: &PagedSmallVec<u32, I, D, C>,
) -> Vec<Vec<u32>> {
    let mut out = Vec::new();
    let mut it = v.chunks();
    while let Some(piece) = it.next() {
        out.push(piece.to_vec());
    }
    out
}

#[test]
fn new_vector_is_empty() {
    let mut v: PagedSmallVec<u32, DEFAULT_INLINE, DEFAULT_DIRECT, DEFAULT_CHUNK> =
        PagedSmallVec::new();
    assert_eq!(v.len(), 0);
    assert_eq!(v.get(0), None);
    assert_eq!(v.pop(), None);
    assert_eq!(v.remove(0), None);
    assert_eq!(v.swap_remove(0), None);
    assert!(pieces(&v).is_empty());
}

#[test]
fn push_fills_inline_then_every_chunk() {
    let v = filled(14);
    assert_eq!(v.len(), 14);
    assert_eq!(contents(&v), (0..14).collect::<Vec<_>>());
    assert_eq!(v.get(14), None);
    assert_eq!(*v.get_unchecked(13), 13);
    assert_eq!(*v.get_unchecked(2), 2);
}

#[test]
fn pop_returns_elements_in_reverse_order() {
    let mut v = filled(14);
    for i in (0..14).rev() {
        assert_eq!(v.pop(), Some(i));
        assert_eq!(v.len(), i as usize);
    }
    assert_eq!(v.pop(), None);
}

#[test]
fn pop_then_push_reuses_allocated_chunks() {
    let mut v = filled(11);
    for _ in 0..8 {
        v.pop();
    }
    assert_eq!(contents(&v), vec![0, 1, 2]);
    for i in 100..111 {
        v.push(i);
    }
    let mut expected = vec![0, 1, 2];
    expected.extend(100..111);
    assert_eq!(contents(&v), expected);
}

#[test]
fn remove_shifts_later_elements_across_chunks() {
    let mut v = filled(14);
    assert_eq!(v.remove(1), Some(1));
    let mut expected: Vec<u32> = (0..14).collect();
    expected.remove(1);
    assert_eq!(contents(&v), expected);
    assert_eq!(v.remove(12), Some(13));
    expected.remove(12);
    assert_eq!(contents(&v), expected);
    v.push(50);
    v.push(51);
    expected.push(50);
    expected.push(51);
    assert_eq!(contents(&v), expected);
}

#[test]
fn remove_out_of_bounds_changes_nothing() {
    let mut v = filled(5);
    assert_eq!(v.remove(5), None);
    assert_eq!(v.swap_remove(7), None);
    assert_eq!(contents(&v), vec![0, 1, 2, 3, 4]);
}

#[test]
fn swap_remove_moves_the_last_element_into_the_gap() {
    let mut v = filled(10);
    assert_eq!(v.swap_remove(3), Some(3));
    assert_eq!(contents(&v), vec![0, 1, 2, 9, 4, 5, 6, 7, 8]);
    assert_eq!(v.swap_remove(0), Some(0));
    assert_eq!(contents(&v), vec![8, 1, 2, 9, 4, 5, 6, 7]);
    assert_eq!(v.swap_remove(7), Some(7));
    assert_eq!(contents(&v), vec![8, 1, 2, 9, 4, 5, 6]);
}

#[test]
fn chunks_follow_the_layout() {
    let v = filled(9);
    assert_eq!(
        pieces(&v),
        vec![vec![0, 1], vec![2, 3, 4, 5], vec![6, 7, 8]]
    );
    let short = filled(1);
    assert_eq!(pieces(&short), vec![vec![0]]);
    let exact = filled(6);
    assert_eq!(pieces(&exact), vec![vec![0, 1], vec![2, 3, 4, 5]]);
}

#[test]
fn chunks_without_inline_region() {
    let mut v = PagedSmallVec::<u32, 0, 3, 2>::with_layout();
    v.extend_from_slice(&[7, 8, 9]);
    assert_eq!(pieces(&v), vec![vec![7, 8], vec![9]]);
    assert_eq!(v.pop(), Some(9));
    assert_eq!(pieces(&v), vec![vec![7, 8]]);
}

#[test]
fn extend_from_slice_after_pushes() {
    let mut v = filled(1);
    v.extend_from_slice(&[10, 11, 12, 13, 14, 15, 16]);
    assert_eq!(contents(&v), vec![0, 10, 11, 12, 13, 14, 15, 16]);
    v.extend_from_slice(&[]);
    assert_eq!(v.len(), 8);
}

#[test]
fn extend_from_slice_clones_owned_values() {
    let mut v = PagedSmallVec::<String, 1, 2, 2>::with_layout();
    let words = vec!["a".to_string(), "bb".to_string(), "ccc".to_string()];
    v.extend_from_slice(&words);
    assert_eq!(v.len(), 3);
    assert_eq!(v.get(2).map(|s| s.as_str()), Some("ccc"));
    assert_eq!(v.remove(0), Some("a".to_string()));
    assert_eq!(v.pop(), Some("ccc".to_string()));
    assert_eq!(v.get(0).map(|s| s.as_str()), Some("bb"));
}

#[test]
fn for_each_ref_visits_every_element_in_order() {
    let v = filled(11);
    let mut seen = Vec::new();
    v.for_each_ref(|x| seen.push(*x));
    assert_eq!(seen, (0..11).collect::<Vec<_>>());
}

#[test]
fn for_each_chunk_visits_each_region() {
    let v = filled(7);
    let mut sizes = Vec::new();
    v.for_each_chunk(|piece| sizes.push(piece.len()));
    assert_eq!(sizes, vec![2, 4, 1]);
}

#[test]
fn pop_undoes_push_on_concrete_values() {
    let mut v = filled(6);
    let before = contents(&v);
    v.push(99);
    assert_eq!(v.pop(), Some(99));
    assert_eq!(contents(&v), before);
}

#[test]
fn remove_and_swap_remove_leave_the_same_elements() {
    let mut a = filled(12);
    let mut b = filled(12);
    assert_eq!(a.remove(4), b.swap_remove(4));
    let mut left = contents(&a);
    let mut right = contents(&b);
    left.sort();
    right.sort();
    assert_eq!(left, right);
}

#[test]
fn chunks_concatenate_to_the_contents() {
    for n in 0..15 {
        let v = filled(n);
        let flat: Vec<u32> = pieces(&v).into_iter().flatten().collect();
        assert_eq!(flat, contents(&v));
        assert!(pieces(&v).iter().all(|p| !p.is_empty()));
    }
}

#[test]
fn extend_from_slice_matches_pushing_clones() {
    let values: Vec<String> = (0..9).map(|i| format!("v{i}")).collect();
    let mut a = PagedSmallVec::<String, 2, 3, 4>::with_layout();
    let mut b = PagedSmallVec::<String, 2, 3, 4>::with_layout();
    a.push("start".to_string());
    b.push("start".to_string());
    a.extend_from_slice(&values);
    for x in &values {
        b.push(x.clone());
    }
    assert_eq!(a.len(), b.len());
    for i in 0..a.len() {
        assert_eq!(a.get(i), b.get(i));
    }
}
