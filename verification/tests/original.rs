use paged_small_vec::{PagedSmallVec, DEFAULT_CHUNK};

#[test]
fn test_paged_small_vec() {
    let mut vec = PagedSmallVec::new();

    for i in 1..20 {
        vec.push(i)
    }

    assert_eq!(Some(5), vec.remove(4));
    assert_eq!(Some(&6), vec.get(4))
}

#[test]
fn test_for_each_chunk_preserves_order() {
    let mut vec = PagedSmallVec::<u32, 4, 2, DEFAULT_CHUNK>::with_layout();
    for i in 0..10 {
        vec.push(i);
    }

    let mut seen = Vec::new();
    vec.for_each_chunk(|chunk| seen.extend_from_slice(chunk));

    assert_eq!(seen, (0..10).collect::<Vec<_>>());
}

#[test]
fn test_chunks_preserve_order() {
    let mut vec = PagedSmallVec::<u32, 4, 2, DEFAULT_CHUNK>::with_layout();
    vec.extend_from_slice(&(0..10).collect::<Vec<_>>());

    let mut seen = Vec::new();
    let mut chunks = vec.chunks();
    while let Some(chunk) = chunks.next() {
        seen.extend(chunk.iter().copied());
    }

    assert_eq!(seen, (0..10).collect::<Vec<_>>());
}

#[test]
fn test_extend_from_slice_appends_in_order() {
    let mut vec = PagedSmallVec::<u32, 4, 2, DEFAULT_CHUNK>::with_layout();
    vec.extend_from_slice(&[1, 2, 3, 4, 5, 6, 7]);

    let mut seen = Vec::new();
    let mut chunks = vec.chunks();
    while let Some(chunk) = chunks.next() {
        seen.extend(chunk.iter().copied());
    }

    assert_eq!(seen, vec![1, 2, 3, 4, 5, 6, 7]);
}
