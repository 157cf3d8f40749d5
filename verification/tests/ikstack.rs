use iksemel::{IksError, IksStack};

#[test]
fn test_stack_alloc() {
    let mut stack = IksStack::new(128, 256);

    let ptr1 = stack.allocate(64, false).unwrap();
    assert!(stack.contains(ptr1));

    let s = "test string";
    let ptr2 = stack.strdup(s, true).unwrap();
    assert!(stack.contains(ptr2));

    assert_eq!(stack.text(ptr2), s.as_bytes());
}

#[test]
fn test_strcat() {
    let mut stack = IksStack::new(128, 256);

    let s1 = "Hello";
    let s2 = " World";
    let ptr1 = stack.strdup(s1, true).unwrap();
    let ptr2 = stack.strcat(Some(ptr1), s2).unwrap();

    assert_eq!(stack.text(ptr2), (s1.to_string() + s2).as_bytes());
}

#[test]
fn strcat_without_a_region_stores_the_text() {
    let mut stack = IksStack::new(128, 256);
    let region = stack.strcat(None, "alone").unwrap();
    assert_eq!(stack.text(region), b"alone");
    assert_eq!(region.size, 8);
}

#[test]
fn strcat_leaves_the_old_region_as_it_is() {
    let mut stack = IksStack::new(64, 64);
    let first = stack.strdup("abc", true).unwrap();
    let second = stack.strcat(Some(first), "def").unwrap();
    assert_ne!(first, second);
    assert_eq!(stack.text(first), b"abc");
    assert_eq!(stack.text(second), b"abcdef");
}

#[test]
fn regions_are_aligned_and_first_fit() {
    let mut stack = IksStack::new(64, 64);
    let a = stack.allocate(1, false).unwrap();
    assert_eq!((a.chunk, a.offset, a.size), (0, 0, 8));
    let b = stack.allocate(9, false).unwrap();
    assert_eq!((b.chunk, b.offset, b.size), (0, 8, 16));
    let c = stack.allocate(0, true).unwrap();
    assert_eq!((c.chunk, c.offset, c.size), (1, 0, 8));
    let d = stack.allocate(40, false).unwrap();
    assert_eq!((d.chunk, d.offset, d.size), (0, 24, 40));
    let e = stack.allocate(8, false).unwrap();
    assert_eq!((e.chunk, e.offset, e.size), (2, 0, 8));
    let f = stack.allocate(56, true).unwrap();
    assert_eq!((f.chunk, f.offset, f.size), (1, 8, 56));
    assert_eq!(stack.chunk_count(), 3);
}

#[test]
fn a_large_request_gets_a_chunk_of_its_own_size() {
    let mut stack = IksStack::new(64, 64);
    let big = stack.allocate(1000, true).unwrap();
    assert_eq!((big.chunk, big.offset, big.size), (0, 0, 1000));
    assert_eq!(stack.stats(), (1000, 1000));
}

#[test]
fn chunk_sizes_have_a_floor_and_are_aligned() {
    let mut stack = IksStack::new(1, 100);
    stack.allocate(8, false).unwrap();
    assert_eq!(stack.stats(), (64, 8));
    stack.allocate(8, true).unwrap();
    assert_eq!(stack.stats(), (64 + 104, 16));
}

#[test]
fn stats_tell_reserved_and_used() {
    let mut stack = IksStack::new(128, 256);
    assert_eq!(stack.stats(), (0, 0));
    stack.allocate(64, false).unwrap();
    assert_eq!(stack.stats(), (128, 64));
    stack.strdup("test string", true).unwrap();
    assert_eq!(stack.stats(), (128 + 256, 64 + 16));
}

#[test]
fn the_ceiling_on_chunks_holds() {
    let mut stack = IksStack::with_max_chunks(64, 64, 3);
    for _ in 0..3 {
        stack.allocate(64, true).unwrap();
    }
    assert_eq!(stack.chunk_count(), 3);
    let refused = stack.allocate(64, true);
    assert!(matches!(refused, Err(IksError::NoMem)));
    assert_eq!(stack.chunk_count(), 3);
    assert!(matches!(stack.strdup("text", false), Err(IksError::NoMem)));
    assert_eq!(stack.stats(), (192, 192));
}

#[test]
fn the_default_ceiling_is_1024_chunks() {
    let mut stack = IksStack::new(64, 64);
    for _ in 0..1024 {
        stack.allocate(64, false).unwrap();
    }
    assert!(matches!(stack.allocate(1, false), Err(IksError::NoMem)));
    assert_eq!(stack.chunk_count(), 1024);
}

#[test]
fn a_size_that_cannot_be_aligned_is_refused() {
    let mut stack = IksStack::new(64, 64);
    assert!(matches!(stack.allocate(usize::MAX, true), Err(IksError::NoMem)));
    assert!(matches!(stack.allocate(usize::MAX - 6, true), Err(IksError::NoMem)));
    assert_eq!(stack.chunk_count(), 0);
}

#[test]
fn text_ends_at_the_first_zero_byte() {
    let mut stack = IksStack::new(64, 64);
    let region = stack.strdup("ab\0cd", true).unwrap();
    assert_eq!(stack.text(region), b"ab");
    let fresh = stack.allocate(16, true).unwrap();
    assert_eq!(stack.text(fresh), b"");
}

#[test]
fn a_region_of_another_allocator_is_not_contained() {
    let mut one = IksStack::new(64, 64);
    let other = IksStack::new(64, 64);
    let region = one.allocate(8, true).unwrap();
    assert!(one.contains(region));
    assert!(!other.contains(region));
}

#[test]
fn the_ceiling_holds_through_every_kind_of_request() {
    let mut stack = IksStack::with_max_chunks(64, 64, 4);
    let mut last = None;
    for round in 0..200usize {
        let made = match round % 3 {
            0 => stack.allocate(round, round % 2 == 0),
            1 => stack.strdup("some text to keep", round % 2 == 0),
            _ => stack.strcat(last, " and more"),
        };
        if let Ok(region) = made {
            assert!(stack.contains(region));
            last = Some(region);
        } else {
            assert!(matches!(made, Err(IksError::NoMem)));
        }
        assert!(stack.chunk_count() <= 4);
    }
    assert_eq!(stack.chunk_count(), 4);
    let (reserved, used) = stack.stats();
    assert!(used <= reserved);
}
