use javy_core::memory::{allocation_len, realloc_contents, realloc_request, ReallocError, ReallocRequest};

#[test]
fn zero_is_a_valid_allocation_len() {
    assert_eq!(allocation_len(0), Some(0));
    assert_eq!(allocation_len(16), Some(16));
}

#[test]
fn negative_allocation_is_refused() {
    assert_eq!(allocation_len(-1), None);
    assert_eq!(allocation_len(i32::MIN), None);
    assert_eq!(allocation_len(i32::MAX), Some(i32::MAX as usize));
}

#[test]
fn realloc_arguments() {
    assert_eq!(
        realloc_request(&[64, 3, 1, 8]),
        Ok(ReallocRequest { pointer: 64, old_size: 3, align: 1, new_size: 8 })
    );
    assert_eq!(realloc_request(&[64, 3, 1]), Err(ReallocError::Arity { got: 3 }));
    assert_eq!(realloc_request(&[]), Err(ReallocError::Arity { got: 0 }));
    // Arguments past the fourth are ignored.
    assert_eq!(
        realloc_request(&[64, 3, 1, 8, 99]),
        Ok(ReallocRequest { pointer: 64, old_size: 3, align: 1, new_size: 8 })
    );
    assert_eq!(realloc_request(&[64, -3, 1, 8]), Err(ReallocError::NegativeSize));
    assert_eq!(realloc_request(&[64, 3, 1, -8]), Err(ReallocError::NegativeSize));
    assert_eq!(
        realloc_request(&[-1, 0, 4, 0]),
        Ok(ReallocRequest { pointer: u32::MAX, old_size: 0, align: 4, new_size: 0 })
    );
}

#[test]
fn realloc_keeps_the_shorter_prefix() {
    assert_eq!(realloc_contents(&[1, 2, 3], 8), vec![1, 2, 3]);
    assert_eq!(realloc_contents(&[1, 2, 3, 4, 5], 2), vec![1, 2]);
    assert_eq!(realloc_contents(&[], 4), Vec::<u8>::new());
    assert_eq!(realloc_contents(&[9, 9], 0), Vec::<u8>::new());
}
