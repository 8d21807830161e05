use er_alloc::block::AllocBlock;
use er_alloc::ffi::{
    er_calloc, er_correct_buffer, er_free, er_malloc, er_read_buf, er_realloc, er_reallocarray,
    er_setup_policies, er_write_buf, setup_policy_helper, ErPolicyListNonNull, ErPolicyListRaw,
    ErPolicyRaw, FfiError,
};
use er_alloc::policies::Policy;
use er_alloc::weak::Weakable;

fn redundancy(copies: u32) -> ErPolicyListRaw {
    ErPolicyListRaw::new(ErPolicyRaw::Redundancy, Some(copies))
}

#[test]
fn node_with_its_data_is_accepted() {
    let node = ErPolicyListNonNull::try_from(redundancy(3)).unwrap();
    assert_eq!(node, ErPolicyListNonNull::new(ErPolicyRaw::Redundancy, Some(3)));
    assert_eq!(Policy::from(node), Policy::Redundancy(3));
}

#[test]
fn nil_node_needs_no_data() {
    let node = ErPolicyListNonNull::try_from(ErPolicyListRaw::default()).unwrap();
    assert_eq!(node, ErPolicyListNonNull::default());
    assert_eq!(Policy::from(node), Policy::Nil);
    let with_data = ErPolicyListRaw::new(ErPolicyRaw::Nil, Some(9));
    let node = ErPolicyListNonNull::try_from(with_data).unwrap();
    assert_eq!(node, ErPolicyListNonNull::new(ErPolicyRaw::Nil, None));
}

#[test]
fn redundancy_node_without_data_is_refused() {
    let node = ErPolicyListRaw::new(ErPolicyRaw::Redundancy, None);
    assert_eq!(ErPolicyListNonNull::try_from(node), Err(FfiError::PolicyDataWasNull));
}

#[test]
fn error_names() {
    assert_eq!(FfiError::PolicyValueUnknown.to_string(), "PolicyValueUnknown");
    assert_eq!(FfiError::PolicyDataWasNull.to_string(), "PolicyDataWasNull");
    assert_eq!(FfiError::MoreThanMaxPolicies.to_string(), "MoreThanMaxPolicies");
}

#[test]
fn list_is_decoded_in_order_and_padded() {
    assert_eq!(
        setup_policy_helper(8, &[]),
        Ok(Some([Policy::Nil, Policy::Nil, Policy::Nil]))
    );
    assert_eq!(
        setup_policy_helper(8, &[redundancy(3)]),
        Ok(Some([Policy::Redundancy(3), Policy::Nil, Policy::Nil]))
    );
    assert_eq!(
        setup_policy_helper(8, &[redundancy(2), ErPolicyListRaw::default(), redundancy(4)]),
        Ok(Some([Policy::Redundancy(2), Policy::Nil, Policy::Redundancy(4)]))
    );
}

#[test]
fn size_zero_asks_for_nothing() {
    assert_eq!(setup_policy_helper(0, &[redundancy(3)]), Ok(None));
    let too_long = [redundancy(2), redundancy(2), redundancy(2), redundancy(2)];
    assert_eq!(setup_policy_helper(0, &too_long), Ok(None));
    assert!(er_malloc(0, &[redundancy(3)]).unwrap().is_none());
    assert!(er_calloc(4, 0, &[redundancy(3)]).unwrap().is_none());
}

#[test]
fn list_longer_than_the_stack_is_refused() {
    let four = [redundancy(2), redundancy(3), redundancy(4), redundancy(5)];
    assert_eq!(setup_policy_helper(8, &four), Err(FfiError::MoreThanMaxPolicies));
    assert_eq!(er_malloc(8, &four).err(), Some(FfiError::MoreThanMaxPolicies));
    let three = [redundancy(2), redundancy(3), redundancy(4)];
    assert_eq!(
        setup_policy_helper(8, &three),
        Ok(Some([Policy::Redundancy(2), Policy::Redundancy(3), Policy::Redundancy(4)]))
    );
}

#[test]
fn missing_data_is_refused_wherever_it_stands() {
    let missing = ErPolicyListRaw::new(ErPolicyRaw::Redundancy, None);
    assert_eq!(setup_policy_helper(8, &[missing]), Err(FfiError::PolicyDataWasNull));
    assert_eq!(
        setup_policy_helper(8, &[redundancy(2), redundancy(2), missing]),
        Err(FfiError::PolicyDataWasNull)
    );
    assert_eq!(
        setup_policy_helper(8, &[redundancy(2), missing, redundancy(2), redundancy(2)]),
        Err(FfiError::PolicyDataWasNull)
    );
    assert_eq!(
        setup_policy_helper(8, &[redundancy(2), redundancy(2), redundancy(2), missing]),
        Err(FfiError::MoreThanMaxPolicies)
    );
}

#[test]
fn malloc_makes_a_block_of_the_asked_size() {
    let block = er_malloc(5, &[redundancy(3)]).unwrap().unwrap();
    assert_eq!(block.buffer().len(), 15);
    assert_eq!(block.data_slice().len(), 5);
    assert!(!block.weak_exists());
}

#[test]
fn calloc_makes_a_protected_block_of_zeros() {
    let mut block = er_calloc(4, 3, &[redundancy(2)]).unwrap().unwrap();
    assert_eq!(block.buffer(), &[0u8; 24][..]);
    assert!(!block.is_corrupted());
    assert_eq!(er_correct_buffer(&mut block), 0);
}

#[test]
fn write_then_setup_then_read() {
    let mut block = er_malloc(4, &[redundancy(3)]).unwrap().unwrap();
    assert_eq!(er_write_buf(&mut block, &[1, 2, 3, 4], 0, 4), 0);
    er_setup_policies(&mut block);
    assert_eq!(block.buffer(), &[1u8, 2, 3, 4, 1, 2, 3, 4, 1, 2, 3, 4][..]);
    // damage the first copy
    assert_eq!(er_write_buf(&mut block, &[0xf3], 2, 1), 0);
    assert!(block.is_corrupted());
    let mut dest = [0u8; 3];
    // 0xf3 differs from 3 in four bits
    assert_eq!(er_read_buf(&mut block, &mut dest, 1, 3), 4);
    assert_eq!(dest, [2u8, 3, 4]);
    assert!(!block.is_corrupted());
    assert!(!block.weak_exists());
}

#[test]
fn write_does_not_set_up_the_policies() {
    let mut block = er_calloc(1, 2, &[redundancy(2)]).unwrap().unwrap();
    assert_eq!(er_write_buf(&mut block, &[5, 6], 0, 2), 0);
    assert_eq!(block.buffer(), &[5u8, 6, 0, 0][..]);
    assert!(block.is_corrupted());
}

#[test]
fn read_reaches_into_the_overhead() {
    let mut block = er_calloc(1, 2, &[redundancy(2)]).unwrap().unwrap();
    assert_eq!(er_write_buf(&mut block, &[5, 6], 0, 2), 0);
    er_setup_policies(&mut block);
    let mut dest = [0u8; 4];
    assert_eq!(er_read_buf(&mut block, &mut dest, 0, 4), 0);
    assert_eq!(dest, [5u8, 6, 5, 6]);
    let mut none: [u8; 0] = [];
    assert_eq!(er_read_buf(&mut block, &mut none, 4, 0), 0);
}

#[test]
fn correct_buffer_status_counts_the_errors() {
    let mut block = er_calloc(1, 1, &[redundancy(3)]).unwrap().unwrap();
    assert_eq!(er_write_buf(&mut block, &[0b1111, 0b1010, 0b0000], 0, 3), 0);
    assert_eq!(er_correct_buffer(&mut block), 4);
    assert_eq!(block.buffer(), &[0b1010u8, 0b1010, 0b1010][..]);
}

#[test]
fn failed_repair_gives_a_negative_status_and_copies_nothing() {
    let stack = [Policy::ReedSolomon(2), Policy::Nil, Policy::Nil];
    let mut block = AllocBlock::new(10, &stack, true);
    assert_eq!(er_write_buf(&mut block, &[1, 1], 0, 2), 0);
    let mut dest = [0xeeu8; 4];
    assert!(er_read_buf(&mut block, &mut dest, 0, 4) < 0);
    assert_eq!(dest, [0xeeu8; 4]);
    assert_eq!(er_correct_buffer(&mut block), -1);
}

#[test]
fn realloc_resizes_in_place() {
    let mut block = er_malloc(2, &[redundancy(2)]).unwrap().unwrap();
    assert_eq!(er_write_buf(&mut block, &[7, 8, 0, 0], 0, 4), 0);
    {
        let kept = er_realloc(&mut block, 3, &[redundancy(3)]).unwrap().unwrap();
        assert_eq!(kept.buffer(), &[7u8, 8, 0, 7, 8, 0, 7, 8, 0][..]);
        assert!(!kept.weak_exists());
    }
    assert_eq!(block.data_slice(), &[7u8, 8, 0][..]);
}

#[test]
fn realloc_to_nothing_is_free() {
    let lists: [&[ErPolicyListRaw]; 3] = [
        &[],
        &[redundancy(3)],
        &[redundancy(2), redundancy(2), redundancy(2), redundancy(2)],
    ];
    for list in lists {
        let mut freed = er_calloc(2, 2, &[redundancy(2)]).unwrap().unwrap();
        er_free(&mut freed);
        let mut block = er_calloc(2, 2, &[redundancy(2)]).unwrap().unwrap();
        assert!(er_realloc(&mut block, 0, list).unwrap().is_none());
        assert_eq!(block.buffer(), freed.buffer());
        assert_eq!(block.buffer().len(), 0);
        assert_eq!(block.weak_exists(), freed.weak_exists());
        assert_eq!(block.is_corrupted(), freed.is_corrupted());
    }
}

#[test]
fn realloc_with_a_refused_list_leaves_the_block() {
    let mut block = er_calloc(2, 2, &[redundancy(2)]).unwrap().unwrap();
    let four = [redundancy(2), redundancy(2), redundancy(2), redundancy(2)];
    assert_eq!(er_realloc(&mut block, 9, &four).err(), Some(FfiError::MoreThanMaxPolicies));
    assert_eq!(block.buffer(), &[0u8; 8][..]);
    assert!(!block.weak_exists());
}

#[test]
fn reallocarray_is_not_offered() {
    let mut block = er_calloc(2, 2, &[redundancy(2)]).unwrap().unwrap();
    assert!(er_reallocarray(&mut block, 3, 3, &[redundancy(2)]).is_none());
    assert_eq!(block.buffer(), &[0u8; 8][..]);
}

#[test]
fn free_releases_the_storage() {
    let mut block = er_malloc(5, &[redundancy(3)]).unwrap().unwrap();
    er_free(&mut block);
    assert_eq!(block.buffer().len(), 0);
    assert!(!block.weak_exists());
}
