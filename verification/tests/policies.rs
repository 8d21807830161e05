use er_alloc::policies::{CorrectError, Pass, Policy, MAX_POLICIES};
use er_alloc::vote::correct_bits_redundant;

#[test]
fn it_works() {
    assert_eq!(2 + 2, 4);
}

#[test]
fn stack_has_three_slots() {
    assert_eq!(MAX_POLICIES, 3);
}

#[test]
fn vote_elects_the_majority_of_each_bit() {
    let mut buffer = [0b1111u8, 0b1010, 0b0000];
    let errors = correct_bits_redundant(&mut buffer, 3, 0);
    assert_eq!(errors, 4);
    assert_eq!(buffer, [0b1010u8, 0b1010, 0b1010]);
}

#[test]
fn vote_touches_one_column_only() {
    let mut buffer = [1u8, 2, 3, 1, 9, 3, 7, 2, 3];
    let errors = correct_bits_redundant(&mut buffer, 3, 1);
    // column 1 holds 2, 9, 2: the majority is 2, and 9 = 0b1001 differs from
    // 2 = 0b0010 in three bits
    assert_eq!(errors, 3);
    assert_eq!(buffer, [1u8, 2, 3, 1, 2, 3, 7, 2, 3]);
}

#[test]
fn vote_tie_goes_to_the_cleared_bit() {
    let mut two = [0b0000_0001u8, 0b0000_0000];
    assert_eq!(correct_bits_redundant(&mut two, 2, 0), 1);
    assert_eq!(two, [0u8, 0]);

    let mut four = [0xffu8, 0xff, 0x00, 0x00];
    assert_eq!(correct_bits_redundant(&mut four, 4, 0), 16);
    assert_eq!(four, [0u8, 0, 0, 0]);
}

#[test]
fn vote_on_copies_that_agree_counts_nothing() {
    let mut buffer = [0xa5u8, 0x5a, 0xa5, 0x5a, 0xa5, 0x5a];
    assert_eq!(correct_bits_redundant(&mut buffer, 3, 0), 0);
    assert_eq!(correct_bits_redundant(&mut buffer, 3, 1), 0);
    assert_eq!(buffer, [0xa5u8, 0x5a, 0xa5, 0x5a, 0xa5, 0x5a]);
}

#[test]
fn vote_with_strict_majority_set() {
    let mut buffer = [0x80u8, 0x80, 0x00, 0x80, 0x00];
    assert_eq!(correct_bits_redundant(&mut buffer, 5, 0), 2);
    assert_eq!(buffer, [0x80u8; 5]);
}

#[test]
fn split_redundancy() {
    let buffer = [1u8, 2, 3, 4, 5, 6];
    let (data, overhead) = Policy::Redundancy(3).split_buffer(&buffer);
    assert_eq!(data, &[1u8, 2][..]);
    assert_eq!(overhead, &[3u8, 4, 5, 6][..]);
    assert_eq!(Policy::Redundancy(3).get_data(&buffer), &[1u8, 2][..]);
}

#[test]
fn split_reed_solomon() {
    let buffer = [1u8, 2, 3, 4, 5, 6];
    let (data, overhead) = Policy::ReedSolomon(2).split_buffer(&buffer);
    assert_eq!(data, &[1u8, 2, 3, 4][..]);
    assert_eq!(overhead, &[5u8, 6][..]);
}

#[test]
fn split_nil_keeps_one_byte_of_overhead() {
    let buffer = [1u8, 2, 3];
    let (data, overhead) = Policy::Nil.split_buffer(&buffer);
    assert_eq!(data, &[1u8, 2][..]);
    assert_eq!(overhead, &[3u8][..]);
}

#[test]
fn split_mut_gives_both_regions_to_write() {
    let mut buffer = [1u8, 2, 3, 4];
    {
        let (data, overhead) = Policy::Redundancy(2).split_buffer_mut(&mut buffer);
        data[0] = 10;
        overhead[1] = 40;
    }
    assert_eq!(buffer, [10u8, 2, 3, 40]);
    Policy::ReedSolomon(1).get_data_mut(&mut buffer)[2] = 30;
    assert_eq!(buffer, [10u8, 2, 30, 40]);
}

#[test]
fn size_overhead_formulas() {
    assert_eq!(Policy::Redundancy(3).size_overhead(7), Some(21));
    assert_eq!(Policy::ReedSolomon(4).size_overhead(7), Some(11));
    assert_eq!(Policy::Nil.size_overhead(7), Some(7));
    assert_eq!(Policy::Redundancy(0).size_overhead(7), Some(0));
}

#[test]
fn size_overhead_that_does_not_fit() {
    assert_eq!(Policy::Redundancy(2).size_overhead(usize::MAX), None);
    assert_eq!(Policy::ReedSolomon(1).size_overhead(usize::MAX), None);
    assert_eq!(Policy::Redundancy(1).size_overhead(usize::MAX), Some(usize::MAX));
}

#[test]
fn redundancy_apply_copies_the_data_into_every_other_copy() {
    let mut buffer = [1u8, 2, 9, 9, 9, 9, 9, 9];
    Policy::Redundancy(4).apply_policy(&mut buffer);
    assert_eq!(buffer, [1u8, 2, 1, 2, 1, 2, 1, 2]);
    assert!(!Policy::Redundancy(4).is_corrupted(&buffer));
}

#[test]
fn redundancy_detects_a_differing_copy() {
    let clean = [1u8, 2, 1, 2, 1, 2];
    assert!(!Policy::Redundancy(3).is_corrupted(&clean));
    let second_copy = [1u8, 2, 1, 3, 1, 2];
    assert!(Policy::Redundancy(3).is_corrupted(&second_copy));
    let last_copy = [1u8, 2, 1, 2, 0, 2];
    assert!(Policy::Redundancy(3).is_corrupted(&last_copy));
    let empty: [u8; 0] = [];
    assert!(!Policy::Redundancy(3).is_corrupted(&empty));
}

#[test]
fn redundancy_correct_then_probe() {
    let mut buffer = [0x12u8, 0x34, 0x12, 0x35, 0x13, 0x34];
    assert!(Policy::Redundancy(3).is_corrupted(&buffer));
    assert_eq!(Policy::Redundancy(3).correct_buffer(&mut buffer), Ok(2));
    assert_eq!(buffer, [0x12u8, 0x34, 0x12, 0x34, 0x12, 0x34]);
    assert!(!Policy::Redundancy(3).is_corrupted(&buffer));
}

#[test]
fn redundancy_correct_can_outvote_the_first_copy() {
    let mut buffer = [0xffu8, 0x0f, 0x0f];
    assert_eq!(Policy::Redundancy(3).correct_buffer(&mut buffer), Ok(4));
    assert_eq!(buffer, [0x0fu8, 0x0f, 0x0f]);
}

#[test]
fn single_copy_is_never_corrupted() {
    let mut buffer = [7u8, 8, 9];
    assert!(!Policy::Redundancy(1).is_corrupted(&buffer));
    assert_eq!(Policy::Redundancy(1).correct_buffer(&mut buffer), Ok(0));
    Policy::Redundancy(1).apply_policy(&mut buffer);
    assert_eq!(buffer, [7u8, 8, 9]);
}

#[test]
fn nil_does_nothing() {
    let mut buffer = [7u8, 8, 9];
    assert!(!Policy::Nil.is_corrupted(&buffer));
    assert_eq!(Policy::Nil.correct_buffer(&mut buffer), Ok(0));
    Policy::Nil.apply_policy(&mut buffer);
    assert_eq!(buffer, [7u8, 8, 9]);
}

#[test]
fn reed_solomon_apply_writes_the_parity_of_the_data() {
    let mut buffer = [0u8; 38];
    for i in 0..30 {
        buffer[i] = i as u8;
    }
    Policy::ReedSolomon(8).apply_policy(&mut buffer);
    for i in 0..30 {
        assert_eq!(buffer[i], i as u8);
    }
    assert_eq!(&buffer[30..], &[99u8, 26, 219, 193, 9, 94, 186, 143][..]);
    assert!(!Policy::ReedSolomon(8).is_corrupted(&buffer));
}

#[test]
fn reed_solomon_detects_and_repairs() {
    let mut buffer = [0u8; 20];
    for i in 0..12 {
        buffer[i] = (3 * i + 1) as u8;
    }
    Policy::ReedSolomon(8).apply_policy(&mut buffer);
    let encoded = buffer;
    buffer[0] ^= 0xff;
    buffer[5] = buffer[5].wrapping_add(1);
    buffer[19] ^= 0x10;
    assert!(Policy::ReedSolomon(8).is_corrupted(&buffer));
    assert_eq!(Policy::ReedSolomon(8).correct_buffer(&mut buffer), Ok(3));
    assert_eq!(buffer, encoded);
    assert!(!Policy::ReedSolomon(8).is_corrupted(&buffer));
}

#[test]
fn reed_solomon_repair_of_a_clean_buffer_counts_nothing() {
    let mut buffer = [5u8, 6, 7, 8, 0, 0, 0];
    Policy::ReedSolomon(3).apply_policy(&mut buffer);
    let encoded = buffer;
    assert_eq!(Policy::ReedSolomon(3).correct_buffer(&mut buffer), Ok(0));
    assert_eq!(buffer, encoded);
}

#[test]
fn reed_solomon_gives_up_on_too_many_errors() {
    let mut buffer = [0u8; 12];
    Policy::ReedSolomon(2).apply_policy(&mut buffer);
    assert_eq!(buffer, [0u8; 12]);
    buffer[0] ^= 1;
    buffer[1] ^= 1;
    let damaged = buffer;
    assert!(Policy::ReedSolomon(2).is_corrupted(&buffer));
    assert_eq!(
        Policy::ReedSolomon(2).correct_buffer(&mut buffer),
        Err(CorrectError::TooManyErrors)
    );
    assert_eq!(buffer, damaged);
}

#[test]
fn reed_solomon_codeword_check_for_every_parity_length() {
    for parity in 0..255usize {
        let len = parity + 1;
        let mut buffer = vec![0u8; len];
        buffer[0] = (parity as u8) | 1;
        Policy::ReedSolomon(parity as u32).apply_policy(&mut buffer);
        assert!(!Policy::ReedSolomon(parity as u32).is_corrupted(&buffer));
    }
    for parity in [1usize, 2, 3, 16, 64, 100] {
        let len = 255;
        let mut buffer = vec![0u8; len];
        for i in 0..(len - parity) {
            buffer[i] = (i * 7 + parity) as u8;
        }
        Policy::ReedSolomon(parity as u32).apply_policy(&mut buffer);
        assert!(!Policy::ReedSolomon(parity as u32).is_corrupted(&buffer));
    }
}

#[test]
fn apply_twice_changes_nothing_more() {
    let mut buffer = [1u8, 2, 3, 0, 0, 0, 0, 0, 0];
    Policy::Redundancy(3).apply_policy(&mut buffer);
    let once = buffer;
    Policy::Redundancy(3).apply_policy(&mut buffer);
    assert_eq!(buffer, once);

    let mut coded = [1u8, 2, 3, 4, 5, 0, 0, 0, 0];
    Policy::ReedSolomon(4).apply_policy(&mut coded);
    let once = coded;
    Policy::ReedSolomon(4).apply_policy(&mut coded);
    assert_eq!(coded, once);
}

#[test]
fn decoded_codeword_is_written_over_the_buffer() {
    let mut buffer = [1u8, 2, 3, 4, 5];
    let outcome = Ok((vec![9u8, 8, 7, 6, 5], 2usize));
    assert_eq!(Policy::ReedSolomon(2).accept_decoded(&mut buffer, outcome), Ok(2));
    assert_eq!(buffer, [9u8, 8, 7, 6, 5]);
}

#[test]
fn decoder_failure_leaves_the_buffer() {
    let mut buffer = [1u8, 2, 3, 4, 5];
    let outcome = Err(reed_solomon::DecoderError::TooManyErrors);
    assert_eq!(
        Policy::ReedSolomon(2).accept_decoded(&mut buffer, outcome),
        Err(CorrectError::TooManyErrors)
    );
    assert_eq!(buffer, [1u8, 2, 3, 4, 5]);
}

#[test]
fn overhead_is_written_behind_the_data() {
    let mut buffer = [1u8, 2, 3, 4, 5];
    Policy::ReedSolomon(2).write_overhead(&mut buffer, &[0xaa, 0xbb]);
    assert_eq!(buffer, [1u8, 2, 3, 0xaa, 0xbb]);
    let mut copies = [1u8, 2, 0, 0, 0, 0];
    Policy::Redundancy(3).write_overhead(&mut copies, &[7, 7, 8, 8]);
    assert_eq!(copies, [1u8, 2, 7, 7, 8, 8]);
}

#[test]
fn data_length_of_each_policy() {
    assert_eq!(Policy::Redundancy(3).data_length(12), 4);
    assert_eq!(Policy::ReedSolomon(3).data_length(12), 9);
    assert_eq!(Policy::Nil.data_length(12), 11);
}

#[test]
fn redundancy_needs_whole_copies() {
    for pass in [Pass::Probe, Pass::Apply, Pass::Correct] {
        assert!(Policy::Redundancy(3).permits(pass, 12));
        assert!(Policy::Redundancy(3).permits(pass, 0));
        assert!(!Policy::Redundancy(3).permits(pass, 13));
        assert!(!Policy::Redundancy(0).permits(pass, 12));
        assert!(!Policy::Redundancy(0).permits(pass, 0));
        assert!(Policy::Nil.permits(pass, 0));
    }
}

#[test]
fn redundancy_repair_has_to_fit_its_counter() {
    // two copies: every byte of a copy can count eight errors
    assert!(Policy::Redundancy(2).permits(Pass::Apply, 1_073_741_824));
    assert!(Policy::Redundancy(2).permits(Pass::Correct, 1_073_741_822));
    assert!(!Policy::Redundancy(2).permits(Pass::Correct, 1_073_741_824));
    // three copies: still one loser per bit at the most
    assert!(Policy::Redundancy(3).permits(Pass::Correct, 1_610_612_733));
    assert!(!Policy::Redundancy(3).permits(Pass::Correct, 1_610_612_736));
    // a single copy never loses a vote
    assert!(Policy::Redundancy(1).permits(Pass::Correct, usize::MAX));
    // very many copies of very little
    assert!(Policy::Redundancy(0x3fff_ffff).permits(Pass::Correct, 0x3fff_ffff));
    assert!(!Policy::Redundancy(0x4000_0000).permits(Pass::Correct, 0x4000_0000));
    assert!(Policy::Redundancy(0x4000_0000).permits(Pass::Correct, 0));
}

#[test]
fn reed_solomon_needs_data_and_a_codeword_within_the_code() {
    for pass in [Pass::Probe, Pass::Apply, Pass::Correct] {
        assert!(Policy::ReedSolomon(3).permits(pass, 4));
        assert!(!Policy::ReedSolomon(3).permits(pass, 3));
        assert!(!Policy::ReedSolomon(3).permits(pass, 0));
        assert!(Policy::ReedSolomon(0).permits(pass, 1));
    }
    assert!(Policy::ReedSolomon(3).permits(Pass::Probe, 1000));
    assert!(Policy::ReedSolomon(3).permits(Pass::Apply, 256));
    assert!(!Policy::ReedSolomon(3).permits(Pass::Apply, 257));
    assert!(Policy::ReedSolomon(3).permits(Pass::Correct, 255));
    assert!(!Policy::ReedSolomon(3).permits(Pass::Correct, 256));
    assert!(Policy::ReedSolomon(170).permits(Pass::Correct, 255));
    assert!(!Policy::ReedSolomon(171).permits(Pass::Correct, 255));
    assert!(Policy::ReedSolomon(255).permits(Pass::Apply, 256));
}

#[test]
fn reed_solomon_with_the_most_parity_repairs_the_most_errors() {
    let mut buffer = vec![0u8; 255];
    for i in 0..85 {
        buffer[i] = (i + 1) as u8;
    }
    Policy::ReedSolomon(170).apply_policy(&mut buffer);
    let encoded = buffer.clone();
    for i in 0..85 {
        buffer[3 * i] ^= 0x5a;
    }
    assert_eq!(Policy::ReedSolomon(170).correct_buffer(&mut buffer), Ok(85));
    assert_eq!(buffer, encoded);
}
