use liblrc::gf::{gf_exp, gf_inv, gf_mul, gf_pow};
use liblrc::{Lrc, LrcBuf, LrcError};

fn sample_code() -> Lrc {
    Lrc::new(6, 2, 2).unwrap()
}

fn fill(buf: &mut LrcBuf, size: usize) -> Vec<Vec<u8>> {
    let mut data = Vec::new();
    for i in 0..6 {
        let chunk: Vec<u8> = (0..size).map(|c| (i * 37 + c * 11 + 5) as u8).collect();
        buf.set_data(i as i32, &chunk).unwrap();
        data.push(chunk);
    }
    data
}

fn snapshot(buf: &LrcBuf) -> Vec<Vec<u8>> {
    (0..10).map(|i| buf.get_chunk(i).unwrap().to_vec()).collect()
}

#[test]
fn new_rejects_bad_shapes() {
    for (k, g, gp) in [(0, 2, 2), (6, 0, 2), (6, 4, 2), (6, 2, -1), (-6, 2, 2), (200, 2, 100)] {
        assert_eq!(Lrc::new(k, g, gp).err(), Some(LrcError::LrcInvalidArgument));
    }
    assert!(Lrc::new(6, 2, 0).is_ok());
    assert!(Lrc::new(240, 8, 7).is_ok());
}

#[test]
fn topology_counts() {
    let code = sample_code();
    assert_eq!(code.data_count(), 6);
    assert_eq!(code.group_count(), 2);
    assert_eq!(code.global_parity_count(), 2);
    assert_eq!(code.chunks_per_group(), 3);
    assert_eq!(code.local_parity_count(), 2);
    assert_eq!(code.total_parity_count(), 4);
    assert_eq!(code.total_chunk_count(), 10);
}

#[test]
fn new_buf_zeroed_and_sized() {
    let code = sample_code();
    assert_eq!(code.new_buf(0).err(), Some(LrcError::LrcInvalidArgument));
    let buf = code.new_buf(4).unwrap();
    assert_eq!(buf.chunk_size(), 4);
    for i in 0..10 {
        assert_eq!(buf.get_chunk(i).unwrap(), &[0u8, 0, 0, 0][..]);
    }
}

#[test]
fn set_data_validates_index_and_length() {
    let code = sample_code();
    let mut buf = code.new_buf(4).unwrap();
    assert_eq!(buf.set_data(-1, &[1]), Err(LrcError::LrcIndexOverflow));
    assert_eq!(buf.set_data(6, &[1]), Err(LrcError::LrcIndexOverflow));
    assert_eq!(buf.set_data(7, &[1, 2, 3, 4, 5]), Err(LrcError::LrcIndexOverflow));
    assert_eq!(buf.set_data(0, &[1, 2, 3, 4, 5]), Err(LrcError::LrcBufOverflow));
    assert_eq!(buf.set_data(5, &[9, 8, 7, 6]), Ok(()));
    assert_eq!(buf.get_chunk(5).unwrap(), &[9u8, 8, 7, 6][..]);
    assert_eq!(buf.set_data(5, &[1, 2]), Ok(()));
    assert_eq!(buf.get_chunk(5).unwrap(), &[1u8, 2, 7, 6][..]);
}

#[test]
fn chunk_accessors_validate_index() {
    let code = sample_code();
    let mut buf = code.new_buf(2).unwrap();
    assert_eq!(buf.get_chunk(10).err(), Some(LrcError::LrcIndexOverflow));
    assert_eq!(buf.get_chunk(-1).err(), Some(LrcError::LrcIndexOverflow));
    assert_eq!(buf.get_code(4).err(), Some(LrcError::LrcIndexOverflow));
    assert_eq!(buf.get_code(-1).err(), Some(LrcError::LrcIndexOverflow));
    buf.set_data(0, &[3, 4]).unwrap();
    buf.encode().unwrap();
    assert_eq!(buf.get_code(0).unwrap(), buf.get_chunk(6).unwrap());
    assert_eq!(buf.get_code(3).unwrap(), buf.get_chunk(9).unwrap());
}

#[test]
fn gf_arithmetic_values() {
    assert_eq!(gf_mul(3, 7), 9);
    assert_eq!(gf_mul(2, 0x80), 0x1d);
    assert_eq!(gf_mul(0, 0x55), 0);
    assert_eq!(gf_mul(0x55, 1), 0x55);
    assert_eq!(gf_inv(2), Some(0x8e));
    assert_eq!(gf_inv(0), None);
    for a in 1..=255u8 {
        let v = gf_inv(a).unwrap();
        assert_eq!(gf_mul(a, v), 1);
    }
}

#[test]
fn encode_parity_values() {
    let code = Lrc::new(2, 1, 1).unwrap();
    let mut buf = code.new_buf(1).unwrap();
    buf.set_data(0, &[1]).unwrap();
    buf.set_data(1, &[2]).unwrap();
    buf.encode().unwrap();
    assert_eq!(buf.get_code(0).unwrap(), &[3u8][..]);
    assert_eq!(buf.get_code(1).unwrap(), &[5u8][..]);
    assert_eq!(buf.get_chunk(0).unwrap(), &[1u8][..]);
}

#[test]
fn encode_local_parity_is_group_xor() {
    let code = sample_code();
    let mut buf = code.new_buf(4).unwrap();
    let data = fill(&mut buf, 4);
    buf.encode().unwrap();
    for c in 0..4 {
        assert_eq!(buf.get_chunk(6).unwrap()[c], data[0][c] ^ data[1][c] ^ data[2][c]);
        assert_eq!(buf.get_chunk(7).unwrap()[c], data[3][c] ^ data[4][c] ^ data[5][c]);
    }
    for i in 0..6 {
        assert_eq!(buf.get_chunk(i).unwrap(), &data[i as usize][..]);
    }
}

#[test]
fn encode_twice_is_identical() {
    let code = sample_code();
    let mut buf = code.new_buf(8).unwrap();
    fill(&mut buf, 8);
    buf.encode().unwrap();
    let first = snapshot(&buf);
    buf.encode().unwrap();
    assert_eq!(snapshot(&buf), first);
}

#[test]
fn get_source_is_deterministic() {
    let code = sample_code();
    let a = code.get_source(&vec![0, 1]).unwrap();
    let b = code.get_source(&vec![0, 1]).unwrap();
    let c = code.get_source(&vec![1, 0, 1]).unwrap();
    assert_eq!(a, b);
    assert_eq!(a, c);
}

#[test]
fn get_source_single_data_loss_is_local() {
    let code = sample_code();
    assert_eq!(code.get_source(&vec![2]).unwrap(), vec![0, 1, 6]);
    assert_eq!(code.get_source(&vec![3]).unwrap(), vec![4, 5, 7]);
    assert_eq!(code.get_source(&vec![7]).unwrap(), vec![3, 4, 5]);
    assert_eq!(code.get_source(&vec![9]).unwrap(), vec![0, 1, 2, 3, 4, 5]);
}

#[test]
fn get_source_two_losses_in_group_is_global() {
    let code = sample_code();
    assert_eq!(code.get_source(&vec![0, 1]).unwrap(), vec![2, 3, 4, 5, 6, 8]);
}

#[test]
fn get_source_rejects_bad_sets() {
    let code = sample_code();
    assert_eq!(code.get_source(&vec![10]), Err(LrcError::LrcInvalidArgument));
    assert_eq!(code.get_source(&vec![-1]), Err(LrcError::LrcInvalidArgument));
    assert_eq!(code.get_source(&vec![0, 1, 2, 3, 4]), Err(LrcError::LrcUnrecoverable));
    assert_eq!(code.get_source(&vec![0, 1, 2, 6]), Err(LrcError::LrcUnrecoverable));
}

#[test]
fn decode_two_losses_in_one_group() {
    let code = sample_code();
    let mut buf = code.new_buf(4).unwrap();
    fill(&mut buf, 4);
    buf.encode().unwrap();
    let orig = snapshot(&buf);
    buf.set_data(0, &[0, 0, 0, 0]).unwrap();
    buf.set_data(1, &[0xff, 0, 0xff, 0]).unwrap();
    assert_eq!(buf.decode(vec![0, 1]), Ok(()));
    assert_eq!(snapshot(&buf), orig);
}

#[test]
fn decode_single_loss_locally() {
    let code = sample_code();
    let mut buf = code.new_buf(4).unwrap();
    fill(&mut buf, 4);
    buf.encode().unwrap();
    let orig = snapshot(&buf);
    buf.set_data(2, &[1, 1, 1, 1]).unwrap();
    assert_eq!(buf.decode(vec![2]), Ok(()));
    assert_eq!(snapshot(&buf), orig);
}

#[test]
fn decode_at_capacity_boundary() {
    let code = sample_code();
    let mut buf = code.new_buf(6).unwrap();
    fill(&mut buf, 6);
    buf.encode().unwrap();
    let orig = snapshot(&buf);
    buf.set_data(0, &[0; 6]).unwrap();
    buf.set_data(3, &[0; 6]).unwrap();
    assert_eq!(buf.decode(vec![0, 3, 8, 9]), Ok(()));
    assert_eq!(snapshot(&buf), orig);
    buf.set_data(0, &[7; 6]).unwrap();
    buf.set_data(1, &[7; 6]).unwrap();
    buf.set_data(3, &[7; 6]).unwrap();
    assert_eq!(buf.decode(vec![0, 1, 3, 8]), Ok(()));
    assert_eq!(snapshot(&buf), orig);
}

#[test]
fn decode_over_capacity_fails_unchanged() {
    let code = sample_code();
    let mut buf = code.new_buf(4).unwrap();
    fill(&mut buf, 4);
    buf.encode().unwrap();
    let before = snapshot(&buf);
    assert_eq!(buf.decode(vec![0, 1, 2, 3, 4]), Err(LrcError::LrcUnrecoverable));
    assert_eq!(snapshot(&buf), before);
}

#[test]
fn decode_rejects_out_of_range() {
    let code = sample_code();
    let mut buf = code.new_buf(4).unwrap();
    fill(&mut buf, 4);
    buf.encode().unwrap();
    let before = snapshot(&buf);
    assert_eq!(buf.decode(vec![10]), Err(LrcError::LrcInvalidArgument));
    assert_eq!(buf.decode(vec![1, -1]), Err(LrcError::LrcInvalidArgument));
    assert_eq!(snapshot(&buf), before);
}

#[test]
fn decode_ignores_chunks_outside_the_source_set() {
    let code = sample_code();
    let mut buf = code.new_buf(4).unwrap();
    fill(&mut buf, 4);
    buf.encode().unwrap();
    let orig = snapshot(&buf);
    buf.set_data(4, &[0xaa, 0xbb, 0xcc, 0xdd]).unwrap();
    buf.set_data(0, &[0; 4]).unwrap();
    assert_eq!(code.get_source(&vec![0]).unwrap(), vec![1, 2, 6]);
    assert_eq!(buf.decode(vec![0]), Ok(()));
    assert_eq!(buf.get_chunk(0).unwrap(), &orig[0][..]);
    assert_eq!(buf.get_chunk(4).unwrap(), &[0xaa, 0xbb, 0xcc, 0xdd][..]);
}

#[test]
fn gf_inverse_is_least() {
    for a in 1..=255u8 {
        let v = gf_inv(a).unwrap();
        for u in 0..v {
            assert_ne!(gf_mul(a, u), 1);
        }
    }
}

#[test]
fn gf_powers() {
    assert_eq!(gf_exp(0), 1);
    assert_eq!(gf_exp(7), 0x80);
    assert_eq!(gf_exp(8), 0x1d);
    assert_eq!(gf_pow(2, 8), 0x1d);
    assert_eq!(gf_pow(3, 2), 5);
    assert_eq!(gf_pow(9, 0), 1);
}

#[test]
fn decode_parity_losses() {
    let code = sample_code();
    let mut buf = code.new_buf(3).unwrap();
    fill(&mut buf, 3);
    buf.encode().unwrap();
    let orig = snapshot(&buf);
    let mut other = code.new_buf(3).unwrap();
    for i in 0..6 {
        other.set_data(i, &orig[i as usize]).unwrap();
    }
    assert_eq!(other.decode(vec![6, 7, 8, 9]), Ok(()));
    assert_eq!(snapshot(&other), orig);
}

#[test]
fn decode_one_loss_per_group_and_global() {
    let code = sample_code();
    let mut buf = code.new_buf(5).unwrap();
    fill(&mut buf, 5);
    buf.encode().unwrap();
    let orig = snapshot(&buf);
    buf.set_data(2, &[0; 5]).unwrap();
    buf.set_data(4, &[1; 5]).unwrap();
    assert_eq!(code.get_source(&vec![2, 4, 8]).unwrap(), vec![0, 1, 3, 5, 6, 7]);
    assert_eq!(buf.decode(vec![4, 8, 2]), Ok(()));
    assert_eq!(snapshot(&buf), orig);
}

#[test]
fn larger_code_round_trip() {
    let code = Lrc::new(12, 3, 3).unwrap();
    let mut buf = code.new_buf(16).unwrap();
    for i in 0..12 {
        let chunk: Vec<u8> = (0..16).map(|c| (i * 29 + c * 3 + 1) as u8).collect();
        buf.set_data(i, &chunk).unwrap();
    }
    buf.encode().unwrap();
    let orig: Vec<Vec<u8>> = (0..18).map(|i| buf.get_chunk(i).unwrap().to_vec()).collect();
    for i in [0, 1, 2, 5, 14, 17] {
        if i < 12 {
            buf.set_data(i, &[0xee; 16]).unwrap();
        }
    }
    assert_eq!(buf.decode(vec![0, 1, 2, 5, 14, 17]), Ok(()));
    let now: Vec<Vec<u8>> = (0..18).map(|i| buf.get_chunk(i).unwrap().to_vec()).collect();
    assert_eq!(now, orig);
}

#[test]
fn singular_selection_is_unrecoverable() {
    let code = Lrc::new(172, 2, 4).unwrap();
    let erased = vec![0, 85, 172, 175, 176];
    assert_eq!(code.get_source(&erased), Err(LrcError::LrcUnrecoverable));
    let mut buf = code.new_buf(2).unwrap();
    for i in 0..172 {
        buf.set_data(i, &[i as u8, (i * 7) as u8]).unwrap();
    }
    buf.encode().unwrap();
    let before: Vec<Vec<u8>> = (0..178).map(|i| buf.get_chunk(i).unwrap().to_vec()).collect();
    assert_eq!(buf.decode(erased), Err(LrcError::LrcUnrecoverable));
    let after: Vec<Vec<u8>> = (0..178).map(|i| buf.get_chunk(i).unwrap().to_vec()).collect();
    assert_eq!(after, before);
}

#[test]
fn invertible_global_selection_is_returned() {
    let code = Lrc::new(172, 2, 4).unwrap();
    assert_eq!(code.get_source(&vec![0, 85, 172, 176]).map(|s| s.len()), Ok(170 + 2));
}
