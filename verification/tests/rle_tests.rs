use binary_greedy_mesher_demo_rs::data::rle::decompress_to_voxels_and_opaque_mask;
use binary_greedy_mesher_demo_rs::data::rle::rle_encode_sparse_trailing_zeros;
use binary_greedy_mesher_demo_rs::data::rle::RleError;
use binary_greedy_mesher_demo_rs::get_zxy_index;
use binary_greedy_mesher_demo_rs::levelgen::splitmix64;
use binary_greedy_mesher_demo_rs::CS_P2;
use binary_greedy_mesher_demo_rs::CS_P3;
use binary_greedy_mesher_demo_rs::CS;

fn decode(rle: &Vec<u8>) -> Result<(Vec<u8>, Vec<u64>), RleError> {
    let mut voxels = vec![0u8; CS_P3];
    let mut mask = vec![0u64; CS_P2];
    decompress_to_voxels_and_opaque_mask(rle, &mut voxels, &mut mask)?;
    Ok((voxels, mask))
}

fn mask_bit(mask: &Vec<u64>, i: usize) -> bool {
    (mask[i / 64] >> (i % 64)) & 1 == 1
}

#[test]
fn decode_empty_stream_fills_nothing() {
    let (voxels, mask) = decode(&Vec::new()).unwrap();
    assert!(voxels.iter().all(|&v| v == 0));
    assert!(mask.iter().all(|&w| w == 0));
}

#[test]
fn decode_simple_runs() {
    // 3 cells of material 7, 2 empty cells, 1 cell of material 9.
    let rle = vec![7u8, 3, 0, 2, 9, 1];
    let (voxels, mask) = decode(&rle).unwrap();
    assert_eq!(&voxels[0..7], &[7, 7, 7, 0, 0, 9, 0]);
    for i in 0..8 {
        assert_eq!(mask_bit(&mask, i), voxels[i] != 0, "bit {i}");
    }
}

#[test]
fn decode_runs_crossing_word_boundaries() {
    // 255-cell run, then air, then another run: crosses several 64-bit words.
    let rle = vec![1u8, 255, 0, 255, 2, 130];
    let (voxels, mask) = decode(&rle).unwrap();
    for i in 0..255 {
        assert_eq!(voxels[i], 1);
        assert!(mask_bit(&mask, i));
    }
    for i in 255..510 {
        assert_eq!(voxels[i], 0);
        assert!(!mask_bit(&mask, i));
    }
    for i in 510..640 {
        assert_eq!(voxels[i], 2);
        assert!(mask_bit(&mask, i));
    }
    assert!(!mask_bit(&mask, 640));
}

#[test]
fn decode_rejects_odd_length() {
    let mut voxels = vec![0u8; CS_P3];
    let mut mask = vec![0u64; CS_P2];
    let rle = vec![1u8, 4, 2];
    assert_eq!(
        decompress_to_voxels_and_opaque_mask(&rle, &mut voxels, &mut mask),
        Err(RleError::OddLength)
    );
    // Fail closed: nothing was written.
    assert!(voxels.iter().all(|&v| v == 0));
    assert!(mask.iter().all(|&w| w == 0));
}

#[test]
fn decode_rejects_overflowing_runs() {
    // 1029 runs of 255 cells describe more than CS_P3 cells.
    let mut rle = Vec::new();
    for _ in 0..1029 {
        rle.push(1u8);
        rle.push(255u8);
    }
    let mut voxels = vec![0u8; CS_P3];
    let mut mask = vec![0u64; CS_P2];
    assert_eq!(
        decompress_to_voxels_and_opaque_mask(&rle, &mut voxels, &mut mask),
        Err(RleError::Overflow)
    );
    assert!(voxels.iter().all(|&v| v == 0));
    assert!(mask.iter().all(|&w| w == 0));
}

#[test]
fn encode_trims_trailing_air() {
    let mut voxels = vec![0u8; CS_P3];
    voxels[0] = 5;
    voxels[1] = 5;
    // Everything after index 1 stays empty and is omitted from the stream.
    let rle = rle_encode_sparse_trailing_zeros(&voxels);
    assert_eq!(rle, vec![5u8, 2]);
}

#[test]
fn encode_all_empty_is_empty_stream() {
    let voxels = vec![0u8; CS_P3];
    let rle = rle_encode_sparse_trailing_zeros(&voxels);
    assert!(rle.is_empty());
}

#[test]
fn encode_caps_runs_at_255() {
    let mut voxels = vec![0u8; CS_P3];
    for i in 0..300 {
        voxels[i] = 3;
    }
    let rle = rle_encode_sparse_trailing_zeros(&voxels);
    assert_eq!(rle, vec![3u8, 255, 3, 45]);
}

#[test]
fn round_trip_structured_volume() {
    let mut voxels = vec![0u8; CS_P3];
    for z in 1..=CS {
        for x in 1..=CS {
            for y in 1..=(1 + (x * z) % 7) {
                voxels[get_zxy_index(x, y, z)] = ((x + z) % 5 + 1) as u8;
            }
        }
    }
    let rle = rle_encode_sparse_trailing_zeros(&voxels);
    let (redecoded, mask) = decode(&rle).unwrap();
    assert_eq!(redecoded, voxels);
    for i in 0..CS_P3 {
        assert_eq!(mask_bit(&mask, i), voxels[i] != 0);
    }
}

#[test]
fn round_trip_pseudo_random_volume() {
    let mut voxels = vec![0u8; CS_P3];
    let mut state = 0xDEADBEEFu64;
    for i in 0..CS_P3 {
        state = splitmix64(state);
        if state % 4 == 0 {
            voxels[i] = (state % 254 + 1) as u8;
        }
    }
    let rle = rle_encode_sparse_trailing_zeros(&voxels);
    let (redecoded, _mask) = decode(&rle).unwrap();
    assert_eq!(redecoded, voxels);
}

#[test]
fn bitset_popcount_matches_interior_voxel_count() {
    let mut voxels = vec![0u8; CS_P3];
    for z in 1..=CS {
        for x in 1..=CS {
            if (x + z) % 3 == 0 {
                voxels[get_zxy_index(x, 1, z)] = 1;
                voxels[get_zxy_index(x, 2, z)] = 2;
            }
        }
    }
    let rle = rle_encode_sparse_trailing_zeros(&voxels);
    let (redecoded, mask) = decode(&rle).unwrap();

    let mut interior_voxels = 0u32;
    let mut interior_bits = 0u32;
    for y in 1..=CS {
        for x in 1..=CS {
            for z in 1..=CS {
                let i = get_zxy_index(x, y, z);
                if redecoded[i] != 0 {
                    interior_voxels += 1;
                }
                if mask_bit(&mask, i) {
                    interior_bits += 1;
                }
            }
        }
    }
    assert!(interior_voxels > 0);
    assert_eq!(interior_bits, interior_voxels);
}
