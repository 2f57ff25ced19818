use binary_greedy_mesher_demo_rs::get_xyz_key;
use binary_greedy_mesher_demo_rs::get_zxy_index;
use binary_greedy_mesher_demo_rs::parse_xyz_key;
use binary_greedy_mesher_demo_rs::CS_P;
use binary_greedy_mesher_demo_rs::CS_P2;
use binary_greedy_mesher_demo_rs::CS_P3;
use binary_greedy_mesher_demo_rs::CS;
use binary_greedy_mesher_demo_rs::CS_2;

#[test]
fn constants_are_consistent() {
    assert_eq!(CS, 62);
    assert_eq!(CS_P, CS + 2);
    assert_eq!(CS_2, CS * CS);
    assert_eq!(CS_P2, CS_P * CS_P);
    assert_eq!(CS_P3, CS_P * CS_P * CS_P);
}

#[test]
fn zxy_index_matches_linear_order() {
    assert_eq!(get_zxy_index(0, 0, 0), 0);
    assert_eq!(get_zxy_index(0, 0, 1), 1);
    assert_eq!(get_zxy_index(1, 0, 0), CS_P);
    assert_eq!(get_zxy_index(0, 1, 0), CS_P2);
    assert_eq!(get_zxy_index(3, 5, 7), 7 + 3 * CS_P + 5 * CS_P2);
    assert_eq!(get_zxy_index(63, 63, 63), CS_P3 - 1);
}

#[test]
fn xyz_key_packs_bytes() {
    assert_eq!(get_xyz_key(3, 0, 5), 0x0005_0003);
    assert_eq!(get_xyz_key(0, 0, 0), 0);
    assert_eq!(get_xyz_key(255, 255, 255), 0x00FF_FFFF);
    assert_eq!(get_xyz_key(1, 2, 3), 0x0003_0201);
}

#[test]
fn xyz_key_round_trips() {
    for &(x, y, z) in &[(0u8, 0u8, 0u8), (1, 2, 3), (255, 0, 17), (62, 255, 9)] {
        assert_eq!(parse_xyz_key(get_xyz_key(x, y, z)), (x, y, z));
    }
}

#[test]
fn splitmix64_matches_reference_value() {
    // The well-known first output of a splitmix64 stream seeded with zero.
    assert_eq!(
        binary_greedy_mesher_demo_rs::levelgen::splitmix64(0),
        0xE220_A839_7B1D_CDAF
    );
}

#[test]
fn hash2_is_deterministic_and_spreads() {
    let a = binary_greedy_mesher_demo_rs::levelgen::hash2(42, -3, 7);
    let b = binary_greedy_mesher_demo_rs::levelgen::hash2(42, -3, 7);
    let c = binary_greedy_mesher_demo_rs::levelgen::hash2(42, -3, 8);
    assert_eq!(a, b);
    assert_ne!(a, c);
}

#[test]
fn draw_command_packs_face_and_key() {
    let key = get_xyz_key(2, 0, 4);
    let cmd = binary_greedy_mesher_demo_rs::rendering::make_draw_command(10, 40, key, 5);
    assert_eq!(cmd.index_count, 60);
    assert_eq!(cmd.instance_count, 1);
    assert_eq!(cmd.first_index, 0);
    assert_eq!(cmd.base_vertex, 40);
    assert_eq!(cmd.base_instance, (5 << 24) | key);
}
