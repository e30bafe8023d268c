use vpncore::ip_manager::IpManager;

const GW_24: u32 = 0x0A000001; // 10.0.0.1
const MASK_24: u32 = 0xFFFFFF00; // 255.255.255.0

#[test]
fn first_allocation_is_network_base() {
    let m = IpManager::new(GW_24, MASK_24);
    assert_eq!(m.get_free(), Some(0x0A000000));
}

#[test]
fn gateway_is_skipped_after_preblock() {
    let mut m = IpManager::new(GW_24, MASK_24);
    m.block(GW_24);
    let a0 = m.get_free().unwrap();
    assert_eq!(a0, 0x0A000000);
    m.block(a0);
    // index 1 is the gateway, so the next free index is 2
    assert_eq!(m.get_free(), Some(0x0A000002));
}

#[test]
fn dense_allocation_in_order() {
    let mut m = IpManager::new(GW_24, MASK_24);
    for i in 0..10u32 {
        let a = m.get_free().unwrap();
        assert_eq!(a, 0x0A000000 | i);
        m.block(a);
    }
}

#[test]
fn allocations_are_unique_while_held() {
    let mut m = IpManager::new(GW_24, MASK_24);
    let mut seen = Vec::new();
    for _ in 0..20 {
        let a = m.get_free().unwrap();
        assert!(!seen.contains(&a));
        assert_eq!(a & MASK_24, 0x0A000000);
        seen.push(a);
        m.block(a);
    }
}

#[test]
fn exhaustion_of_slash_30() {
    // subnet_size = 4; the gateway 192.168.0.1 is blocked up front
    let mut m = IpManager::new(0xC0A80001, 0xFFFFFFFC);
    m.block(0xC0A80001);
    let mut got = Vec::new();
    for _ in 0..3 {
        let a = m.get_free().unwrap();
        got.push(a);
        m.block(a);
    }
    assert_eq!(got, vec![0xC0A80000, 0xC0A80002, 0xC0A80003]);
    assert_eq!(m.get_free(), None);
}

#[test]
fn release_makes_address_free_again() {
    let mut m = IpManager::new(0xC0A80001, 0xFFFFFFFC);
    m.block(0xC0A80001);
    for _ in 0..3 {
        let a = m.get_free().unwrap();
        m.block(a);
    }
    assert_eq!(m.get_free(), None);
    m.release(0xC0A80002);
    assert_eq!(m.get_free(), Some(0xC0A80002));
}

#[test]
fn release_moves_min_free_down() {
    let mut m = IpManager::new(GW_24, MASK_24);
    for _ in 0..5 {
        let a = m.get_free().unwrap();
        m.block(a);
    }
    m.release(0x0A000001);
    assert_eq!(m.get_free(), Some(0x0A000001));
}

#[test]
fn addresses_outside_subnet_are_ignored() {
    let mut m = IpManager::new(GW_24, MASK_24);
    m.block(0x0B000005);
    assert_eq!(m.get_free(), Some(0x0A000000));
    let a = m.get_free().unwrap();
    m.block(a);
    m.release(0x0B000000);
    assert_eq!(m.get_free(), Some(0x0A000001));
}

#[test]
fn release_of_unblocked_address_changes_nothing() {
    let mut m = IpManager::new(GW_24, MASK_24);
    let a = m.get_free().unwrap();
    m.block(a);
    m.release(0x0A000017);
    assert_eq!(m.get_free(), Some(0x0A000001));
}

#[test]
fn compress_address_on_contiguous_mask() {
    let m = IpManager::new(GW_24, MASK_24);
    assert_eq!(m.compress_address(0x0A000000), 0);
    assert_eq!(m.compress_address(0x0A000001), 1);
    assert_eq!(m.compress_address(0x0A0000FF), 255);
}

#[test]
fn compress_address_on_non_contiguous_mask() {
    // host bits are bits 8..16: the mask has a hole in the middle
    let m = IpManager::new(0, 0xFFFF00FF);
    assert_eq!(m.compress_address(0x00000300), 3);
    assert_eq!(m.compress_address(0x0000FF00), 255);
}

#[test]
fn allocation_on_non_contiguous_mask() {
    let mut m = IpManager::new(0, 0xFFFF00FF);
    for i in 0..4u32 {
        let a = m.get_free().unwrap();
        assert_eq!(a, i << 8);
        m.block(a);
    }
}
