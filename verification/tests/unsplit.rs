use vpncore::unsplit::{Unsplit, UnsplitError};

#[test]
fn reunites_halves_of_the_same_stream() {
    let (a, _b) = tokio::io::duplex(64);
    let (read_half, write_half) = tokio::io::split(a);
    let mut store = Unsplit::default();
    assert!(store.save_read_half(read_half).is_ok());
    assert!(store.save_write_half(write_half).is_ok());
    assert!(store.unsplit().is_some());
}

#[test]
fn second_half_of_a_kind_is_occupied() {
    let (a, b) = tokio::io::duplex(64);
    let (read_a, _write_a) = tokio::io::split(a);
    let (read_b, _write_b) = tokio::io::split(b);
    let mut store = Unsplit::default();
    assert!(store.save_read_half(read_a).is_ok());
    assert_eq!(store.save_read_half(read_b), Err(UnsplitError::Occupied));
}

#[test]
fn halves_of_different_streams_are_incompatible() {
    let (a, b) = tokio::io::duplex(64);
    let (read_a, _write_a) = tokio::io::split(a);
    let (_read_b, write_b) = tokio::io::split(b);
    let mut store = Unsplit::default();
    assert!(store.save_read_half(read_a).is_ok());
    assert_eq!(store.save_write_half(write_b), Err(UnsplitError::Incompatible));
    // the matching half is still accepted afterwards
    let (c, _d) = tokio::io::duplex(64);
    let (read_c, write_c) = tokio::io::split(c);
    let mut other = Unsplit::default();
    assert!(other.save_write_half(write_c).is_ok());
    assert!(other.save_read_half(read_c).is_ok());
}

#[test]
fn incompatible_read_half_is_refused() {
    let (a, b) = tokio::io::duplex(64);
    let (_read_a, write_a) = tokio::io::split(a);
    let (read_b, _write_b) = tokio::io::split(b);
    let mut store = Unsplit::default();
    assert!(store.save_write_half(write_a).is_ok());
    assert_eq!(store.save_read_half(read_b), Err(UnsplitError::Incompatible));
}

#[test]
fn missing_half_yields_nothing() {
    let (a, _b) = tokio::io::duplex(64);
    let (read_half, _write_half) = tokio::io::split(a);
    let mut store: Unsplit<tokio::io::DuplexStream> = Unsplit::default();
    assert!(store.save_read_half(read_half).is_ok());
    assert!(store.unsplit().is_none());

    let empty: Unsplit<tokio::io::DuplexStream> = Unsplit::default();
    assert!(empty.unsplit().is_none());
}
