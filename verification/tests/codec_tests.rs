use territory::codec::{decode_grid, serialize_grid};
use territory::grid::{Grid, GridCell};

fn mixed_grid() -> Grid {
    let mut g = Grid::new(3, 2);
    g.set(0, 0, GridCell::PlayerId(1));
    g.set(1, 0, GridCell::Water);
    g.set(2, 0, GridCell::Mountain);
    // (0, 1) stays Available.
    g.set(1, 1, GridCell::PlayerId(250));
    g.set(2, 1, GridCell::PlayerId(7));
    g
}

#[test]
fn grid_round_trip_preserves_every_cell() {
    let g = mixed_grid();
    let msg = serialize_grid(&g).expect("snapshot should succeed");
    assert_eq!(msg.width, 3);
    assert_eq!(msg.height, 2);
    let back = decode_grid(&msg).expect("decode should succeed");
    assert_eq!(back.width, g.width);
    assert_eq!(back.height, g.height);
    assert_eq!(back.cells.len(), g.cells.len());
    for i in 0..g.cells.len() {
        assert_eq!(back.cells[i], g.cells[i]);
    }
}

#[test]
fn wire_text_is_upper_hex() {
    let g = mixed_grid();
    let msg = serialize_grid(&g).expect("snapshot should succeed");
    assert!(msg.grid.len() > 0);
    assert!(msg.grid.len() % 2 == 0);
    for c in msg.grid.chars() {
        assert!(c.is_ascii_hexdigit());
        assert!(!c.is_ascii_lowercase());
    }
}

#[test]
fn decode_rejects_corrupt_armor() {
    let g = mixed_grid();
    let mut msg = serialize_grid(&g).expect("snapshot should succeed");
    msg.grid.push('Z');
    assert!(decode_grid(&msg).is_none());
}

#[test]
fn decode_rejects_wrong_dimensions() {
    let g = mixed_grid();
    let mut msg = serialize_grid(&g).expect("snapshot should succeed");
    msg.width = 4;
    assert!(decode_grid(&msg).is_none());
}

#[test]
fn decode_rejects_raw_uncompressed_payload() {
    // If the compressor had handed its input through unchanged, this frame
    // would decode; a real zlib decoder refuses it.
    let msg = territory::codec::GridMessage {
        grid: String::from("FFFFFEFD"),
        width: 2,
        height: 2,
    };
    assert!(decode_grid(&msg).is_none());
}

#[test]
fn cell_codes_round_trip() {
    assert_eq!(GridCell::from_i32(-1), GridCell::Water);
    assert_eq!(GridCell::from_i32(-2), GridCell::Mountain);
    assert_eq!(GridCell::from_i32(0), GridCell::Available);
    assert_eq!(GridCell::from_i32(9), GridCell::PlayerId(9));
    assert_eq!(GridCell::Water.to_i32(), -1);
    assert_eq!(GridCell::Mountain.to_i32(), -2);
    assert_eq!(GridCell::Available.to_i32(), 0);
    assert_eq!(GridCell::PlayerId(9).to_i32(), 9);
}
