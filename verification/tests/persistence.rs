use margolus::block::Block;
use margolus::codec::{deserialize, serialize};
use margolus::palette::{Element, Rgba};
use margolus::sim::Sim;

fn blk(a: usize, b: usize, c: usize, d: usize) -> Block {
    Block { a, b, c, d }
}

fn all_blocks(n: usize) -> Vec<Block> {
    let mut out = Vec::new();
    for a in 0..n {
        for b in 0..n {
            for c in 0..n {
                for d in 0..n {
                    out.push(blk(a, b, c, d));
                }
            }
        }
    }
    out
}

fn assert_observably_equal(x: &Sim, y: &Sim, n: usize) {
    assert_eq!(x.num_elements(), y.num_elements());
    for idx in 0..x.num_elements() {
        let ex = x.element(idx).unwrap();
        let ey = y.element(idx).unwrap();
        assert_eq!(ex.name, ey.name);
        assert_eq!(ex.color, ey.color);
    }
    assert_eq!(x.symmetry().horizontal, y.symmetry().horizontal);
    for b in all_blocks(n) {
        assert_eq!(x.lookup(b), y.lookup(b));
    }
}

#[test]
fn round_trip_reproduces_the_sim() {
    let mut sim = Sim::starting();
    sim.resize_palette(3);
    sim.set_element(
        2,
        Element { color: Rgba { r: 10, g: 20, b: 30, a: 40 }, name: String::from("Söot…") },
    )
    .unwrap();
    sim.set_rule(blk(1, 0, 1, 0), blk(0, 0, 1, 1)).unwrap();
    sim.set_rule(blk(2, 2, 0, 0), blk(0, 0, 2, 2)).unwrap();
    let bytes = serialize(&sim);
    let back = deserialize(&bytes);
    assert_observably_equal(&sim, &back, 3);
    assert_eq!(back.num_rules(), sim.num_rules());
}

#[test]
fn round_trip_with_symmetry_off() {
    let mut sim = Sim::starting();
    sim.set_horizontal(false);
    sim.set_rule(blk(0, 1, 0, 1), blk(1, 1, 0, 0)).unwrap();
    sim.set_rule(blk(1, 0, 1, 0), blk(0, 0, 1, 1)).unwrap();
    let back = deserialize(&serialize(&sim));
    assert!(!back.symmetry().horizontal);
    assert_eq!(back.num_rules(), 2);
    assert_observably_equal(&sim, &back, 2);
}

#[test]
fn empty_document_falls_back_to_the_start_state() {
    let back = deserialize(&Vec::new());
    assert_eq!(back.num_elements(), 2);
    assert_eq!(back.element(0).unwrap().name, "Off");
    assert_eq!(back.element(1).unwrap().name, "On");
    assert_eq!(back.num_rules(), 0);
    assert!(back.symmetry().horizontal);
}

#[test]
fn truncated_document_falls_back_to_the_start_state() {
    let mut sim = Sim::starting();
    sim.set_rule(blk(1, 0, 1, 0), blk(0, 0, 1, 1)).unwrap();
    let mut bytes = serialize(&sim);
    bytes.truncate(bytes.len() / 2);
    let back = deserialize(&bytes);
    assert_eq!(back.num_elements(), 2);
    assert_eq!(back.num_rules(), 0);
    assert!(back.symmetry().horizontal);
}

#[test]
fn missing_sections_take_their_defaults() {
    // A document whose flags byte announces no section at all.
    let back = deserialize(&vec![0u8]);
    assert_eq!(back.num_elements(), 2);
    assert_eq!(back.element(0).unwrap().name, "Off");
    assert_eq!(back.num_rules(), 0);
    assert!(back.symmetry().horizontal);
}

#[test]
fn symmetry_only_document() {
    // Flags announce only the symmetry section; its byte says "off".
    let back = deserialize(&vec![4u8, 0u8]);
    assert!(!back.symmetry().horizontal);
    assert_eq!(back.num_elements(), 2);
    assert_eq!(back.num_rules(), 0);
    // A symmetry byte that is neither 0 nor 1 is corrupt.
    let bad = deserialize(&vec![4u8, 9u8]);
    assert!(bad.symmetry().horizontal);
}

#[test]
fn duplicate_keys_in_a_document_are_refused() {
    // Flags announce only the rules section: two identical all-zero rules.
    let mut bytes = vec![2u8];
    bytes.extend_from_slice(&2u64.to_le_bytes());
    bytes.extend_from_slice(&[0u8; 128]);
    let back = deserialize(&bytes);
    assert_eq!(back.num_rules(), 0);
    assert_eq!(back.num_elements(), 2);
}

#[test]
fn stale_indices_in_a_document_are_refused() {
    // One rule referencing index 5 against the default two-element palette.
    let mut bytes = vec![2u8];
    bytes.extend_from_slice(&1u64.to_le_bytes());
    bytes.extend_from_slice(&5u64.to_le_bytes());
    for _ in 0..7 {
        bytes.extend_from_slice(&0u64.to_le_bytes());
    }
    let back = deserialize(&bytes);
    assert_eq!(back.num_rules(), 0);
    assert_eq!(back.num_elements(), 2);
}

#[test]
fn trailing_bytes_are_ignored() {
    let mut sim = Sim::starting();
    sim.set_rule(blk(0, 1, 1, 0), blk(1, 0, 0, 1)).unwrap();
    let mut bytes = serialize(&sim);
    bytes.push(0xFF);
    bytes.push(0xAB);
    let back = deserialize(&bytes);
    assert_observably_equal(&sim, &back, 2);
}

#[test]
fn document_layout_is_little_endian() {
    let bytes = serialize(&Sim::starting());
    // Flags byte: palette, rules and symmetry sections all present.
    assert_eq!(bytes[0], 7);
    // Palette: two elements.
    assert_eq!(&bytes[1..9], &2u64.to_le_bytes());
    // First element: black, then "Off" as counted code points.
    assert_eq!(&bytes[9..13], &[0, 0, 0, 255]);
    assert_eq!(&bytes[13..21], &3u64.to_le_bytes());
    assert_eq!(&bytes[21..25], &(u32::from('O')).to_le_bytes());
    assert_eq!(&bytes[25..29], &(u32::from('f')).to_le_bytes());
    assert_eq!(&bytes[29..33], &(u32::from('f')).to_le_bytes());
    // Second element: white, then "On".
    assert_eq!(&bytes[33..37], &[255, 255, 255, 255]);
    assert_eq!(&bytes[37..45], &2u64.to_le_bytes());
    assert_eq!(&bytes[45..49], &(u32::from('O')).to_le_bytes());
    assert_eq!(&bytes[49..53], &(u32::from('n')).to_le_bytes());
    // No rules; horizontal mirror on.
    assert_eq!(&bytes[53..61], &0u64.to_le_bytes());
    assert_eq!(bytes[61], 1);
    assert_eq!(bytes.len(), 62);
}
