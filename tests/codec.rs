use overlay_host::assembler::{Assembler, Disassembler};
use overlay_host::codec::{compose_fragments, split_into_fragments};
use overlay_host::packet::FRAGMENT_DSIZE;

#[test]
fn hello_world_is_one_fragment() {
    let bytes = b"Hello, world!".to_vec();
    let fragments = split_into_fragments(&bytes);
    assert_eq!(fragments.len(), 1);
    assert_eq!(fragments[0].length as usize, bytes.len());
    assert_eq!(fragments[0].total_n_fragments, 1);
    assert_eq!(fragments[0].data.len(), FRAGMENT_DSIZE);
    assert!(fragments[0].data[bytes.len()..].iter().all(|b| *b == 0));
    assert_eq!(compose_fragments(&fragments), bytes);
}

#[test]
fn three_hundred_bytes_make_three_fragments() {
    let bytes: Vec<u8> = (0..300u32).map(|i| (i % 251) as u8).collect();
    let fragments = split_into_fragments(&bytes);
    let lengths: Vec<u8> = fragments.iter().map(|f| f.length).collect();
    assert_eq!(lengths, vec![128, 128, 44]);
    assert!(fragments.iter().all(|f| f.total_n_fragments == 3));
    let indices: Vec<u64> = fragments.iter().map(|f| f.fragment_index).collect();
    assert_eq!(indices, vec![0, 1, 2]);
    assert_eq!(compose_fragments(&fragments), bytes);
}

#[test]
fn empty_message_has_no_fragments() {
    assert!(split_into_fragments(&Vec::new()).is_empty());
}

#[test]
fn exact_multiple_fills_every_fragment() {
    let bytes = vec![7u8; 256];
    let fragments = split_into_fragments(&bytes);
    assert_eq!(fragments.len(), 2);
    assert!(fragments.iter().all(|f| f.length == 128));
}

#[test]
fn reassembly_in_any_order() {
    let bytes: Vec<u8> = (0..300u32).map(|i| (i * 7 % 256) as u8).collect();
    let fragments = split_into_fragments(&bytes);
    let mut assembler = Assembler::new();
    assert!(assembler.insert_fragment(9, fragments[2].clone()).is_none());
    assert!(assembler.insert_fragment(9, fragments[0].clone()).is_none());
    // a duplicate is idempotent
    assert!(assembler.insert_fragment(9, fragments[0].clone()).is_none());
    let joined = assembler.insert_fragment(9, fragments[1].clone()).unwrap();
    assert_eq!(joined, bytes);
    assembler.forget(9);
    assert!(assembler.insert_fragment(9, fragments[1].clone()).is_none());
}

#[test]
fn disassembler_keeps_fragments_until_acked() {
    let bytes = vec![1u8; 200];
    let mut d = Disassembler::new();
    let fragments = d.disassembly(5, 42, &bytes);
    assert_eq!(fragments.len(), 2);
    assert_eq!(d.get_destination(5), Some(42));
    assert!(d.has_fragments(5));
    assert_eq!(d.get_fragment(5, 1).unwrap().length, 72);
    assert_eq!(d.forget_fragment(5, 0).unwrap().fragment_index, 0);
    assert!(d.get_fragment(5, 0).is_none());
    assert_eq!(d.get_destination(5), Some(42));
    assert!(d.forget_fragment(5, 0).is_none());
    assert_eq!(d.forget_fragment(5, 1).unwrap().fragment_index, 1);
    assert!(!d.has_fragments(5));
    assert_eq!(d.get_destination(5), None);
}

#[test]
fn session_ids_carry_the_host_id() {
    let mut d = Disassembler::new();
    let a = Disassembler::transform_session_id(d.new_session_id(), 40);
    let b = Disassembler::transform_session_id(d.new_session_id(), 40);
    assert_ne!(a, b);
    assert_eq!(a >> 56, 40);
    assert_eq!(b >> 56, 40);
    assert_eq!(a, 40u64 << 56);
    assert_eq!(b, (40u64 << 56) | 1);
}
