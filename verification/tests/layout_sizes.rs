use zc_ring_x1::mpsc::v2::{segment_size as mpsc_segment_size, word, word_pos, word_seg};
use zc_ring_x1::pool::v1::{header_size, region_size as pool_region_size};
use zc_ring_x1::spsc::v3::{MOVED, SEQ_MASK};
use zc_ring_x1::CACHE_LINE_SIZE;

const LINE: u32 = CACHE_LINE_SIZE as u32;
const THREE: [(u32, u32); 3] = [(LINE, 2), (2 * LINE, 2), (4 * LINE, 2)];
const HEADER: u64 = 4 * CACHE_LINE_SIZE as u64;

#[test]
fn segment_is_header_then_slots() {
    for cap in [1u32, 4, 16] {
        assert_eq!(
            mpsc_segment_size(64, cap),
            3 * CACHE_LINE_SIZE as u64 + 64 * cap as u64
        );
    }
}

#[test]
fn mod_segment_is_header_then_slots() {
    for cap in [1u32, 4, 16] {
        assert_eq!(
            zc_ring_x1::spsc::v3::segment_size(64, cap),
            CACHE_LINE_SIZE as u64 + 64 * cap as u64
        );
        assert_eq!(
            zc_ring_x1::spsc::v4::segment_size(64, cap),
            4 * CACHE_LINE_SIZE as u64 + 64 * cap as u64
        );
        assert_eq!(
            mpsc_segment_size(64, cap),
            3 * CACHE_LINE_SIZE as u64 + 64 * cap as u64
        );
    }
}

#[test]
fn words_pack_segment_over_position() {
    assert_eq!(word_seg(word(31, 5)), 31);
    assert_eq!(word_pos(word(31, 5)), 5);
    assert_eq!(word_pos(word(0, SEQ_MASK + 3)), 2);
    assert_eq!(word(31, SEQ_MASK) & MOVED, 0);
}

#[test]
fn header_sizes() {
    assert_eq!(header_size(1), 2 * CACHE_LINE_SIZE as u64);
    assert_eq!(header_size(3), 4 * CACHE_LINE_SIZE as u64);
    assert_eq!(pool_region_size(&THREE), (4 + 2 + 4 + 8) as u64 * LINE as u64);
}

#[test]
fn region_size_pads_seqs_to_a_line() {
    // 1 to 16 seqs fit one line; 17 needs two.
    assert_eq!(zc_ring_x1::spsc::v1::region_size(64, 1), HEADER + 64 + 64);
    assert_eq!(zc_ring_x1::spsc::v1::region_size(64, 16), HEADER + 64 + 16 * 64);
    assert_eq!(zc_ring_x1::spsc::v1::region_size(64, 32), HEADER + 128 + 32 * 64);
}

#[test]
fn region_is_header_then_slots() {
    for capacity in [1u32, 4, 16, 32] {
        assert_eq!(zc_ring_x1::spsc::v2::region_size(64, capacity), HEADER + 64 * capacity as u64);
    }
}
