use squirrel_json::de::simd::{ActiveMask, Block};

#[test]
fn active_mask_has_correct_repr() {
    assert_eq!(0isize, ActiveMask::Interest as isize);
    assert_eq!(1isize, ActiveMask::Quote as isize);
}

#[test]
fn block_offset_is_32_bytes() {
    assert_eq!(32, Block::Avx2.size());
    assert_eq!(32, squirrel_json::de::simd::BLOCK_SIZE);
    assert_eq!(160, Block::Avx2.vectorization_threshold());
}

#[test]
fn block_offset_is_8_bytes() {
    assert_eq!(8, Block::Neon.size());
    assert_eq!(40, Block::Neon.vectorization_threshold());
}

#[test]
fn x86_64_block_offset_is_32_bytes() {
    assert_eq!(32, Block::Avx2.size());
    assert_eq!(32, squirrel_json::unescape::simd::BLOCK_SIZE);
}

#[test]
fn aarch64_block_offset_is_8_bytes() {
    assert_eq!(8, Block::Neon.size());

    // a string of more than eight bytes is unescaped by blocks of eight
    assert_eq!(
        "1234567\n\\",
        squirrel_json::unescape::unescape_trusted_blocks("1234567\\n\\\\", Block::Neon)
    );
}
