use split_ordered::bits::{
    is_valid_key, make_content_key, make_sentinel_key, parent_bucket, HI_BIT,
};

#[test]
fn hi_bit_is_the_top_bit() {
    assert_eq!(HI_BIT, 1u64 << 63);
}

#[test]
fn valid_keys_lie_below_the_top_bit() {
    assert!(is_valid_key(0));
    assert!(is_valid_key(HI_BIT - 1));
    assert!(!is_valid_key(HI_BIT));
    assert!(!is_valid_key(u64::MAX));
}

#[test]
fn sentinel_key_is_the_reversed_bucket() {
    assert_eq!(make_sentinel_key(0), 0);
    assert_eq!(make_sentinel_key(1), 1 << 63);
    assert_eq!(make_sentinel_key(2), 1 << 62);
    assert_eq!(make_sentinel_key(3), 3 << 62);
    assert_eq!(make_sentinel_key(0b110), 0b011 << 61);
}

#[test]
fn content_key_is_the_reversed_key_with_low_bit() {
    assert_eq!(make_content_key(0), 1);
    assert_eq!(make_content_key(1), (1 << 63) | 1);
    assert_eq!(make_content_key(5), (0b101 << 61) | 1);
    assert_eq!(make_content_key(HI_BIT - 1), u64::MAX);
}

#[test]
fn parent_clears_the_highest_set_bit() {
    assert_eq!(parent_bucket(0, 2), 0);
    assert_eq!(parent_bucket(1, 2), 0);
    assert_eq!(parent_bucket(2, 4), 0);
    assert_eq!(parent_bucket(3, 4), 1);
    assert_eq!(parent_bucket(6, 8), 2);
    assert_eq!(parent_bucket(6, 1024), 2);
    assert_eq!(parent_bucket(0b1011_0001, 256), 0b0011_0001);
    assert_eq!(parent_bucket(HI_BIT - 1, HI_BIT), (HI_BIT >> 1) - 1);
}

#[test]
fn entry_sorts_behind_its_bucket_and_before_the_next() {
    for size in [2u64, 4, 8, 16] {
        for key in 0..64u64 {
            let bucket = key % size;
            assert!(make_sentinel_key(bucket) < make_content_key(key));
        }
    }
    for bucket in 1..64u64 {
        let parent = parent_bucket(bucket, 64);
        assert!(make_sentinel_key(parent) < make_sentinel_key(bucket));
    }
}
