use eter_prisma::dsp::conv::PartitionedConv;

#[test]
fn capacity_is_ceil_of_max_kernel_over_block() {
    assert_eq!(PartitionedConv::new(256, 4096).max_parts(), 16);
    assert_eq!(PartitionedConv::new(256, 4097).max_parts(), 17);
    assert_eq!(PartitionedConv::new(256, 1).max_parts(), 1);
    assert_eq!(PartitionedConv::new(256, 0).max_parts(), 1);
    assert_eq!(PartitionedConv::new(1, 10).max_parts(), 10);
}

#[test]
fn new_convolver_has_no_kernel() {
    let c = PartitionedConv::new(512, 1 << 18);
    assert_eq!(c.block(), 512);
    assert_eq!(c.parts(), 0);
}

#[test]
fn kernel_of_3000_taps_in_blocks_of_256() {
    // B = 256 and a 3000-tap kernel, as when comparing against direct convolution
    let mut c = PartitionedConv::new(256, 4096);
    assert_eq!(c.set_kernel(3000), 12);
    assert_eq!(c.parts(), 12);
    assert_eq!(c.partition_span(0), (0, 256));
    assert_eq!(c.partition_span(1), (256, 512));
    assert_eq!(c.partition_span(11), (2816, 3000));
}

#[test]
fn kernel_longer_than_capacity_is_truncated() {
    let mut c = PartitionedConv::new(256, 1024);
    assert_eq!(c.set_kernel(3000), 4);
    assert_eq!(c.partition_span(3), (768, 1024));
}

#[test]
fn exact_multiple_and_empty_kernel() {
    let mut c = PartitionedConv::new(256, 4096);
    assert_eq!(c.set_kernel(512), 2);
    assert_eq!(c.partition_span(1), (256, 512));
    assert_eq!(c.set_kernel(0), 0);
    assert_eq!(c.set_kernel(1), 1);
    assert_eq!(c.partition_span(0), (0, 1));
}

#[test]
fn partitions_tile_the_kernel() {
    for (block, max_kernel) in [(1usize, 7usize), (4, 16), (4, 17), (256, 4096), (64, 100)] {
        for len in [0usize, 1, 3, 4, 5, 15, 16, 17, 63, 64, 65, 99, 100, 101, 3000, 5000] {
            let mut c = PartitionedConv::new(block, max_kernel);
            let parts = c.set_kernel(len);
            let covered = len.min(c.max_parts() * block);
            let mut next = 0;
            for p in 0..parts {
                let (a, b) = c.partition_span(p);
                assert_eq!(a, next);
                assert_eq!(a, p * block);
                assert!(a < b && b - a <= block);
                next = b;
            }
            assert_eq!(next, covered);
        }
    }
}

#[test]
fn set_kernel_keeps_block_and_capacity() {
    let mut c = PartitionedConv::new(128, 1000);
    c.set_kernel(300);
    assert_eq!(c.block(), 128);
    assert_eq!(c.max_parts(), 8);
}
