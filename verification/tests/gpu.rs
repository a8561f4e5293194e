use voxels::gpu::{concat_slices, pixel_buffer_size, BYTES_PER_PIXEL};

#[test]
fn pixel_buffer_holds_four_singles_for_each_pixel() {
    assert_eq!(BYTES_PER_PIXEL as usize, 4 * std::mem::size_of::<f32>());
    assert_eq!(pixel_buffer_size(0, 0), 0);
    assert_eq!(pixel_buffer_size(1, 1), 16);
    assert_eq!(pixel_buffer_size(1920, 1080), 33_177_600);
    assert_eq!(pixel_buffer_size(16_384, 16_383), 4_294_705_152);
}

#[test]
fn concat_slices_joins_in_order() {
    let a = [1u8, 2, 3];
    let b: [u8; 0] = [];
    let c = [4u8];
    let d = [5u8, 6];
    assert_eq!(concat_slices(&[&a[..], &b[..], &c[..], &d[..]]), vec![1, 2, 3, 4, 5, 6]);
    assert_eq!(concat_slices(&[]), Vec::<u8>::new());
    assert_eq!(concat_slices(&[&b[..]]), Vec::<u8>::new());
    assert_eq!(concat_slices(&[&d[..], &a[..]]), vec![5, 6, 1, 2, 3]);
}
