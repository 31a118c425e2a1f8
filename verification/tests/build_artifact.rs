use rust_os::BOOT_IMAGE_PATH;

#[test]
fn boot_image_path_points_to_bin_image() {
    assert_eq!(BOOT_IMAGE_PATH, "bin/hello-boot.img");
}
