use rust_os::{DEFAULT_OVMF_CODE, RUN_MISSING_FIRMWARE_ERROR, RUN_MISSING_IMAGE_ERROR};

#[test]
fn default_firmware_path_matches_plan() {
    assert_eq!(DEFAULT_OVMF_CODE, "/usr/local/share/qemu/edk2-x86_64-code.fd");
}

#[test]
fn run_errors_name_their_fix() {
    assert!(RUN_MISSING_IMAGE_ERROR.contains("make build"));
    assert!(RUN_MISSING_FIRMWARE_ERROR.contains("OVMF_CODE"));
}
