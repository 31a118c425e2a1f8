use rust_os::HELLO_WORLD;

#[test]
fn framebuffer_console_visible_message_matches_spec() {
    assert_eq!(HELLO_WORLD, "hello world");
}
