use kernel::memory::Frame;

#[test]
fn frame_of_an_address() {
    let frame = Frame::containing_address(0x5123);
    assert_eq!(frame.number(), 5);
    assert_eq!(frame.start_address(), 0x5000);
}
