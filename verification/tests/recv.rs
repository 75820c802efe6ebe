use fastwebsockets::recv::{SharedRecv, RECV_SIZE};

#[test]
fn buffer_is_allocated_once() {
    let mut r = SharedRecv::null();
    r.init();
    r.get_mut()[0] = 42;
    r.init();
    let buf = r.get_mut();
    assert_eq!(buf.len(), RECV_SIZE);
    assert_eq!(buf[0], 42);
    assert_eq!(buf[1], 0);
}
