use hackbot::device::{echo_reply, SharedResponse, EINVAL};

#[test]
fn nothing_to_read_before_a_response() {
    let r = SharedResponse::new();
    assert_eq!(r.read(0, 100), Ok(&b""[..]));
    assert_eq!(r.read(-1, 100), Ok(&b""[..]));
}

#[test]
fn reads_walk_through_the_response() {
    let mut r = SharedResponse::new();
    r.store(b"hello world");
    assert!(r.ready);
    assert_eq!(r.read(0, 5), Ok(&b"hello"[..]));
    assert_eq!(r.read(5, 100), Ok(&b" world"[..]));
    assert_eq!(r.read(11, 10), Ok(&b""[..]));
    assert_eq!(r.read(50, 10), Ok(&b""[..]));
    assert_eq!(r.read(3, 0), Ok(&b""[..]));
    assert_eq!(r.read(-2, 10), Err(EINVAL));
}

#[test]
fn long_responses_are_clipped_to_the_buffer() {
    let mut r = SharedResponse::new();
    r.store(&vec![b'z'; 70_000]);
    assert_eq!(r.data.len(), 65536);
    assert_eq!(r.read(65530, 100).map(|b| b.len()), Ok(6));
    r.store(b"short");
    assert_eq!(r.read(0, 100), Ok(&b"short"[..]));
}

#[test]
fn first_step_device_echoes() {
    assert_eq!(echo_reply(b"ping\n"), b"[hackbot] I received: ping\n".to_vec());
    assert_eq!(echo_reply(b"ping"), b"[hackbot] I received: ping\n".to_vec());
    assert_eq!(echo_reply(b""), b"[hackbot] I received: \n".to_vec());
}
