use aegeri::channel::{channel_poll_step, channel_reply, written_prefix_len};

#[test]
fn negative_status_is_an_error() {
    assert_eq!(channel_reply(-5, 3), Err(-5));
    assert_eq!(channel_reply(0, 3), Ok((0, 3)));
    assert_eq!(channel_reply(2, 7), Ok((2, 7)));
}

#[test]
fn polling_stops_on_error_or_completion() {
    assert_eq!(channel_poll_step(Err(-1)), Some(Err(-1)));
    assert_eq!(channel_poll_step(Ok((0, 12))), Some(Ok((0, 12))));
    assert_eq!(channel_poll_step(Ok((1, 12))), None);
}

#[test]
fn written_prefix_is_bounded_by_the_buffer() {
    assert_eq!(written_prefix_len(4, 8), Ok(4));
    assert_eq!(written_prefix_len(8, 8), Ok(8));
    assert_eq!(written_prefix_len(9, 8), Err(-2));
}
