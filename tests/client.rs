use fswww::client::{img_request, kill, parse_reply, Reply};
use fswww::resize::Filter;

#[test]
fn kill_request_bytes() {
    assert_eq!(kill(), b"__KILL__".to_vec());
}

#[test]
fn image_request_lines() {
    let msg = img_request(Filter::Nearest, b"HDMI-1,eDP-1", b"/tmp/a.png");
    assert_eq!(msg, b"__IMG__\nNearest\nHDMI-1,eDP-1\n/tmp/a.png\n".to_vec());
}

#[test]
fn replies_are_read() {
    assert_eq!(parse_reply(b"Ok\n"), Reply::Done(Vec::new()));
    assert_eq!(parse_reply(b"Ok\nHDMI-1: 4x1\n"), Reply::Done(b"HDMI-1: 4x1\n".to_vec()));
    assert_eq!(parse_reply(b"Err\nbad image"), Reply::Failed(b"bad image".to_vec()));
    assert_eq!(parse_reply(b"Er"), Reply::Malformed);
    assert_eq!(parse_reply(b""), Reply::Malformed);
}
