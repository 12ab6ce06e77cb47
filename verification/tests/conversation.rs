use forensic_adb::conversation::{hold, Turn};
use forensic_adb::response::{announced_length, ReadRequest};
use forensic_adb::{AndroidStorageInput, Device, DeviceError, Exchange, Host, Result};

fn device() -> Device {
    Device::with_tempfile(
        Host::default(),
        "emu".to_string(),
        AndroidStorageInput::Auto,
        "temp",
    )
}

/// What is sent, how the conversation ends, and what is left of the stream;
/// nothing ends where the stream ends first.
fn held(script: Vec<Exchange>, incoming: &[u8]) -> (Vec<String>, Option<Result<Vec<u8>>>, usize) {
    let mut sent = Vec::new();
    let mut rest = incoming;
    let mut turn = hold(script, false);
    loop {
        match turn {
            Turn::Send(bytes, next) => {
                sent.push(String::from_utf8(bytes).unwrap());
                turn = next.sent();
            }
            Turn::Read(request, next) => {
                let n = match request {
                    ReadRequest::Exact(n) => n,
                    ReadRequest::ToEnd => rest.len(),
                };
                if rest.len() < n || !next.accepts(&rest[..n].to_vec()) {
                    return (sent, None, rest.len());
                }
                let bytes = rest[..n].to_vec();
                rest = &rest[n..];
                turn = next.read(bytes);
            }
            Turn::Over(r) => return (sent, Some(r), rest.len()),
        }
    }
}

#[test]
fn a_command_follows_the_accepted_request_for_the_device() {
    let script = device().execute_host_shell_command("uname");
    let (sent, end, _) = held(script, b"OKAYOKAYLinux\n");
    assert_eq!(sent, vec!["0012host:transport:emu", "000Bshell:uname"]);
    assert_eq!(end.unwrap().unwrap(), b"Linux\n");
}

#[test]
fn a_refused_request_for_the_device_ends_the_conversation() {
    let script = device().execute_host_shell_command("uname");
    let (sent, end, left) = held(script, b"FAIL0016device 'emu' not foundmore");
    assert_eq!(sent, vec!["0012host:transport:emu"]);
    assert_eq!(end.unwrap().unwrap_err().message(), "adb error: device 'emu' not found");
    assert_eq!(left, 4);
}

#[test]
fn a_refused_command() {
    let script = device().execute_host_shell_command("uname");
    let (sent, end, _) = held(script, b"OKAYFAIL0006closed");
    assert_eq!(sent.len(), 2);
    assert_eq!(end.unwrap().unwrap_err().message(), "adb error: closed");
}

#[test]
fn a_command_that_is_too_long_is_not_sent() {
    let script = device().execute_host_shell_command(&"x".repeat(65536));
    let (sent, end, _) = held(script, b"OKAYOKAY");
    assert_eq!(sent, vec!["0012host:transport:emu"]);
    assert!(matches!(end, Some(Err(DeviceError::FromInt(_)))));
    let script = device().execute_host_shell_command(&"x".repeat(65536));
    let (_, end, _) = held(script, b"FAIL0002no");
    assert_eq!(end.unwrap().unwrap_err().message(), "adb error: no");
}

#[test]
fn a_conversation_without_output_leaves_the_stream() {
    let (script, _) = device().pull(&forensic_adb::UnixPath::new("/a"));
    let (sent, end, left) = held(script, b"OKAYOKAYDATA");
    assert_eq!(sent[..2], ["0012host:transport:emu", "0005sync:"]);
    assert_eq!(sent.len(), 3);
    assert_eq!(end.unwrap().unwrap(), b"");
    assert_eq!(left, 4);

    let (script, _) = device().pull(&forensic_adb::UnixPath::new("/a"));
    let (sent, end, _) = held(script, b"OKAYFAIL0002no");
    assert_eq!(sent.len(), 2);
    assert_eq!(end.unwrap().unwrap_err().message(), "adb error: no");
}

#[test]
fn a_stream_that_ends_leaves_the_conversation_open() {
    assert!(held(device().force_stop("x"), b"OKAYOK").1.is_none());
    assert!(held(device().force_stop("x"), b"OKAYOKAYFAIL00").1.is_none());
    let (sent, end, _) = held(Vec::new(), b"");
    assert!(sent.is_empty());
    assert_eq!(end.unwrap().unwrap(), b"");
}

#[test]
fn the_announced_length() {
    assert_eq!(announced_length(&b"0003abc".to_vec()), Some((3, 3)));
    assert_eq!(announced_length(&b"OKAY00ffabc".to_vec()), Some((255, 3)));
    assert_eq!(announced_length(&b"abc".to_vec()), None);
    assert_eq!(announced_length(&b"wxyzabc".to_vec()), None);
    assert_eq!(announced_length(&b"FAIL0003abc".to_vec()), None);
}

#[test]
fn a_wrong_length_is_noticed() {
    let reading = |script: Vec<Exchange>| match hold(script, false) {
        Turn::Send(_, next) => match next.sent() {
            Turn::Read(ReadRequest::Exact(4), next) => match next.read(b"OKAY".to_vec()) {
                Turn::Read(ReadRequest::ToEnd, next) => next,
                other => panic!("{:?}", other),
            },
            other => panic!("{:?}", other),
        },
        other => panic!("{:?}", other),
    };
    let framed = reading(Host::default().devices());
    assert_eq!(framed.wrong_length(&b"0001abc".to_vec()), Some((1, 3)));
    assert_eq!(framed.wrong_length(&b"0003abc".to_vec()), None);
    let plain = reading(Host::default().execute_command("x", true, false));
    assert_eq!(plain.wrong_length(&b"0001abc".to_vec()), None);
}

#[test]
fn tracing_asks_for_text() {
    let end = |traced: bool| match hold(Host::default().devices(), traced) {
        Turn::Send(_, next) => match next.sent() {
            Turn::Read(_, next) => match next.read(b"OKAY".to_vec()) {
                Turn::Read(_, next) => match next.read(b"0001\xff".to_vec()) {
                    Turn::Over(r) => r,
                    other => panic!("{:?}", other),
                },
                other => panic!("{:?}", other),
            },
            other => panic!("{:?}", other),
        },
        other => panic!("{:?}", other),
    };
    assert_eq!(end(false).unwrap(), b"\xff");
    assert!(matches!(end(true), Err(DeviceError::Utf8(_))));
}
