use forensic_adb::response::{
    is_cut_failure, read_output, read_response, ReadRequest, ResponseReader, ResponseStep,
};
use forensic_adb::{DeviceError, Result};

/// What the reader makes of a stream, and how much of the stream it leaves.
fn answer(stream: &[u8], has_output: bool, has_length: bool) -> (Option<Result<Vec<u8>>>, usize) {
    traced_answer(stream, has_output, has_length, false)
}

fn traced_answer(
    stream: &[u8],
    has_output: bool,
    has_length: bool,
    traced: bool,
) -> (Option<Result<Vec<u8>>>, usize) {
    let mut reader: ResponseReader = read_response(has_output, has_length, traced);
    let mut rest = stream;
    loop {
        let n = match reader.request() {
            ReadRequest::Exact(n) => n,
            ReadRequest::ToEnd => rest.len(),
        };
        if rest.len() < n {
            return (None, rest.len());
        }
        let bytes = rest[..n].to_vec();
        rest = &rest[n..];
        match reader.supply(bytes) {
            ResponseStep::Continue(next) => reader = next,
            ResponseStep::Done(r) => return (Some(r), rest.len()),
        }
    }
}

fn adb_message(r: Option<Result<Vec<u8>>>) -> String {
    match r {
        Some(Err(DeviceError::Adb(message))) => message,
        other => panic!("{:?}", other),
    }
}

#[test]
fn a_refused_request_is_answered_with_the_message() {
    for (has_output, has_length) in [(false, false), (false, true), (true, false), (true, true)] {
        let (r, left) = answer(b"FAIL000Edevice offlinemore", has_output, has_length);
        assert_eq!(adb_message(r), "adb error: device offline");
        assert_eq!(left, 4);
    }
}

#[test]
fn any_other_status_is_a_refusal() {
    let (r, _) = answer(b"WHAT0002no", true, true);
    assert_eq!(adb_message(r), "adb error: no");
}

#[test]
fn a_long_refusal_is_cut() {
    let mut stream = b"FAIL07D0".to_vec();
    stream.extend_from_slice(&vec![b'x'; 2000]);
    let (r, left) = answer(&stream, false, false);
    assert_eq!(adb_message(r), format!("adb error: {}", "x".repeat(1024)));
    assert_eq!(left, 2000 - 1024);
}

#[test]
fn a_refusal_that_is_not_text() {
    let (r, _) = answer(b"FAIL0001\xff", true, false);
    assert!(matches!(r, Some(Err(DeviceError::Utf8(_)))));
    let (r, _) = answer(b"FAIL00xx", true, false);
    assert!(matches!(r, Some(Err(DeviceError::ParseInt(_)))));
}

#[test]
fn a_stream_that_ends_early() {
    assert!(answer(b"OKA", true, false).0.is_none());
    assert!(answer(b"FAIL00", true, false).0.is_none());
    assert!(answer(b"FAIL0005abc", true, false).0.is_none());
}

#[test]
fn an_accepted_request_without_output_reads_no_further() {
    let (r, left) = answer(b"OKAYleft", false, true);
    assert_eq!(r.unwrap().unwrap(), Vec::<u8>::new());
    assert_eq!(left, 4);
}

#[test]
fn output_to_the_end() {
    let (r, left) = answer(b"OKAYLinux\n", true, false);
    assert_eq!(r.unwrap().unwrap(), b"Linux\n");
    assert_eq!(left, 0);
    let (r, _) = answer(b"OKAY", true, false);
    assert_eq!(r.unwrap().unwrap(), b"");
}

#[test]
fn a_repeated_okay_is_dropped_once() {
    assert_eq!(answer(b"OKAYOKAYLinux\n", true, false).0.unwrap().unwrap(), b"Linux\n");
    assert_eq!(answer(b"OKAYOKAYOKAYx", true, false).0.unwrap().unwrap(), b"OKAYx");
    assert_eq!(answer(b"OKAYOKAY0003abc", true, true).0.unwrap().unwrap(), b"abc");
}

#[test]
fn an_underlying_failure() {
    let (r, _) = answer(b"OKAYFAIL001dlistener 'tcp:3038' not found", true, false);
    assert_eq!(adb_message(r), "adb error: listener 'tcp:3038' not found");
    let (r, _) = answer(b"OKAYOKAYFAIL0004nope", true, true);
    assert_eq!(adb_message(r), "adb error: nope");
    let (r, _) = answer(b"OKAYFAILzzzz\xff", true, true);
    assert!(matches!(r, Some(Err(DeviceError::Utf8(_)))));
}

#[test]
fn a_failure_cut_in_its_head_is_recognised() {
    assert!(is_cut_failure(&b"FAIL".to_vec()));
    assert!(is_cut_failure(&b"OKAYFAIL012".to_vec()));
    assert!(!is_cut_failure(&b"FAIL0004".to_vec()));
    assert!(!is_cut_failure(&b"OKAYFAI".to_vec()));
    assert!(!is_cut_failure(&b"".to_vec()));
}

#[test]
fn output_with_a_length() {
    assert_eq!(answer(b"OKAY0005a,b,c", true, true).0.unwrap().unwrap(), b"a,b,c");
    assert_eq!(answer(b"OKAY0000", true, true).0.unwrap().unwrap(), b"");
    // A length that does not fit the message is let pass.
    assert_eq!(answer(b"OKAY0001abc", true, true).0.unwrap().unwrap(), b"abc");
    assert!(matches!(
        answer(b"OKAYxyz1abc", true, true).0,
        Some(Err(DeviceError::ParseInt(_)))
    ));
}

#[test]
fn output_without_the_expected_length() {
    let (r, _) = answer(b"OKAY", true, true);
    assert_eq!(
        adb_message(r),
        "adb server response did not contain expected hexstring length: \"\""
    );
    let (r, _) = answer(b"OKAYa\"\n", true, true);
    assert_eq!(
        adb_message(r),
        "adb server response did not contain expected hexstring length: \"a\\\"\\n\""
    );
    assert!(matches!(read_output(vec![0xff], true, false), Err(DeviceError::Utf8(_))));
}

#[test]
fn a_framed_answer_has_to_be_text_where_it_is_traced() {
    let framed = b"OKAY0002\xffa";
    assert_eq!(traced_answer(framed, true, true, false).0.unwrap().unwrap(), b"\xffa");
    let error = traced_answer(framed, true, true, true).0.unwrap().unwrap_err();
    assert!(matches!(error, DeviceError::Utf8(_)));
    assert_eq!(
        error.message(),
        std::str::from_utf8(b"\xffa").unwrap_err().to_string()
    );
    assert_eq!(traced_answer(b"OKAY0001a", true, true, true).0.unwrap().unwrap(), b"a");
    // Output without a length is not traced as text.
    assert_eq!(traced_answer(b"OKAY\xff", true, false, true).0.unwrap().unwrap(), b"\xff");
    // A length that is not one is found first.
    assert!(matches!(
        traced_answer(b"OKAYxyz1\xff", true, true, true).0,
        Some(Err(DeviceError::ParseInt(_)))
    ));
}
