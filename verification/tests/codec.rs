use miniredis::encoding::{
    encode_response_as_simple_string, encode_value, err_unknown, null_bulk, to_bulk_string,
    to_list_of_bulk_strings,
};
use miniredis::response::{decode_frame, DecodeOutcome, RespParser, Value};

fn s(bytes: &[u8]) -> Value {
    Value::String(bytes.to_vec())
}

#[test]
fn decodes_simple_string() {
    let (out, n) = decode_frame(b"+OK\r\n");
    match out {
        DecodeOutcome::Complete(v) => assert_eq!(v, s(b"OK")),
        _ => panic!("expected a complete frame"),
    }
    assert_eq!(n, 5);
}

#[test]
fn decodes_bulk_string() {
    let (out, n) = decode_frame(b"$5\r\nhello\r\n");
    match out {
        DecodeOutcome::Complete(v) => assert_eq!(v, s(b"hello")),
        _ => panic!("expected a complete frame"),
    }
    assert_eq!(n, 11);
}

#[test]
fn decodes_array() {
    let (out, n) = decode_frame(b"*2\r\n$4\r\nECHO\r\n$5\r\nhello\r\n");
    match out {
        DecodeOutcome::Complete(v) => {
            assert_eq!(v, Value::Array(vec![s(b"ECHO"), s(b"hello")]));
        }
        _ => panic!("expected a complete frame"),
    }
    assert_eq!(n, 25);
}

#[test]
fn zero_length_bulk_decodes_and_round_trips() {
    let (out, n) = decode_frame(b"$0\r\n\r\n");
    let v = match out {
        DecodeOutcome::Complete(v) => v,
        _ => panic!("expected a complete frame"),
    };
    assert_eq!(v, s(b""));
    assert_eq!(n, 6);
    let encoded = encode_value(&v);
    assert_eq!(encoded, b"$0\r\n\r\n".to_vec());
    let (again, m) = decode_frame(&encoded);
    match again {
        DecodeOutcome::Complete(w) => assert_eq!(w, v),
        _ => panic!("expected a complete frame"),
    }
    assert_eq!(m, encoded.len());
}

#[test]
fn empty_array_decodes_and_round_trips() {
    let (out, n) = decode_frame(b"*0\r\n");
    let v = match out {
        DecodeOutcome::Complete(v) => v,
        _ => panic!("expected a complete frame"),
    };
    assert_eq!(v, Value::Array(vec![]));
    assert_eq!(n, 4);
    let encoded = encode_value(&v);
    assert_eq!(encoded, b"*0\r\n".to_vec());
    let (again, m) = decode_frame(&encoded);
    match again {
        DecodeOutcome::Complete(w) => assert_eq!(w, v),
        _ => panic!("expected a complete frame"),
    }
    assert_eq!(m, encoded.len());
}

#[test]
fn nested_value_round_trips() {
    let v = Value::Array(vec![
        s(b"hello"),
        Value::Array(vec![s(b""), s(b"nested")]),
        s(b"world"),
    ]);
    let encoded = encode_value(&v);
    let (out, n) = decode_frame(&encoded);
    match out {
        DecodeOutcome::Complete(w) => assert_eq!(w, v),
        _ => panic!("expected a complete frame"),
    }
    assert_eq!(n, encoded.len());
}

#[test]
fn null_bulk_frame_is_recognized() {
    let (out, n) = decode_frame(b"$-1\r\n");
    assert!(matches!(out, DecodeOutcome::NullFrame));
    assert_eq!(n, 5);
}

#[test]
fn incomplete_frames_ask_for_more() {
    for case in [
        &b"*2\r\n$3\r\nfoo"[..],
        b"+pending",
        b"$10\r\nshort\r\n",
        b"*1\r\n",
        b"",
    ] {
        let (out, n) = decode_frame(case);
        assert!(matches!(out, DecodeOutcome::Incomplete));
        assert_eq!(n, 0);
    }
}

#[test]
fn malformed_frames_are_rejected() {
    for case in [
        &b"?hello\r\n"[..],
        b"$3x\r\nfoo\r\n",
        b"$3\r\nfooXY",
        b"*-1\r\n",
        b"*1\r\n$-1\r\n",
    ] {
        let (out, n) = decode_frame(case);
        assert!(matches!(out, DecodeOutcome::Malformed), "case {:?}", case);
        assert_eq!(n, 0);
    }
}

#[test]
fn parser_reports_value_and_cursor() {
    let buf = b"+PING\r\ntrailing";
    let mut parser = RespParser::new(buf);
    let (value, pos) = parser.parse();
    assert_eq!(value, Some(s(b"PING")));
    assert_eq!(pos, 7);
}

#[test]
fn bulk_string_framing_is_exact() {
    assert_eq!(to_bulk_string(b"val"), b"$3\r\nval\r\n".to_vec());
    assert_eq!(to_bulk_string(b""), b"$0\r\n\r\n".to_vec());
}

#[test]
fn bulk_list_framing_is_exact() {
    let items = vec![b"dir".to_vec(), b"/tmp".to_vec()];
    assert_eq!(
        to_list_of_bulk_strings(&items),
        b"*2\r\n$3\r\ndir\r\n$4\r\n/tmp\r\n".to_vec()
    );
    let empty: Vec<Vec<u8>> = vec![];
    assert_eq!(to_list_of_bulk_strings(&empty), b"*0\r\n".to_vec());
}

#[test]
fn simple_string_framing_is_exact() {
    assert_eq!(
        encode_response_as_simple_string(b"PONG"),
        b"+PONG\r\n".to_vec()
    );
}

#[test]
fn sentinel_replies_are_exact() {
    assert_eq!(null_bulk(), b"$-1\r\n".to_vec());
    assert_eq!(err_unknown(), b"-ERR unknown command\r\n".to_vec());
}

#[test]
fn long_bulk_length_lines_are_malformed() {
    let (out, _) = decode_frame(b"$99999999999999999999999999\r\nx\r\n");
    assert!(matches!(out, DecodeOutcome::Malformed));
}
