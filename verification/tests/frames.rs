use bytes::Bytes;
use resp_codec::cursor::Cursor;
use resp_codec::frame::{chop_until, parse_bulk_str, parse_message, parse_number, FrameError};
use resp_codec::number::{format_decimal, parse_decimal};
use resp_codec::value::Value;

fn bulk(s: &str) -> Value {
    Value::BulkString(Bytes::copy_from_slice(s.as_bytes()))
}

fn decode(input: &[u8]) -> (Result<Value, FrameError>, usize) {
    let mut cursor = Cursor::new(input);
    let r = parse_message(&mut cursor);
    (r, cursor.position())
}

#[test]
fn test_parse_number() {
    let mut cursor = Cursor::new("123\r\n".as_bytes());
    match parse_number(&mut cursor) {
        Ok(num) => {
            if num != 123 {
                panic!("Incorrect number parsed")
            }
        }
        Err(e) => panic!("Parsing failed {e:?}"),
    }
}

#[test]
fn test_parse_bulk_string() {
    let mut cursor = Cursor::new("test_string\r\n".as_bytes());
    let length = cursor.get_ref().len() - 2;
    match parse_bulk_str(&mut cursor, length) {
        Ok(s) => match s {
            Value::BulkString(s) => {
                if s != "test_string".to_owned() {
                    panic!("Strings are not equal")
                }
            }
            _ => panic!("Unexpected value"),
        },
        Err(e) => panic!("Parsing failed {e:?}"),
    }
}

#[test]
fn test_parse_message() {
    let mut cursor = Cursor::new("*2\r\n$4\r\nllen\r\n$6\r\nmylist\r\n".as_bytes());
    let parsed = parse_message(&mut cursor);
    match parsed {
        Ok(m) => {
            if m != Value::Array(vec![
                Value::BulkString("llen".into()),
                Value::BulkString("mylist".into()),
            ]) {
                panic!("Unexpected message");
            }
        }
        Err(e) => panic!("Parsing failed {e:?}"),
    }
}

#[test]
fn parse_number_moves_past_the_line_feed() {
    let mut cursor = Cursor::new(b"123\r\nrest");
    assert_eq!(parse_number(&mut cursor), Ok(123));
    assert_eq!(cursor.position(), 5);
}

#[test]
fn parse_number_reads_from_the_position() {
    let mut cursor = Cursor::new(b"$42\r\n");
    cursor.set_position(1);
    assert_eq!(parse_number(&mut cursor), Ok(42));
    assert_eq!(cursor.position(), 5);
}

#[test]
fn parse_number_without_carriage_return_is_incomplete() {
    for input in [&b""[..], b"1", b"123", b"12a", b"123\n"] {
        let mut cursor = Cursor::new(input);
        assert_eq!(parse_number(&mut cursor), Err(FrameError::Incomplete));
        assert_eq!(cursor.position(), 0);
    }
}

#[test]
fn parse_number_with_carriage_return_last_is_incomplete() {
    let mut cursor = Cursor::new(b"123\r");
    assert_eq!(parse_number(&mut cursor), Err(FrameError::Incomplete));
    assert_eq!(cursor.position(), 0);
}

#[test]
fn parse_number_steps_over_the_byte_after_the_carriage_return() {
    for input in [&b"123\r\n"[..], b"123\rX", b"123\r\r", b"123\r\0", b"123\r\nrest"] {
        let mut cursor = Cursor::new(input);
        assert_eq!(parse_number(&mut cursor), Ok(123));
        assert_eq!(cursor.position(), 5);
    }
    let mut cursor = Cursor::new(b"12\rX");
    assert_eq!(parse_number(&mut cursor), Ok(12));
    assert_eq!(cursor.position(), 4);
}

#[test]
fn parse_number_judges_the_digits_whatever_follows_the_carriage_return() {
    let mut cursor = Cursor::new(b"12a\rX");
    assert_eq!(parse_number(&mut cursor), Err(FrameError::Malformed));
    assert_eq!(cursor.position(), 0);
}

#[test]
fn parse_number_rejects_what_is_no_number() {
    for input in [
        &b"\r\n"[..],
        b"+\r\n",
        b"-1\r\n",
        b"12a\r\n",
        b" 1\r\n",
        b"1 \r\n",
        b"1_0\r\n",
        b"0x10\r\n",
        b"++1\r\n",
        b"1+\r\n",
        b"\xff\r\n",
    ] {
        let mut cursor = Cursor::new(input);
        assert_eq!(parse_number(&mut cursor), Err(FrameError::Malformed));
        assert_eq!(cursor.position(), 0);
    }
}

#[test]
fn parse_number_past_the_end_is_incomplete() {
    let mut cursor = Cursor::new(b"1\r\n");
    cursor.set_position(7);
    assert_eq!(parse_number(&mut cursor), Err(FrameError::Incomplete));
    assert_eq!(cursor.position(), 7);
}

#[test]
fn parse_decimal_takes_sign_and_leading_zeros() {
    assert_eq!(parse_decimal(b"0"), Some(0));
    assert_eq!(parse_decimal(b"7"), Some(7));
    assert_eq!(parse_decimal(b"+7"), Some(7));
    assert_eq!(parse_decimal(b"007"), Some(7));
    assert_eq!(parse_decimal(b"+007"), Some(7));
    assert_eq!(parse_decimal(b"1234567890"), Some(1234567890));
    assert_eq!(parse_decimal(b""), None);
    assert_eq!(parse_decimal(b"+"), None);
    assert_eq!(parse_decimal(b"-7"), None);
    assert_eq!(parse_decimal(b"7+"), None);
    assert_eq!(parse_decimal(b"/"), None);
    assert_eq!(parse_decimal(b":"), None);
}

#[test]
fn parse_decimal_agrees_with_std() {
    let inputs = [
        "0", "1", "9", "10", "99", "100", "+0", "+", "", "00", "18446744073709551615",
        "18446744073709551616", "4294967295", "4294967296", "99999999999999999999999", "1a",
        "a1", "+-1", " 1", "0000000000000000000000000000001",
    ];
    for s in inputs {
        assert_eq!(parse_decimal(s.as_bytes()), s.parse::<usize>().ok(), "{s:?}");
    }
}

#[test]
fn parse_decimal_stops_at_the_largest_usize() {
    let max = usize::MAX.to_string();
    assert_eq!(parse_decimal(max.as_bytes()), Some(usize::MAX));
    let mut over = max.clone().into_bytes();
    let last = over.len() - 1;
    if over[last] < b'9' {
        over[last] += 1;
        assert_eq!(parse_decimal(&over), None);
    }
    let longer = format!("{max}0");
    assert_eq!(parse_decimal(longer.as_bytes()), None);
}

#[test]
fn format_decimal_writes_the_shortest_digits() {
    assert_eq!(format_decimal(0), b"0");
    assert_eq!(format_decimal(9), b"9");
    assert_eq!(format_decimal(10), b"10");
    assert_eq!(format_decimal(11), b"11");
    assert_eq!(format_decimal(1024), b"1024");
    assert_eq!(format_decimal(usize::MAX), usize::MAX.to_string().as_bytes());
}

#[test]
fn format_decimal_reads_back() {
    for n in [0usize, 1, 9, 10, 99, 100, 101, 65535, 65536, usize::MAX - 1, usize::MAX] {
        assert_eq!(parse_decimal(&format_decimal(n)), Some(n));
    }
}

#[test]
fn chop_until_hands_out_the_bytes_before_the_match() {
    let mut cursor = Cursor::new(b"abc;Xrest");
    let chunk = chop_until(&mut cursor, |c| c == ';');
    assert_eq!(chunk, Ok(&b"abc"[..]));
    assert_eq!(cursor.position(), 5);
}

#[test]
fn chop_until_finds_the_first_match() {
    let mut cursor = Cursor::new(b"a;b;c;d");
    cursor.set_position(2);
    assert_eq!(chop_until(&mut cursor, |c| c == ';'), Ok(&b"b"[..]));
    assert_eq!(cursor.position(), 5);
    assert_eq!(chop_until(&mut cursor, |c| c == ';'), Ok(&b""[..]));
    assert_eq!(cursor.position(), 7);
}

#[test]
fn chop_until_leaves_the_last_byte_out() {
    let mut cursor = Cursor::new(b"abc;");
    assert_eq!(chop_until(&mut cursor, |c| c == ';'), Err(FrameError::Incomplete));
    assert_eq!(cursor.position(), 0);
    let mut empty = Cursor::new(b"");
    assert_eq!(chop_until(&mut empty, |c| c == ';'), Err(FrameError::Incomplete));
    assert_eq!(empty.position(), 0);
}

#[test]
fn parse_bulk_str_waits_for_payload_and_terminator() {
    for input in [&b""[..], b"h", b"hey", b"hey\r"] {
        let mut cursor = Cursor::new(input);
        assert_eq!(parse_bulk_str(&mut cursor, 3), Err(FrameError::Incomplete));
        assert_eq!(cursor.position(), 0);
    }
}

#[test]
fn parse_bulk_str_wants_the_terminator() {
    for input in [&b"heyXY"[..], b"hey\rY", b"heyX\n", b"hey\n\r", b"heyyo\r\n"] {
        let mut cursor = Cursor::new(input);
        assert_eq!(parse_bulk_str(&mut cursor, 3), Err(FrameError::Malformed));
        assert_eq!(cursor.position(), 0);
    }
}

#[test]
fn parse_bulk_str_of_the_largest_length_is_incomplete() {
    let mut cursor = Cursor::new(b"hey\r\n");
    cursor.set_position(1);
    assert_eq!(parse_bulk_str(&mut cursor, usize::MAX), Err(FrameError::Incomplete));
    assert_eq!(parse_bulk_str(&mut cursor, usize::MAX - 1), Err(FrameError::Incomplete));
    assert_eq!(cursor.position(), 1);
}

#[test]
fn parse_bulk_str_copies_exactly_the_payload() {
    let mut cursor = Cursor::new(b"xxhey\r\nyy");
    cursor.set_position(2);
    assert_eq!(parse_bulk_str(&mut cursor, 3), Ok(bulk("hey")));
    assert_eq!(cursor.position(), 7);
}

#[test]
fn ping_request_decodes_to_an_array_of_one_bulk_string() {
    let (r, used) = decode(b"*1\r\n$4\r\nPING\r\n");
    assert_eq!(r, Ok(Value::Array(vec![bulk("PING")])));
    assert_eq!(used, 14);
}

#[test]
fn empty_bulk_string_takes_six_bytes() {
    let (r, used) = decode(b"$0\r\n\r\n");
    assert_eq!(r, Ok(bulk("")));
    assert_eq!(used, 6);
}

#[test]
fn empty_bulk_string_waits_for_two_more_bytes() {
    assert_eq!(decode(b"$0\r\n"), (Err(FrameError::Incomplete), 0));
    assert_eq!(decode(b"$0\r\n\r"), (Err(FrameError::Incomplete), 0));
    assert_eq!(decode(b"$0\r\nX"), (Err(FrameError::Incomplete), 0));
}

#[test]
fn empty_bulk_string_steps_over_two_bytes_unread() {
    for input in [&b"$0\r\n\r\n"[..], b"$0\r\nXY", b"$0\r\n\n\r", b"$0\r\n\r\nrest"] {
        let (r, used) = decode(input);
        assert_eq!(r, Ok(bulk("")));
        assert_eq!(used, 6);
    }
    let mut cursor = Cursor::new(b"aXYb");
    cursor.set_position(1);
    assert_eq!(parse_bulk_str(&mut cursor, 0), Ok(bulk("")));
    assert_eq!(cursor.position(), 3);
    let mut short = Cursor::new(b"aX");
    short.set_position(1);
    assert_eq!(parse_bulk_str(&mut short, 0), Err(FrameError::Incomplete));
    assert_eq!(short.position(), 1);
}

#[test]
fn length_line_steps_over_the_byte_after_the_carriage_return() {
    let (r, used) = decode(b"$3\rXhey\r\n");
    assert_eq!(r, Ok(bulk("hey")));
    assert_eq!(used, 9);
    let (r, used) = decode(b"*1\rX$4\rYPING\r\n");
    assert_eq!(r, Ok(Value::Array(vec![bulk("PING")])));
    assert_eq!(used, 14);
    assert_eq!(decode(b"$3\r"), (Err(FrameError::Incomplete), 0));
    assert_eq!(decode(b"$3\rX"), (Err(FrameError::Incomplete), 0));
}

#[test]
fn empty_array_is_valid() {
    let (r, used) = decode(b"*0\r\n");
    assert_eq!(r, Ok(Value::Array(vec![])));
    assert_eq!(used, 4);
}

#[test]
fn empty_input_is_incomplete() {
    assert_eq!(decode(b""), (Err(FrameError::Incomplete), 0));
}

#[test]
fn other_leading_byte_is_malformed() {
    for input in [&b"+OK\r\n"[..], b":1\r\n", b"-ERR\r\n", b"PING\r\n", b"\r\n", b"\0"] {
        assert_eq!(decode(input), (Err(FrameError::Malformed), 0));
    }
}

#[test]
fn bad_length_is_malformed() {
    for input in [
        &b"$x\r\nhey\r\n"[..],
        b"$-1\r\n",
        b"$\r\n\r\n",
        b"*x\r\n",
        b"*-1\r\n",
        b"$x\rXhey\r\n",
        b"$99999999999999999999999999\r\nhey\r\n",
    ] {
        assert_eq!(decode(input), (Err(FrameError::Malformed), 0));
    }
}

#[test]
fn truncated_ping_is_incomplete_until_the_rest_arrives() {
    let mut buffer = b"*1\r\n$4\r\nPI".to_vec();
    assert_eq!(decode(&buffer), (Err(FrameError::Incomplete), 0));
    buffer.extend_from_slice(b"NG\r\n");
    assert_eq!(decode(&buffer), (Ok(Value::Array(vec![bulk("PING")])), 14));
}

#[test]
fn payload_may_hold_terminators() {
    let (r, used) = decode(b"$8\r\na\r\nb\r\n\r\n\r\n");
    assert_eq!(r, Ok(Value::BulkString(Bytes::from_static(b"a\r\nb\r\n\r\n"))));
    assert_eq!(used, 14);
}

#[test]
fn arrays_nest() {
    let (r, used) = decode(b"*3\r\n$1\r\na\r\n*2\r\n*0\r\n$0\r\n\r\n$2\r\nbc\r\n");
    let expected = Value::Array(vec![
        bulk("a"),
        Value::Array(vec![Value::Array(vec![]), bulk("")]),
        bulk("bc"),
    ]);
    assert_eq!(r, Ok(expected));
    assert_eq!(used, 33);
}

#[test]
fn failure_inside_an_array_leaves_the_cursor_at_the_start() {
    let mut cursor = Cursor::new(b"xx*2\r\n$1\r\na\r\n?");
    cursor.set_position(2);
    assert_eq!(parse_message(&mut cursor), Err(FrameError::Malformed));
    assert_eq!(cursor.position(), 2);
    let mut short = Cursor::new(b"xx*2\r\n$1\r\na\r\n$1");
    short.set_position(2);
    assert_eq!(parse_message(&mut short), Err(FrameError::Incomplete));
    assert_eq!(short.position(), 2);
}

#[test]
fn decoding_stops_after_one_frame() {
    let input = b"$1\r\na\r\n$1\r\nb\r\n";
    let mut cursor = Cursor::new(input);
    assert_eq!(parse_message(&mut cursor), Ok(bulk("a")));
    assert_eq!(cursor.position(), 7);
    assert_eq!(parse_message(&mut cursor), Ok(bulk("b")));
    assert_eq!(cursor.position(), 14);
    assert_eq!(parse_message(&mut cursor), Err(FrameError::Incomplete));
    assert_eq!(cursor.position(), 14);
}

#[test]
fn every_proper_prefix_of_a_frame_is_incomplete() {
    let frames: [&[u8]; 6] = [
        b"$0\r\n\r\n",
        b"$11\r\nhello_world\r\n",
        b"*0\r\n",
        b"*1\r\n$4\r\nPING\r\n",
        b"*2\r\n$4\r\necho\r\n$3\r\nhey\r\n",
        b"*2\r\n*1\r\n$2\r\n\r\n\r\n$+03\r\na\rb\r\n",
    ];
    for frame in frames {
        let (whole, used) = decode(frame);
        assert!(whole.is_ok());
        assert_eq!(used, frame.len());
        for cut in 0..frame.len() {
            assert_eq!(decode(&frame[..cut]), (Err(FrameError::Incomplete), 0), "cut at {cut}");
            let mut two_reads = frame[..cut].to_vec();
            two_reads.extend_from_slice(&frame[cut..]);
            let (again, used_again) = decode(&two_reads);
            assert!(again == whole);
            assert_eq!(used_again, frame.len());
        }
    }
}

#[test]
fn frames_in_a_row_come_out_one_by_one() {
    let frames: [&[u8]; 4] =
        [b"*1\r\n$4\r\nPING\r\n", b"$0\r\n\r\n", b"*0\r\n", b"$3\r\nhey\r\n"];
    let buffer: Vec<u8> = frames.concat();
    let mut cursor = Cursor::new(&buffer);
    let mut last = 0;
    let mut total = 0;
    for frame in frames {
        let alone = decode(frame).0;
        assert!(parse_message(&mut cursor) == alone);
        assert!(cursor.position() > last);
        assert_eq!(cursor.position() - last, frame.len());
        last = cursor.position();
        total += frame.len();
    }
    assert_eq!(last, total);
    assert_eq!(last, buffer.len());
}

#[test]
fn broken_frames_stay_broken_when_more_arrives() {
    let broken: [&[u8]; 6] = [
        b"?",
        b"$x\r\n",
        b"$+\rX",
        b"$3\r\nheyXY",
        b"*2\r\n$1\r\na\r\n:1\r\n",
        b"*1\r\n*1\r\n$1\r\na\r!",
    ];
    let more: [&[u8]; 4] = [b"", b"\r\n", b"$3\r\nhey\r\n", b"*0\r\n\r\n\r\n"];
    for start in broken {
        assert_eq!(decode(start), (Err(FrameError::Malformed), 0));
        for tail in more {
            let mut longer = start.to_vec();
            longer.extend_from_slice(tail);
            assert_eq!(decode(&longer), (Err(FrameError::Malformed), 0));
        }
    }
}

#[test]
fn whole_frames_stay_what_they_are_when_more_arrives() {
    let frames: [&[u8]; 3] = [b"$3\r\nhey\r\n", b"*0\r\n", b"*1\r\n$4\r\nPING\r\n"];
    let more: [&[u8]; 4] = [b"?", b"\r\n", b"$3\r\nhey\r\n", b"*5\r\n"];
    for frame in frames {
        let alone = decode(frame);
        for tail in more {
            let mut longer = frame.to_vec();
            longer.extend_from_slice(tail);
            assert!(decode(&longer) == alone);
        }
    }
}

#[test]
fn frames_decode_alike_wherever_they_stand() {
    let frame = b"*2\r\n$4\r\necho\r\n$3\r\nhey\r\n";
    let (alone, used) = decode(frame);
    for lead in [&b""[..], b"x", b"\r\n\r\n", b"$3\r\nhey\r\n"] {
        let mut buffer = lead.to_vec();
        buffer.extend_from_slice(frame);
        buffer.extend_from_slice(b"trailing");
        let mut cursor = Cursor::new(&buffer);
        cursor.set_position(lead.len());
        assert!(parse_message(&mut cursor) == alone);
        assert_eq!(cursor.position(), lead.len() + used);
    }
}
