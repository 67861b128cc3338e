use resp_parser::{Buffer, Error, Message, RespParser};

fn parse_all(data: &[u8]) -> Result<Option<Message>, Error> {
    let mut buffer = Buffer::new(256);
    buffer.write(data).unwrap();
    RespParser::new().parse(&mut buffer)
}

fn parse_in_chunks(data: &[u8], chunk: usize) -> Result<Option<Message>, Error> {
    let mut buffer = Buffer::new(64);
    let mut parser = RespParser::new();
    let mut last = Ok(None);
    for piece in data.chunks(chunk) {
        buffer.write(piece).unwrap();
        last = parser.parse(&mut buffer);
        if !matches!(last, Ok(None)) {
            break;
        }
    }
    last
}

#[test]
fn overflow_after_filling() {
    let capacity = 8;
    for n in 0..=capacity {
        let mut buffer = Buffer::new(capacity);
        assert_eq!(buffer.write(&vec![b'x'; n]), Ok(n));
        assert_eq!(buffer.write(&vec![b'y'; capacity - n + 1]), Err(Error::Overflow));
        assert_eq!(buffer.len(), n);
    }
}

#[test]
fn write_fits_exactly() {
    let mut buffer = Buffer::new(4);
    assert_eq!(buffer.write(b"ab"), Ok(2));
    assert_eq!(buffer.write(b"cd"), Ok(2));
    assert_eq!(buffer.len(), 4);
    assert_eq!(buffer.capacity(), 4);
    assert_eq!(buffer.write(b""), Ok(0));
}

#[test]
fn chunked_delivery_matches_single_chunk() {
    let messages: [&[u8]; 6] = [
        b"+baka for you\r\n",
        b":-42\r\n",
        b"$5\r\nojbk\n\r\n",
        b"*2\r\n$1\r\na\r\n$5\r\nojbk\n\r\n",
        b"*2\r\n*1\r\n:7\r\n+ok\r\n",
        b"$-1\r\n",
    ];
    for data in messages.iter() {
        let whole = parse_all(data);
        assert!(matches!(whole, Ok(Some(_))));
        for chunk in 1..data.len() {
            assert_eq!(parse_in_chunks(data, chunk), whole);
        }
    }
}

#[test]
fn idle_parse_waits() {
    let mut buffer = Buffer::new(32);
    let mut parser = RespParser::new();
    buffer.write(b"+hel").unwrap();
    assert_eq!(parser.parse(&mut buffer), Ok(None));
    let held = buffer.len();
    assert_eq!(parser.parse(&mut buffer), Ok(None));
    assert_eq!(parser.parse(&mut buffer), Ok(None));
    assert_eq!(buffer.len(), held);
    buffer.write(b"lo\r\n").unwrap();
    assert_eq!(
        parser.parse(&mut buffer),
        Ok(Some(Message::SimpleString(b"hello".to_vec())))
    );
    assert_eq!(buffer.len(), 0);
}

#[test]
fn empty_buffer_gives_nothing() {
    assert_eq!(parse_all(b""), Ok(None));
}

#[test]
fn missing_carriage_return_is_malformed() {
    assert_eq!(parse_all(b"+baka\n"), Err(Error::ContentWrong));
    assert_eq!(parse_all(b"-boy\n"), Err(Error::ContentWrong));
    assert_eq!(parse_all(b"+\n"), Err(Error::ContentWrong));
}

#[test]
fn bad_bulk_terminator_is_malformed() {
    assert_eq!(parse_all(b"$2\r\nabcd"), Err(Error::ContentWrong));
}

#[test]
fn bad_digit_is_malformed() {
    assert_eq!(parse_all(b":12a\r\n"), Err(Error::ContentWrong));
    assert_eq!(parse_all(b"*-1\r\n"), Err(Error::ContentWrong));
}

#[test]
fn integer_too_large_is_malformed() {
    assert_eq!(parse_all(b":99999999999999999999\r\n"), Err(Error::ContentWrong));
    assert_eq!(
        parse_all(b":9223372036854775807\r\n"),
        Ok(Some(Message::Integer(9223372036854775807)))
    );
}

#[test]
fn negative_integer() {
    assert_eq!(parse_all(b":-1024\r\n"), Ok(Some(Message::Integer(-1024))));
}

#[test]
fn null_and_empty_bulk() {
    assert_eq!(parse_all(b"$-1\r\n"), Ok(Some(Message::Bulk(None))));
    assert_eq!(parse_all(b"$0\r\n"), Ok(Some(Message::Bulk(Some(vec![])))));
}

#[test]
fn empty_and_nested_arrays() {
    assert_eq!(parse_all(b"*0\r\n"), Ok(Some(Message::Array(vec![]))));
    assert_eq!(
        parse_all(b"*2\r\n*1\r\n:7\r\n+ok\r\n"),
        Ok(Some(Message::Array(vec![
            Message::Array(vec![Message::Integer(7)]),
            Message::SimpleString(b"ok".to_vec()),
        ])))
    );
}

#[test]
fn inline_drops_its_first_byte() {
    assert_eq!(parse_all(b"PING\r\n"), Ok(Some(Message::Inline(b"ING".to_vec()))));
}

#[test]
fn one_message_per_call() {
    let mut buffer = Buffer::new(64);
    let mut parser = RespParser::new();
    buffer.write(b":1\r\n:2\r\n").unwrap();
    assert_eq!(parser.parse(&mut buffer), Ok(Some(Message::Integer(1))));
    assert_eq!(parser.parse(&mut buffer), Ok(Some(Message::Integer(2))));
    assert_eq!(parser.parse(&mut buffer), Ok(None));
}

#[test]
fn ring_wraps_around() {
    let mut buffer = Buffer::new(10);
    let mut parser = RespParser::new();
    for round in 0..20i64 {
        let text = format!(":{}\r\n", round);
        buffer.write(text.as_bytes()).unwrap();
        assert_eq!(parser.parse(&mut buffer), Ok(Some(Message::Integer(round))));
    }
}

#[test]
fn malformed_input_leaves_no_scan() {
    let mut buffer = Buffer::new(32);
    let mut parser = RespParser::new();
    buffer.write(b":1x\r\n:5\r\n").unwrap();
    assert_eq!(parser.parse(&mut buffer), Err(Error::ContentWrong));
    assert_eq!(buffer.unscanned_len(), buffer.len());
}

#[test]
fn buffer_scan_and_pop() {
    let mut buffer = Buffer::new(4);
    buffer.write(b"abc").unwrap();
    assert_eq!(buffer.next(), Some(b'a'));
    assert_eq!(buffer.consume(5), 2);
    assert_eq!(buffer.next(), None);
    assert_eq!(buffer.pop_scanned_buffer(), b"abc".to_vec());
    buffer.write(b"defg").unwrap();
    assert_eq!(buffer.calc_index(0), 3);
    assert_eq!(buffer.calc_index(2), 1);
    assert_eq!(buffer.consume(2), 2);
    assert_eq!(buffer.pop_scanned_buffer(), b"de".to_vec());
    assert_eq!(buffer.unscanned_len(), 2);
}

#[test]
fn ring_slice_splits_at_the_end() {
    let data = [1u8, 2, 3, 4, 5];
    let (first, second) = resp_parser::buffer::ring_slice(&data, 3, 4);
    assert_eq!(first, &[4, 5]);
    assert_eq!(second, &[1, 2]);
    let (first, second) = resp_parser::buffer::ring_slice(&data, 1, 2);
    assert_eq!(first, &[2, 3]);
    assert!(second.is_empty());
}

#[test]
fn mut_ring_slice_wraps() {
    let mut data = vec![0u8; 5];
    resp_parser::buffer::mut_ring_slice(&mut data, 3, &[7, 8, 9]);
    assert_eq!(data, vec![9, 0, 0, 7, 8]);
}

#[test]
fn integer_minimum_and_just_past_maximum() {
    assert_eq!(
        parse_all(b":-9223372036854775808\r\n"),
        Ok(Some(Message::Integer(i64::MIN)))
    );
    assert_eq!(parse_all(b":9223372036854775808\r\n"), Err(Error::ContentWrong));
    assert_eq!(parse_all(b":-9223372036854775809\r\n"), Err(Error::ContentWrong));
}
