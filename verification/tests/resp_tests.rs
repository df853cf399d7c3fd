use bytes::BytesMut;
use resp_codec::Resp;
use resp_codec::RespCodec;
use resp_codec::RespError;
use resp_codec::RESP_ARRAY;
use resp_codec::RESP_BULK;
use resp_codec::RESP_ERROR;
use resp_codec::RESP_INT;
use resp_codec::RESP_STRING;

#[test]
fn test_resp_parse_plain() {
    let sdata = "+baka for you\r\n";
    let resp = Resp::parse(sdata.as_bytes()).unwrap();
    assert_eq!(RESP_STRING, resp.rtype);
    assert_eq!(Some(b"baka for you".to_vec()), resp.data);

    let edata = "-boy next door\r\n";
    let resp = Resp::parse(edata.as_bytes()).unwrap();
    assert_eq!(RESP_ERROR, resp.rtype);
    assert_eq!(Some(b"boy next door".to_vec()), resp.data);

    let idata = ":1024\r\n";
    let resp = Resp::parse(idata.as_bytes()).unwrap();
    assert_eq!(RESP_INT, resp.rtype);
    assert_eq!(Some(b"1024".to_vec()), resp.data);
}

#[test]
fn test_resp_parse_bulk_ok() {
    let data = "$5\r\nojbK\n\r\n";
    let resp = Resp::parse(data.as_bytes()).unwrap();
    assert_eq!(RESP_BULK, resp.rtype);
    assert_eq!(Some(b"ojbK\n".to_vec()), resp.data);
}

#[test]
fn test_resp_parse_array_ok() {
    let data = "*2\r\n$1\r\na\r\n$5\r\nojbK\n\r\n";
    let resp = Resp::parse(data.as_bytes()).unwrap();
    assert_eq!(RESP_ARRAY, resp.rtype);
    assert_eq!(Some(b"2".to_vec()), resp.data);
    assert_eq!(2, resp.array.as_ref().unwrap().len());
}

#[test]
fn test_resp_parse_write_array_the_same_ok() {
    let data = "*2\r\n$1\r\na\r\n$5\r\nojbK\n\r\n";
    let resp = Resp::parse(data.as_bytes()).unwrap();
    assert_eq!(RESP_ARRAY, resp.rtype);
    assert_eq!(Some(b"2".to_vec()), resp.data);
    assert_eq!(2, resp.array.as_ref().unwrap().len());
    let mut buf = BytesMut::with_capacity(100);
    resp.write(&mut buf).unwrap();
    let rbuf = buf.freeze();
    assert_eq!(data.as_bytes(), &rbuf);
}

#[test]
fn need_more_data_on_short_input() {
    assert_eq!(Err(RespError::MoreData), Resp::parse(b"").map(|_| ()));
    assert_eq!(Err(RespError::MoreData), Resp::parse(b"$5\r\noj").map(|_| ()));
    assert_eq!(Err(RespError::MoreData), Resp::parse(b"+abc").map(|_| ()));
    assert_eq!(Err(RespError::MoreData), Resp::parse(b"*2\r\n$1\r\na\r\n").map(|_| ()));
    assert_eq!(Err(RespError::MoreData), Resp::parse(b"+\n").map(|_| ()));
}

#[test]
fn unknown_marker_is_an_error_not_a_crash() {
    let r = Resp::parse(b"#5\r\nojbK\n\r\n");
    assert_eq!(Err(RespError::UnknownMessageKind), r.map(|_| ()));
}

#[test]
fn malformed_length_fields() {
    assert_eq!(Err(RespError::MalformedLength), Resp::parse(b"$x\r\nhello\r\n").map(|_| ()));
    assert_eq!(Err(RespError::MalformedLength), Resp::parse(b"$-2\r\n").map(|_| ()));
    assert_eq!(Err(RespError::MalformedLength), Resp::parse(b"$05\r\nhello\r\n").map(|_| ()));
    assert_eq!(Err(RespError::MalformedLength), Resp::parse(b"*+2\r\n").map(|_| ()));
    assert_eq!(Err(RespError::MalformedLength), Resp::parse(b"$\n").map(|_| ()));
    assert_eq!(
        Err(RespError::MalformedLength),
        Resp::parse(b"$99999999999999999999999999\r\n").map(|_| ()),
    );
}

#[test]
fn null_bulk_round_trip() {
    let resp = Resp::parse(b"$-1\r\n").unwrap();
    assert_eq!(RESP_BULK, resp.rtype);
    assert_eq!(None, resp.data);
    assert!(resp.array.is_none());
    let mut buf = BytesMut::with_capacity(16);
    let n = resp.write(&mut buf).unwrap();
    assert_eq!(5, n);
    assert_eq!(b"$-1\r\n", buf.as_ref());
}

#[test]
fn null_array_round_trip() {
    let resp = Resp::parse(b"*-1\r\n").unwrap();
    assert_eq!(RESP_ARRAY, resp.rtype);
    assert_eq!(None, resp.data);
    assert!(resp.array.is_none());
    let mut buf = BytesMut::with_capacity(16);
    let n = resp.write(&mut buf).unwrap();
    assert_eq!(5, n);
    assert_eq!(b"*-1\r\n", buf.as_ref());
}

#[test]
fn empty_bulk_and_empty_array_are_not_null() {
    let resp = Resp::parse(b"$0\r\n\r\n").unwrap();
    assert_eq!(Some(Vec::new()), resp.data);
    assert_eq!(6, resp.binary_size());

    let resp = Resp::parse(b"*0\r\n").unwrap();
    assert_eq!(Some(b"0".to_vec()), resp.data);
    assert_eq!(0, resp.array.as_ref().unwrap().len());
    assert_eq!(4, resp.binary_size());
}

#[test]
fn binary_size_matches_consumed_bytes() {
    let cases: [&[u8]; 6] = [
        b"+ok\r\n",
        b":1024\r\n",
        b"$5\r\nojbK\n\r\n",
        b"*2\r\n$1\r\na\r\n$5\r\nojbK\n\r\n",
        b"$-1\r\n",
        b"*1\r\n*1\r\n$1\r\nx\r\n",
    ];
    for data in cases.iter() {
        let resp = Resp::parse(data).unwrap();
        assert_eq!(data.len(), resp.binary_size());
        assert_eq!(Some(data.len()), resp.checked_binary_size());
    }
}

#[test]
fn round_trip_nested_array() {
    let data = b"*2\r\n*1\r\n$1\r\nx\r\n*3\r\n:1\r\n:2\r\n:3\r\n";
    let resp = Resp::parse(data).unwrap();
    let mut buf = BytesMut::with_capacity(64);
    let n = resp.write(&mut buf).unwrap();
    assert_eq!(data.len(), n);
    assert_eq!(&data[..], buf.as_ref());
}

#[test]
fn trailing_bytes_are_ignored() {
    let resp = Resp::parse(b"+ok\r\n:42\r\n").unwrap();
    assert_eq!(RESP_STRING, resp.rtype);
    assert_eq!(Some(b"ok".to_vec()), resp.data);
    assert_eq!(5, resp.binary_size());
}

#[test]
fn digit_count_agreement() {
    let mut samples: Vec<usize> = vec![0, 1, 5, 9, 10, 11, 99, 100, 101, 999, 1000, 9999, 12345];
    let mut n: usize = 1;
    while n < usize::MAX / 10 {
        n *= 10;
        samples.push(n - 1);
        samples.push(n);
        samples.push(n + 1);
    }
    samples.push(usize::MAX);
    for &n in samples.iter() {
        let expected = n.to_string().len();
        assert_eq!(expected, Resp::ascii_len(n));
        let mut buf = BytesMut::with_capacity(32);
        let written = Resp::write_len(&mut buf, n).unwrap();
        assert_eq!(expected, written);
        assert_eq!(n.to_string().as_bytes(), buf.as_ref());
    }
}

#[test]
fn new_plain_and_write() {
    let resp = Resp::new_plain(RESP_STRING, Some(b"PONG".to_vec()));
    let mut buf = BytesMut::with_capacity(16);
    let n = resp.write(&mut buf).unwrap();
    assert_eq!(7, n);
    assert_eq!(b"+PONG\r\n", buf.as_ref());
}

#[test]
fn new_array_derives_count() {
    let a = Resp::new_plain(RESP_BULK, Some(b"a".to_vec()));
    let b = Resp::new_plain(RESP_BULK, Some(b"bb".to_vec()));
    let arr = Resp::new_array(Some(vec![a, b]));
    assert_eq!(RESP_ARRAY, arr.rtype);
    assert_eq!(Some(b"2".to_vec()), arr.data);
    let mut buf = BytesMut::with_capacity(32);
    arr.write(&mut buf).unwrap();
    assert_eq!(b"*2\r\n$1\r\na\r\n$2\r\nbb\r\n", buf.as_ref());

    let null_arr = Resp::new_array(None);
    assert_eq!(None, null_arr.data);
    assert!(null_arr.array.is_none());
}

#[test]
fn write_rejects_invariant_violations() {
    let broken = Resp::new_plain(RESP_STRING, None);
    let mut buf = BytesMut::with_capacity(16);
    assert_eq!(Err(RespError::InvariantViolation), broken.write(&mut buf).map(|_| ()));
    assert_eq!(0, buf.len());
    assert_eq!(None, broken.checked_binary_size());
}

#[test]
fn cmd_bytes_of_request_array() {
    let resp = Resp::parse(b"*2\r\n$3\r\nGET\r\n$3\r\nfoo\r\n").unwrap();
    assert_eq!(b"GET", resp.cmd_bytes().unwrap());

    let scalar = Resp::parse(b"+ok\r\n").unwrap();
    assert_eq!(Err(RespError::InvariantViolation), scalar.cmd_bytes().map(|_| ()));

    let empty = Resp::parse(b"*0\r\n").unwrap();
    assert_eq!(Err(RespError::InvariantViolation), empty.cmd_bytes().map(|_| ()));
}

#[test]
fn get_indexes_array_elements() {
    let resp = Resp::parse(b"*2\r\n$1\r\na\r\n$5\r\nojbK\n\r\n").unwrap();
    let first = resp.get(0).unwrap().unwrap();
    assert_eq!(Some(b"a".to_vec()), first.data);
    assert!(resp.get(2).unwrap().is_none());

    let scalar = Resp::parse(b"+ok\r\n").unwrap();
    assert_eq!(Err(RespError::InvariantViolation), scalar.get(0).map(|_| ()));
}

#[test]
fn codec_decode_consumes_exactly_one_message() {
    let mut codec = RespCodec {};
    let mut buf = BytesMut::with_capacity(64);
    buf.extend_from_slice(b"+ok\r\n:42\r\n");
    let first = codec.decode(&mut buf).unwrap().unwrap();
    assert_eq!(RESP_STRING, first.rtype);
    assert_eq!(b":42\r\n", buf.as_ref());
    let second = codec.decode(&mut buf).unwrap().unwrap();
    assert_eq!(RESP_INT, second.rtype);
    assert_eq!(Some(b"42".to_vec()), second.data);
    assert_eq!(0, buf.len());
}

#[test]
fn codec_decode_incremental_chunks() {
    let data: &[u8] = b"*2\r\n$1\r\na\r\n$5\r\nojbK\n\r\n";
    let whole = Resp::parse(data).unwrap();

    let mut codec = RespCodec {};
    let mut buf = BytesMut::with_capacity(64);
    let mut fed = 0;
    let decoded = loop {
        match codec.decode(&mut buf).unwrap() {
            Some(resp) => break resp,
            None => {
                assert!(fed < data.len(), "parser kept asking past the full message");
                buf.extend_from_slice(&data[fed..fed + 1]);
                fed += 1;
            }
        }
    };
    assert_eq!(0, buf.len());

    let mut once = BytesMut::with_capacity(64);
    let mut chunked = BytesMut::with_capacity(64);
    whole.write(&mut once).unwrap();
    decoded.write(&mut chunked).unwrap();
    assert_eq!(once.as_ref(), chunked.as_ref());
    assert_eq!(data, once.as_ref());
}

#[test]
fn codec_decode_propagates_fatal_errors() {
    let mut codec = RespCodec {};
    let mut buf = BytesMut::with_capacity(16);
    buf.extend_from_slice(b"#oops\r\n");
    assert_eq!(Err(RespError::UnknownMessageKind), codec.decode(&mut buf).map(|_| ()));
    assert_eq!(b"#oops\r\n", buf.as_ref());

    let mut buf = BytesMut::with_capacity(16);
    buf.extend_from_slice(b"$-7\r\n");
    assert_eq!(Err(RespError::MalformedLength), codec.decode(&mut buf).map(|_| ()));
}

#[test]
fn codec_encode_appends() {
    let mut codec = RespCodec {};
    let mut buf = BytesMut::with_capacity(32);
    buf.extend_from_slice(b"+first\r\n");
    let resp = Resp::parse(b":7\r\n").unwrap();
    codec.encode(resp, &mut buf).unwrap();
    assert_eq!(b"+first\r\n:7\r\n", buf.as_ref());

    let broken = Resp::new_plain(RESP_INT, None);
    assert_eq!(Err(RespError::InvariantViolation), codec.encode(broken, &mut buf).map(|_| ()));
    assert_eq!(b"+first\r\n:7\r\n", buf.as_ref());
}

#[test]
fn line_payload_may_contain_carriage_returns() {
    let data = b"+a\rb\r\n";
    let resp = Resp::parse(data).unwrap();
    assert_eq!(Some(b"a\rb".to_vec()), resp.data);
    let mut buf = BytesMut::with_capacity(16);
    assert_eq!(data.len(), resp.write(&mut buf).unwrap());
    assert_eq!(&data[..], buf.as_ref());
}

#[test]
fn bulk_payload_is_length_delimited() {
    let data = b"$12\r\nhello\r\nworld\r\n";
    let resp = Resp::parse(data).unwrap();
    assert_eq!(Some(b"hello\r\nworld".to_vec()), resp.data);
    assert_eq!(data.len(), resp.binary_size());
}

#[test]
fn get_mut_allows_element_replacement() {
    let mut resp = Resp::parse(b"*2\r\n$1\r\na\r\n$1\r\nb\r\n").unwrap();
    {
        let slot = resp.get_mut(0).unwrap().unwrap();
        *slot = Resp::new_plain(RESP_BULK, Some(b"z".to_vec()));
    }
    let mut buf = BytesMut::with_capacity(32);
    resp.write(&mut buf).unwrap();
    assert_eq!(b"*2\r\n$1\r\nz\r\n$1\r\nb\r\n", buf.as_ref());
    assert!(resp.get_mut(5).unwrap().is_none());

    let mut scalar = Resp::parse(b"+ok\r\n").unwrap();
    assert!(scalar.get_mut(0).is_err());
}

#[test]
fn clone_is_deep() {
    let resp = Resp::parse(b"*2\r\n$1\r\na\r\n$5\r\nojbK\n\r\n").unwrap();
    let copy = resp.clone();
    let mut b1 = BytesMut::with_capacity(32);
    let mut b2 = BytesMut::with_capacity(32);
    resp.write(&mut b1).unwrap();
    copy.write(&mut b2).unwrap();
    assert_eq!(b1.as_ref(), b2.as_ref());
}
