use recorder::header::{Header, Type, MAX_RECORD_LEN};
use recorder::tag_buf::TagBuf;
use recorder::tag_value::{TagRef, ValueError, ValueRef};

#[test]
fn test_tag_value() {
    {
        let mut buf = TagBuf::new();
        buf.begin_tag(Type::magic());
        buf.append_len_value("magic123".as_bytes());
        buf.append_len_value("desc456".as_bytes());
        buf.finish();

        let data: Vec<u8> = buf.split().to_vec();
        let (tag, _) = TagRef::parse_slice(&data[..]).unwrap();
        assert_eq!(tag.rtype(), Type::magic());
        assert_eq!(tag.value().as_ustr2().unwrap(), ("magic123", "desc456"));
    }

    {
        let mut buf = TagBuf::new();
        buf.begin_tag(Type::magic());
        buf.append_len_value("magic123".as_bytes());
        buf.append_len_value("desc456".as_bytes());

        buf.begin_tag(Type::custom());
        buf.append_fixed_i64(123_i64);

        buf.begin_tag(Type::custom());
        buf.append_fixed_i64(456_i64);
        buf.append_last("last321".as_bytes());

        let data: Vec<u8> = buf.to_vec();
        let data = &data[..];

        let data = {
            let (tag, data) = TagRef::parse_slice(&data[..]).unwrap();
            assert_eq!(tag.rtype(), Type::magic());
            assert_eq!(tag.value().as_ustr2().unwrap(), ("magic123", "desc456"));
            data
        };

        let data = {
            let (tag, data) = TagRef::parse_slice(&data[..]).unwrap();
            assert_eq!(tag.rtype(), Type::custom());
            assert_eq!(tag.value().as_i64().unwrap(), 123_i64);
            data
        };

        let data = {
            let (tag, data) = TagRef::parse_slice(&data[..]).unwrap();
            assert_eq!(tag.rtype(), Type::custom());
            assert_eq!(tag.value().as_i64_str().unwrap(), (456_i64, "last321"));
            data
        };

        assert!(data.is_empty(), "data.len {}", data.len());
    }
}

fn build_data(begin: usize, end: usize) -> Vec<u8> {
    let mut vec = Vec::new();
    for n in begin..end {
        vec.push(n as u8);
    }
    vec
}

#[test]
fn test_tag_value_big() {
    {
        let max_len = MAX_RECORD_LEN + 100;
        let value = build_data(0, max_len);

        let mut buf = TagBuf::new();
        buf.begin_tag(Type::magic());
        buf.append_last(&value);

        let data: Vec<u8> = buf.split().to_vec();
        let mut pos = 0;

        let data = {
            let (tag, data) = TagRef::parse_slice(&data[..]).unwrap();
            assert_eq!(tag.rtype(), Type::magic());
            assert_eq!(tag.value().as_slice(), build_data(pos, pos + MAX_RECORD_LEN));
            pos += MAX_RECORD_LEN;
            data
        };

        let data = {
            let (tag, data) = TagRef::parse_slice(&data[..]).unwrap();
            assert_eq!(tag.rtype(), Type::magic());
            assert_eq!(tag.value().as_slice(), build_data(pos, pos + 100));
            pos += 100;
            data
        };

        assert!(data.is_empty(), "data.len {}", data.len());
        assert_eq!(pos, max_len);
    }

    {
        let max_len = MAX_RECORD_LEN + 100;
        let value = build_data(0, max_len);

        let mut buf = TagBuf::new();
        buf.begin_tag(Type::magic());
        buf.append_fixed_i64(123_i64);
        buf.append_last(&value);

        let data: Vec<u8> = buf.split().to_vec();
        let mut pos = 0;

        let data = {
            let (tag, data) = TagRef::parse_slice(&data[..]).unwrap();
            assert_eq!(tag.rtype(), Type::magic());
            let mut value = tag.value();
            assert_eq!(value.cut_i64().unwrap(), 123_i64);
            assert_eq!(value.as_slice(), build_data(pos, pos + MAX_RECORD_LEN - 8));
            pos += MAX_RECORD_LEN - 8;
            data
        };

        let data = {
            let (tag, data) = TagRef::parse_slice(&data[..]).unwrap();
            assert_eq!(tag.rtype(), Type::magic());
            assert_eq!(tag.value().as_slice(), build_data(pos, max_len));
            pos = max_len;
            data
        };

        assert!(data.is_empty(), "data.len {}", data.len());
        assert_eq!(pos, max_len);
    }
}

#[test]
fn oversize_value_of_twice_the_limit_gives_two_full_records() {
    let value = build_data(0, 2 * MAX_RECORD_LEN);
    let mut buf = TagBuf::new();
    buf.begin_tag(Type::custom());
    buf.append_last(&value);
    let data = buf.split().to_vec();
    let (t1, rest) = TagRef::parse_slice(&data).unwrap();
    let (t2, rest) = TagRef::parse_slice(rest).unwrap();
    assert!(rest.is_empty());
    assert_eq!(t1.value().as_slice().len(), MAX_RECORD_LEN);
    assert_eq!(t2.value().as_slice().len(), MAX_RECORD_LEN);
    assert!(!t1.is_last());
    assert!(!t2.is_last());
    assert_eq!([t1.value().as_slice(), t2.value().as_slice()].concat(), value);
}

#[test]
fn header_bytes_and_parse() {
    let h = Header(Type::new(20), 0x01_02_03);
    assert_eq!(h.to_bytes(), [20, 1, 2, 3]);
    assert_eq!(Header::try_parse(&[20, 1, 2, 3, 9]), Some((Type::new(20), 0x01_02_03)));
    assert_eq!(Header::try_parse(&[20, 1, 2]), None);
    assert!(Type::new(15).is_build_in());
    assert!(!Type::new(16).is_build_in());
    assert!(Type::debug().is_debug_data());
    assert_ne!(Type::debug(), Type::file_end());
}

#[test]
fn parse_slice_rejects_truncated_record() {
    assert!(TagRef::parse_slice(&[5, 0, 0, 3, 1, 2]).is_err());
    assert!(TagRef::parse_slice(&[5, 0, 0]).is_err());
    let (tag, rest) = TagRef::parse_slice(&[5, 0, 0, 2, 1, 2, 9]).unwrap();
    assert_eq!(tag.rtype().value(), 5);
    assert_eq!(tag.value().as_slice(), &[1, 2]);
    assert_eq!(tag.full_len(), 6);
    assert_eq!(rest, &[9]);
}

#[test]
fn value_fields_and_errors() {
    let data = [0u8, 0, 0, 0, 0, 0, 0, 7, 1, 0x01, 0x02, 3, b'a', b'b', b'c', 0xAC, 0x02, 3];
    let mut v = ValueRef::new(&data);
    assert_eq!(v.cut_u64(), Ok(7));
    assert_eq!(v.cut_bool(), Ok(true));
    assert_eq!(v.cut_u16(), Ok(0x0102));
    assert_eq!(v.cut_str(), Ok("abc"));
    assert_eq!(v.cut_var_u64(), Ok(300));
    assert_eq!(v.cut_var_i64(), Ok(-2));
    assert_eq!(v.cut_u8(), Err(ValueError::TooShort));

    let neg = (-5i64).to_be_bytes();
    assert_eq!(ValueRef::new(&neg).as_i64(), Ok(-5));
    assert_eq!(ValueRef::new(&[0u8; 9]).as_i64(), Err(ValueError::Trailing));
    assert_eq!(ValueRef::new(&[0u8; 3]).as_i64(), Err(ValueError::TooShort));
    assert_eq!(ValueRef::new(&[0xFF, 0xFE]).as_str(), Err(ValueError::BadUtf8));
    assert_eq!(ValueRef::new(&[5, 1]).cut_unit(), Err(ValueError::BadVarint));
    assert_eq!(ValueRef::new(&[1, 1, 1, 2, 0]).as_units2(), Err(ValueError::Trailing));
    assert_eq!(ValueRef::new(&[1, 9, 2, 7, 8]).as_units2(), Ok((&[9u8][..], &[7u8, 8][..])));
}

#[test]
fn units_are_counted_and_walked() {
    let data = [1u8, 9, 0, 2, 7, 8];
    let units = ValueRef::new(&data).as_units().unwrap();
    assert_eq!(units.num(), 3);
    let mut it = units.iter();
    assert_eq!(it.next(), Some(&[9u8][..]));
    assert_eq!(it.next(), Some(&[][..]));
    assert_eq!(it.next(), Some(&[7u8, 8][..]));
    assert_eq!(it.next(), None);
    assert!(ValueRef::new(&[2u8, 1]).as_units().is_err());
}
