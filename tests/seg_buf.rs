use recorder::seg_buf::{CapAllocator, SegBuf};

fn segs(buf: &mut SegBuf) -> Vec<Vec<u8>> {
    buf.split().into_segments()
}

#[test]
fn test_seg_buf_basic() {
    const CAP: usize = 10;
    let mut buf = SegBuf::with_alloc(CapAllocator(CAP));
    assert_eq!(segs(&mut buf), vec![Vec::<u8>::new()]);

    buf.put_u64(88);
    assert_eq!(segs(&mut buf), vec![88_u64.to_be_bytes().to_vec()]);

    buf.put_u16(99);
    assert_eq!(segs(&mut buf), vec![99_u16.to_be_bytes().to_vec(), vec![]]);
    assert!(buf.to_vec().is_empty());

    buf.put_u64(11);
    buf.put_u64(12);
    assert_eq!(
        segs(&mut buf),
        vec![
            [&11_u64.to_be_bytes()[..], &12_u64.to_be_bytes()[..2]].concat(),
            12_u64.to_be_bytes()[2..].to_vec(),
        ]
    );

    buf.clear();

    buf.put_slice(&[1, 2, 3, 4, 5, 6, 7]);
    buf.put_slice(&[11, 12, 13, 14, 15, 16, 17]);
    let list = buf.split();
    assert_eq!(list.to_vec(), vec![1, 2, 3, 4, 5, 6, 7, 11, 12, 13, 14, 15, 16, 17]);
    let (init, last) = list.into_parts().unwrap();
    assert_eq!(init, vec![vec![1, 2, 3, 4, 5, 6, 7, 11, 12, 13_u8]]);
    assert_eq!(&last[..], &[14, 15, 16, 17]);

    buf.clear();
    assert_eq!(segs(&mut buf), vec![Vec::<u8>::new()]);

    let full: Vec<u8> = (1..=CAP).map(|x| x as u8).collect();

    buf.put_slice(&full);
    assert_eq!(segs(&mut buf), vec![full.clone(), vec![]]);

    buf.put_slice(&full);
    buf.put_slice(&full);
    assert_eq!(segs(&mut buf), vec![full.clone(), full.clone(), vec![]]);

    buf.put_slice(&[100, 101, 102]);
    buf.put_slice(&full[..CAP - 3]);
    assert_eq!(segs(&mut buf), vec![[&[100, 101, 102][..], &full[..CAP - 3]].concat(), vec![]]);
}

#[test]
fn test_seg_buf_cursor() {
    let mut buf = SegBuf::with_alloc(CapAllocator(10));
    buf.put_slice(&[1, 2, 3]);

    let cursor = buf.cursor();
    buf.put_slice(&[4, 5, 6, 7, 8, 9, 10, 11]);
    buf.write_at(&cursor, &[34, 35, 36, 37]);

    assert_eq!(segs(&mut buf), vec![vec![1, 2, 3, 34, 35, 36, 37, 8, 9, 10], vec![11]]);

    buf.clear();
    buf.put_slice(&[1, 2, 3]);

    let cursor = buf.cursor();
    buf.put_slice(&[4, 5, 6, 7, 8, 9, 10, 11]);
    buf.write_at(&cursor, &[34, 35, 36, 37, 38, 39, 40, 41]);

    assert_eq!(segs(&mut buf), vec![vec![1, 2, 3, 34, 35, 36, 37, 38, 39, 40], vec![41]]);
}

#[test]
fn test_seg_buf_rbuf() {
    let mut buf = SegBuf::with_alloc(CapAllocator(10));
    buf.put_slice(&[1, 2, 3]);
    buf.put_slice(&[4, 5, 6, 7, 8, 9, 10, 11]);

    let data1 = buf.split();
    let data2 = &[1, 2, 3, 4, 5, 6, 7, 8, 9, 10, 11_u8];
    assert_eq!(data1.len(), data2.len());
    assert_eq!(data1.to_vec(), data2.to_vec());
}

#[test]
fn test_seg_buf_put_limit() {
    {
        let mut buf = SegBuf::with_alloc(CapAllocator(10));
        let mut src = &[1, 2, 3, 4, 5, 6, 7, 8, 9, 10, 11_u8][..];
        let n = buf.put_limit(src, 5);
        src = &src[n..];
        assert_eq!(segs(&mut buf), vec![vec![1, 2, 3, 4, 5]]);
        assert_eq!(src, &[6, 7, 8, 9, 10, 11_u8]);
    }

    {
        let mut buf = SegBuf::with_alloc(CapAllocator(10));
        let mut src = &[1, 2, 3, 4, 5, 6, 7, 8, 9, 10, 11, 12, 13, 14, 15, 16, 17, 18, 19, 20, 21, 22, 23, 24_u8][..];
        let n = buf.put_limit(src, 12);
        src = &src[n..];
        assert_eq!(segs(&mut buf), vec![vec![1, 2, 3, 4, 5, 6, 7, 8, 9, 10], vec![11, 12]]);
        assert_eq!(src, &[13, 14, 15, 16, 17, 18, 19, 20, 21, 22, 23, 24_u8]);
    }

    {
        let mut buf = SegBuf::with_alloc(CapAllocator(10));
        let mut src = &[1, 2, 3, 4, 5, 6, 7, 8, 9, 10, 11, 12, 13, 14, 15, 16, 17, 18, 19, 20, 21, 22, 23, 24_u8][..];
        let n = buf.put_limit(src, 22);
        src = &src[n..];
        assert_eq!(
            segs(&mut buf),
            vec![vec![1, 2, 3, 4, 5, 6, 7, 8, 9, 10], vec![11, 12, 13, 14, 15, 16, 17, 18, 19, 20], vec![21, 22]]
        );
        assert_eq!(src, &[23, 24_u8]);
    }

    {
        let mut buf = SegBuf::with_alloc(CapAllocator(10));
        buf.put_slice(&[1, 2, 3]);
        let mut src = &[4, 5, 6, 7, 8, 9, 10, 11_u8][..];
        let n = buf.put_limit(src, 5);
        src = &src[n..];
        assert_eq!(src, &[9, 10, 11_u8]);
        assert_eq!(segs(&mut buf), vec![vec![1, 2, 3, 4, 5, 6, 7, 8]]);
    }

    {
        let mut buf = SegBuf::with_alloc(CapAllocator(10));
        buf.put_slice(&[1, 2, 3]);
        let mut src = &[4, 5, 6, 7, 8, 9_u8][..];
        let n = buf.put_limit(src, 15);
        src = &src[n..];
        assert_eq!(src, &[0_u8][..0]);
        assert_eq!(segs(&mut buf), vec![vec![1, 2, 3, 4, 5, 6, 7, 8, 9]]);
    }
}

#[test]
fn seg_buf_len_counts_split_bytes() {
    let mut buf = SegBuf::with_alloc(CapAllocator(4));
    buf.put_slice(&[1, 2, 3, 4, 5]);
    assert_eq!(buf.num_segs(), 2);
    let c = buf.cursor();
    assert_eq!(buf.len_from_cursor(&c), 0);
    buf.put_u8(6);
    assert_eq!(buf.len_from_cursor(&c), 1);
    assert_eq!(buf.split().len(), 6);
    assert_eq!(buf.len(), 6);
    buf.put_slice(&[7, 8]);
    assert_eq!(buf.to_vec(), vec![7, 8]);
}
