use recorder::inorder::{u16_extend, RtpInorderBuf, RtpOrder, U16Extender};

#[test]
fn test_rtp_order_buf() {
    let mut buf = RtpInorderBuf::new(3);
    assert_eq!(buf.pushpop(1, ()), None);
    assert_eq!(buf.pushpop(2, ()), None);
    assert_eq!(buf.pushpop(3, ()), Some((RtpOrder::Normal(1), ())));
    assert_eq!(buf.pushpop(4, ()), Some((RtpOrder::Normal(2), ())));
    assert_eq!(buf.pop(), Some((RtpOrder::Normal(3), ())));
    assert_eq!(buf.pop(), Some((RtpOrder::Normal(4), ())));
    assert_eq!(buf.pop(), None);

    let mut buf = RtpInorderBuf::new(5);
    assert_eq!(buf.pushpop(1, ()), None);
    assert_eq!(buf.pushpop(3, ()), None);
    assert_eq!(buf.pushpop(4, ()), None);
    assert_eq!(buf.pushpop(5, ()), None);
    assert_eq!(buf.pushpop(6, ()), Some((RtpOrder::Normal(1), ())));
    assert_eq!(buf.pushpop(7, ()), Some((RtpOrder::Lost(1, 3), ())));
    assert_eq!(buf.pushpop(8, ()), Some((RtpOrder::Normal(4), ())));
    assert_eq!(buf.pushpop(9, ()), Some((RtpOrder::Normal(5), ())));
    assert_eq!(buf.pushpop(10, ()), Some((RtpOrder::Normal(6), ())));
    assert_eq!(buf.pushpop(2, ()), None);
    assert_eq!(buf.pushpop(15, ()), Some((RtpOrder::Normal(7), ())));
    assert_eq!(buf.pushpop(16, ()), Some((RtpOrder::Normal(8), ())));
    assert_eq!(buf.pushpop(17, ()), Some((RtpOrder::Normal(9), ())));
    assert_eq!(buf.pushpop(18, ()), Some((RtpOrder::Normal(10), ())));
    assert_eq!(buf.pushpop(19, ()), Some((RtpOrder::Lost(4, 15), ())));
    assert_eq!(buf.pushpop(22, ()), Some((RtpOrder::Normal(16), ())));
    assert_eq!(buf.inorder_pop(), Some((17, ())));
    assert_eq!(buf.inorder_pop(), Some((18, ())));
    assert_eq!(buf.inorder_pop(), Some((19, ())));
    assert_eq!(buf.inorder_pop(), None);
    assert_eq!(buf.pop(), Some((RtpOrder::Lost(2, 22), ())));
    assert_eq!(buf.pop(), None);
}

#[test]
fn test_extend() {
    assert_eq!(u16_extend(0, 1, 10), 11_i64);
    assert_eq!(u16_extend(0, 5, 10), 15_i64);
    assert_eq!(u16_extend(0, 32768, 10), 10_i64 + 32768);
    assert_eq!(u16_extend(0, 32769, 10), 10_i64.wrapping_sub(32767));
    assert_eq!(u16_extend(0, 65535, 10), 10_i64.wrapping_sub(1));
    assert_eq!(u16_extend(65535, 0, 10), 10_i64 + 1);
}

#[test]
fn reorder_buffer_boundary_scenario() {
    let mut buf = RtpInorderBuf::new(3);
    assert_eq!(buf.pushpop(1, 'a'), None);
    assert_eq!(buf.pushpop(2, 'b'), None);
    assert_eq!(buf.pushpop(3, 'c'), Some((RtpOrder::Normal(1), 'a')));
    assert_eq!(buf.pushpop(4, 'd'), Some((RtpOrder::Normal(2), 'b')));
    assert_eq!(buf.pop(), Some((RtpOrder::Normal(3), 'c')));
    assert_eq!(buf.pop(), Some((RtpOrder::Normal(4), 'd')));
    assert_eq!(buf.pop(), None);
}

#[test]
fn extender_wraps_without_discontinuity() {
    let mut ext = U16Extender::new();
    let mut expected: i64 = 0;
    for v in 0..=65535u32 {
        assert_eq!(ext.convert(v as u16), expected);
        expected += 1;
    }
    assert_eq!(ext.convert(0), 65536);
    assert_eq!(ext.convert(1), 65537);
}

#[test]
fn extender_goes_back_on_small_backward_step() {
    let mut ext = U16Extender::new();
    assert_eq!(ext.convert(5), 5);
    assert_eq!(ext.convert(3), 3);
    assert_eq!(ext.convert(65535), -1);
}

#[test]
fn lost_gap_is_the_full_distance() {
    let mut buf = RtpInorderBuf::new(4);
    let mut seq: u16 = 0;
    assert_eq!(buf.pushpop(seq, 0), None);
    assert_eq!(buf.pop(), Some((RtpOrder::Normal(0), 0)));
    for _ in 0..3 {
        seq = seq.wrapping_add(30000);
        assert_eq!(buf.pushpop(seq, 1), None);
    }
    assert_eq!(buf.pushpop(seq.wrapping_add(30000), 2), Some((RtpOrder::Lost(29999, 30000), 1)));
    assert_eq!(buf.pop(), Some((RtpOrder::Lost(29999, 60000), 1)));
    assert_eq!(buf.pop(), Some((RtpOrder::Lost(29999, 90000), 1)));
    assert_eq!(buf.pop(), Some((RtpOrder::Lost(29999, 120000), 2)));
}

#[test]
fn duplicate_and_old_packets_are_dropped() {
    let mut buf = RtpInorderBuf::new(4);
    assert_eq!(buf.pushpop(10, 1), None);
    assert_eq!(buf.pushpop(12, 2), None);
    assert_eq!(buf.pushpop(12, 3), None);
    assert_eq!(buf.len(), 2);
    assert_eq!(buf.pop(), Some((RtpOrder::Normal(10), 1)));
    assert_eq!(buf.pushpop(9, 4), None);
    assert_eq!(buf.pushpop(11, 5), Some((RtpOrder::Normal(11), 5)));
    assert_eq!(buf.inorder_pop(), Some((12, 2)));
}
