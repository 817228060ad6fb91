use std::cmp::Ordering;

use turbulence::windows::{
    stream_cmp, stream_ge, stream_gt, stream_le, stream_lt, AckResult, RecvWindow, SendWindow,
};

#[test]
fn test_send_window() {
    let stream_start = u32::MAX - 11;
    let write_data = [0, 1, 2, 3, 4, 5, 6, 7, 8, 9, 10, 11, 12, 13, 14, 15];
    let mut send_data = [0; 16];
    let mut send_window = SendWindow::new(7, stream_start);

    assert_eq!(send_window.writer().write_available(), 7);
    assert_eq!(send_window.send_pos(), stream_start);

    assert_eq!(send_window.writer().write(&write_data[0..4]), 4);
    assert_eq!(send_window.writer().write(&write_data[4..6]), 2);
    assert_eq!(send_window.writer().write(&write_data[6..10]), 1);

    assert_eq!(send_window.send_pos(), stream_start);

    assert_eq!(send_window.send_available(), 7);
    assert_eq!(
        send_window.send(&mut send_data[0..6]),
        Some((stream_start, stream_start.wrapping_add(6)))
    );
    for i in 0..6 {
        assert_eq!(send_data[i], i as u8);
    }
    assert_eq!(send_window.send_pos(), stream_start.wrapping_add(6));

    assert_eq!(send_window.writer().write_available(), 0);

    assert_eq!(
        send_window.ack_range(stream_start, stream_start.wrapping_add(4)),
        AckResult::PartialAck(stream_start.wrapping_add(6))
    );

    assert_eq!(send_window.writer().write_available(), 4);
    assert_eq!(send_window.writer().write(&write_data[7..16]), 4);

    assert_eq!(
        send_window.ack_range(stream_start.wrapping_add(4), stream_start.wrapping_add(6)),
        AckResult::Ack
    );

    assert_eq!(send_window.writer().write_available(), 2);
    assert_eq!(send_window.writer().write(&write_data[11..16]), 2);

    assert_eq!(send_window.send_available(), 7);
    assert_eq!(
        send_window.send(&mut send_data[6..9]),
        Some((stream_start.wrapping_add(6), stream_start.wrapping_add(9)))
    );
    for i in 6..9 {
        assert_eq!(send_data[i], i as u8);
    }
    assert_eq!(send_window.send_pos(), stream_start.wrapping_add(9));

    assert_eq!(send_window.send_available(), 4);
    assert_eq!(
        send_window.send(&mut send_data[9..11]),
        Some((stream_start.wrapping_add(9), stream_start.wrapping_add(11)))
    );
    for i in 9..11 {
        assert_eq!(send_data[i], i as u8);
    }
    assert_eq!(send_window.send_pos(), stream_start.wrapping_add(11));

    assert_eq!(send_window.send_available(), 2);
    assert_eq!(
        send_window.send(&mut send_data[11..16]),
        Some((stream_start.wrapping_add(11), stream_start.wrapping_add(13)))
    );
    for i in 11..13 {
        assert_eq!(send_data[i], i as u8);
    }
    assert_eq!(send_window.send_pos(), stream_start.wrapping_add(13));

    // Ack ranges that error should not affect anything
    assert_eq!(
        send_window.ack_range(stream_start.wrapping_add(10), stream_start.wrapping_add(11)),
        AckResult::NotFound
    );
    assert_eq!(
        send_window.ack_range(stream_start.wrapping_add(11), stream_start.wrapping_add(15)),
        AckResult::NotFound
    );

    assert_eq!(
        send_window.ack_range(stream_start.wrapping_add(11), stream_start.wrapping_add(12)),
        AckResult::PartialAck(stream_start.wrapping_add(13))
    );
    assert_eq!(
        send_window.ack_range(stream_start.wrapping_add(6), stream_start.wrapping_add(9)),
        AckResult::Ack
    );

    assert_eq!(send_window.writer().write_available(), 3);
    assert_eq!(send_window.send_pos(), stream_start.wrapping_add(13));
    assert_eq!(send_window.writer().write(&write_data[14..16]), 2);

    assert_eq!(
        send_window.ack_range(stream_start.wrapping_add(12), stream_start.wrapping_add(13)),
        AckResult::Ack
    );
    assert_eq!(
        send_window.ack_range(stream_start.wrapping_add(9), stream_start.wrapping_add(11)),
        AckResult::Ack
    );

    assert_eq!(send_window.writer().write_available(), 5);

    assert_eq!(send_window.send_available(), 2);
    assert_eq!(
        send_window.send(&mut send_data[14..16]),
        Some((stream_start.wrapping_add(13), stream_start.wrapping_add(15)))
    );
    for i in 14..16 {
        assert_eq!(send_data[i], i as u8);
    }

    assert_eq!(
        send_window.ack_range(stream_start.wrapping_add(13), stream_start.wrapping_add(14)),
        AckResult::PartialAck(stream_start.wrapping_add(15)),
    );
    assert_eq!(
        send_window.ack_range(stream_start.wrapping_add(14), stream_start.wrapping_add(15)),
        AckResult::Ack,
    );

    assert_eq!(send_window.writer().write_available(), 7);
}

#[test]
fn test_recv_window() {
    let stream_start = u32::MAX - 29;
    let recv_data = [
        0, 1, 2, 3, 4, 5, 6, 7, 8, 9, 10, 11, 12, 13, 14, 15, 16, 17, 18, 19, 20, 21, 22, 23,
        24, 25, 26, 27, 28, 29, 30, 31,
    ];
    let mut read_data = [0; 32];
    let mut recv_window = RecvWindow::new(7, stream_start);

    assert_eq!(recv_window.window_end(), stream_start.wrapping_add(7));
    assert_eq!(
        recv_window.recv(stream_start.wrapping_add(0), &recv_data[0..4]),
        Some(stream_start.wrapping_add(4))
    );
    assert_eq!(recv_window.window_end(), stream_start.wrapping_add(7));
    assert_eq!(
        recv_window.recv(stream_start.wrapping_add(2), &recv_data[2..6]),
        Some(stream_start.wrapping_add(6))
    );
    assert_eq!(recv_window.window_end(), stream_start.wrapping_add(7));

    assert_eq!(recv_window.reader().read(&mut read_data[0..3]), 3);
    assert_eq!(recv_window.reader().read(&mut read_data[3..5]), 2);
    for i in 0..5 {
        assert_eq!(read_data[i], i as u8);
    }

    assert_eq!(recv_window.window_end(), stream_start.wrapping_add(12));
    assert_eq!(
        recv_window.recv(stream_start.wrapping_add(4), &recv_data[4..10]),
        Some(stream_start.wrapping_add(10))
    );
    assert_eq!(
        recv_window.recv(stream_start.wrapping_add(9), &recv_data[9..15]),
        Some(stream_start.wrapping_add(12))
    );
    assert_eq!(recv_window.window_end(), stream_start.wrapping_add(12));
    assert_eq!(recv_window.read_available(), 7);

    assert_eq!(recv_window.reader().read(&mut read_data[5..10]), 5);
    for i in 5..10 {
        assert_eq!(read_data[i], i as u8);
    }

    assert_eq!(recv_window.window_end(), stream_start.wrapping_add(17));
    assert_eq!(
        recv_window.recv(stream_start.wrapping_add(25), &recv_data[25..30]),
        None
    );
    assert_eq!(
        recv_window.recv(stream_start.wrapping_add(15), &recv_data[15..25]),
        Some(stream_start.wrapping_add(17)),
    );
    assert_eq!(recv_window.window_end(), stream_start.wrapping_add(17));

    assert_eq!(recv_window.reader().read(&mut read_data[10..20]), 2);
    for i in 10..12 {
        assert_eq!(read_data[i], i as u8);
    }

    assert_eq!(recv_window.window_end(), stream_start.wrapping_add(19));
    assert_eq!(
        recv_window.recv(stream_start.wrapping_add(10), &recv_data[10..25]),
        Some(stream_start.wrapping_add(19))
    );

    // Redundant receives
    assert_eq!(
        recv_window.recv(stream_start.wrapping_add(2), &recv_data[2..10]),
        Some(stream_start.wrapping_add(10)),
    );
    assert_eq!(
        recv_window.recv(stream_start.wrapping_add(14), &recv_data[14..21]),
        Some(stream_start.wrapping_add(19)),
    );
    assert_eq!(
        recv_window.recv(stream_start.wrapping_add(18), &recv_data[18..21]),
        Some(stream_start.wrapping_add(19)),
    );

    // receives off of end
    assert_eq!(
        recv_window.recv(stream_start.wrapping_add(19), &recv_data[21..25]),
        None,
    );
    assert_eq!(
        recv_window.recv(stream_start.wrapping_add(20), &recv_data[22..25]),
        None,
    );
    assert_eq!(
        recv_window.recv(stream_start.wrapping_add(19), &recv_data[21..21]),
        None,
    );

    assert_eq!(recv_window.reader().read(&mut read_data[12..25]), 7);
    for i in 12..19 {
        assert_eq!(read_data[i], i as u8);
    }

    assert_eq!(recv_window.window_end(), stream_start.wrapping_add(26));
    assert_eq!(
        recv_window.recv(stream_start.wrapping_add(24), &recv_data[24..25]),
        Some(stream_start.wrapping_add(25))
    );
    assert_eq!(recv_window.window_end(), stream_start.wrapping_add(26));
    assert_eq!(
        recv_window.recv(stream_start.wrapping_add(19), &recv_data[19..24]),
        Some(stream_start.wrapping_add(24))
    );

    assert_eq!(recv_window.reader().read(&mut read_data[19..25]), 6);
    for i in 19..25 {
        assert_eq!(read_data[i], i as u8);
    }

    assert_eq!(recv_window.window_end(), stream_start.wrapping_add(32));
    assert_eq!(
        recv_window.recv(stream_start.wrapping_add(26), &recv_data[26..27]),
        Some(stream_start.wrapping_add(27))
    );
    assert_eq!(recv_window.reader().read(&mut read_data[25..32]), 0);

    assert_eq!(recv_window.window_end(), stream_start.wrapping_add(32));
    assert_eq!(
        recv_window.recv(stream_start.wrapping_add(28), &recv_data[28..29]),
        Some(stream_start.wrapping_add(29))
    );
    assert_eq!(recv_window.reader().read(&mut read_data[25..32]), 0);

    assert_eq!(recv_window.window_end(), stream_start.wrapping_add(32));
    assert_eq!(
        recv_window.recv(stream_start.wrapping_add(30), &recv_data[30..31]),
        Some(stream_start.wrapping_add(31))
    );
    assert_eq!(recv_window.reader().read(&mut read_data[25..32]), 0);

    assert_eq!(recv_window.window_end(), stream_start.wrapping_add(32));
    assert_eq!(
        recv_window.recv(stream_start.wrapping_add(29), &recv_data[29..30]),
        Some(stream_start.wrapping_add(30))
    );
    assert_eq!(recv_window.reader().read(&mut read_data[25..32]), 0);

    assert_eq!(recv_window.window_end(), stream_start.wrapping_add(32));
    assert_eq!(
        recv_window.recv(stream_start.wrapping_add(28), &recv_data[28..29]),
        Some(stream_start.wrapping_add(29))
    );
    assert_eq!(recv_window.reader().read(&mut read_data[25..32]), 0);

    assert_eq!(recv_window.window_end(), stream_start.wrapping_add(32));
    assert_eq!(
        recv_window.recv(stream_start.wrapping_add(27), &recv_data[27..28]),
        Some(stream_start.wrapping_add(28))
    );
    assert_eq!(recv_window.reader().read(&mut read_data[25..32]), 0);

    assert_eq!(recv_window.window_end(), stream_start.wrapping_add(32));
    assert_eq!(
        recv_window.recv(stream_start.wrapping_add(25), &recv_data[25..26]),
        Some(stream_start.wrapping_add(26))
    );
    assert_eq!(recv_window.reader().read(&mut read_data[25..31]), 6);
    for i in 25..31 {
        assert_eq!(read_data[i], i as u8);
    }

    assert_eq!(recv_window.window_end(), stream_start.wrapping_add(38));
}

#[test]
fn stream_positions_wrap_around() {
    assert_eq!(stream_cmp(5, 9), Some(Ordering::Less));
    assert_eq!(stream_cmp(9, 5), Some(Ordering::Greater));
    assert_eq!(stream_cmp(9, 9), Some(Ordering::Equal));
    assert_eq!(stream_cmp(u32::MAX, 3), Some(Ordering::Less));
    assert_eq!(stream_cmp(0, 0x8000_0000), None);
    assert_eq!(stream_cmp(0x8000_0000, 0), None);
    assert!(stream_lt(u32::MAX, 0));
    assert!(!stream_lt(0, u32::MAX));
    assert!(stream_le(7, 7));
    assert!(stream_gt(0, u32::MAX));
    assert!(stream_ge(0, 0x8000_0001));
    assert!(!stream_ge(0, 0x8000_0000));
}

#[test]
fn acknowledging_twice_finds_nothing() {
    let mut window = SendWindow::new(4, 0);
    let mut data = [0; 4];
    assert_eq!(window.writer().write(&[1, 2, 3, 4, 5]), 4);
    assert_eq!(window.send(&mut data), Some((0, 4)));
    assert_eq!(window.send(&mut data), None);
    assert_eq!(window.write_available(), 0);
    assert_eq!(window.unacked_start(), 0);
    window.get_unacked(0, &mut data);
    assert_eq!(data, [1, 2, 3, 4]);
    assert_eq!(window.ack_range(0, 4), AckResult::Ack);
    assert_eq!(window.ack_range(0, 4), AckResult::NotFound);
    assert_eq!(window.write_available(), 4);
    assert_eq!(window.unacked_start(), 4);
}

#[test]
fn acknowledging_more_than_was_sent_finds_nothing() {
    let mut window = SendWindow::new(8, 0);
    let mut data = [0; 4];
    assert_eq!(window.write(&[1, 2, 3, 4, 5, 6]), 6);
    assert_eq!(window.send(&mut data), Some((0, 4)));
    assert_eq!(window.send_available(), 2);
    assert_eq!(window.ack_range(0, 5), AckResult::NotFound);
    assert_eq!(window.ack_range(4, 5), AckResult::NotFound);
    assert_eq!(window.ack_range(0, 4), AckResult::Ack);
}

#[test]
fn receiving_in_any_order_makes_progress_once() {
    let mut window = RecvWindow::new(8, u32::MAX - 1);
    let mut data = [0; 8];
    assert_eq!(window.recv(2, &[4, 5]), Some(4));
    assert_eq!(window.read_available(), 0);
    assert_eq!(window.recv(u32::MAX - 1, &[0, 1, 2, 3]), Some(2));
    assert_eq!(window.read_available(), 6);
    assert_eq!(window.recv(u32::MAX - 1, &[0, 1, 2, 3]), Some(2));
    assert_eq!(window.recv(2, &[4, 5]), Some(4));
    assert_eq!(window.read_available(), 6);
    assert_eq!(window.read(&mut data), 6);
    assert_eq!(data[0..6], [0, 1, 2, 3, 4, 5]);
    assert_eq!(window.read(&mut data), 0);
    assert_eq!(window.window_end(), 12);
}

#[test]
fn redundant_data_is_ignored() {
    let mut window = RecvWindow::new(8, 0);
    let mut data = [0; 2];
    assert_eq!(window.recv(1, &[7]), Some(2));
    assert_eq!(window.recv(1, &[9]), Some(2));
    assert_eq!(window.recv(0, &[5]), Some(1));
    assert_eq!(window.reader().read(&mut data), 2);
    assert_eq!(data, [5, 7]);

    // Only the gaps are filled.
    let mut window = RecvWindow::new(8, 0);
    let mut data = [0; 8];
    assert_eq!(window.recv(2, &[1]), Some(3));
    assert_eq!(window.recv(5, &[2]), Some(6));
    assert_eq!(window.recv(1, &[9, 9, 9, 9, 9, 9]), Some(7));
    assert_eq!(window.read_available(), 0);
    assert_eq!(window.recv(0, &[7, 8, 8]), Some(3));
    assert_eq!(window.read_available(), 7);
    assert_eq!(window.reader().read(&mut data), 7);
    assert_eq!(data, [7, 9, 1, 9, 9, 2, 9, 0]);

    // What was read out stays as it was, too.
    assert_eq!(window.recv(6, &[4, 3]), Some(8));
    assert_eq!(window.reader().read(&mut data), 1);
    assert_eq!(data[0], 3);
}

#[test]
fn ready_data_is_the_longest_run_of_the_stored_blocks() {
    let stream = [0, 1, 2, 3, 4, 5, 6, 7, 8, 9];
    let orders: [&[(usize, usize)]; 3] = [
        &[(0, 4), (3, 6), (7, 9)],
        &[(7, 9), (3, 6), (0, 4)],
        &[(4, 6), (7, 8), (0, 2), (1, 5), (8, 9), (0, 6)],
    ];
    for blocks in orders {
        let mut window = RecvWindow::new(10, u32::MAX - 3);
        for &(start, end) in blocks {
            window.recv((u32::MAX - 3).wrapping_add(start as u32), &stream[start..end]);
        }
        let mut data = [0; 10];
        assert_eq!(window.read_available(), 6);
        assert_eq!(window.reader().read(&mut data), 6);
        assert_eq!(data[0..6], stream[0..6]);
        window.recv((u32::MAX - 3).wrapping_add(6), &stream[6..7]);
        assert_eq!(window.read_available(), 3);
    }
}
