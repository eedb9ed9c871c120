use bevy_quinn::{
    quinn_proto_ecn, quinn_udp_ecn, receive_buffer_len, split_datagrams, udp_transmit, Transmit,
};

#[test]
fn an_empty_message_has_no_datagram() {
    assert!(split_datagrams(b"", 10).is_empty());
    assert!(split_datagrams(b"", 0).is_empty());
}

#[test]
fn a_short_message_is_one_datagram() {
    assert_eq!(split_datagrams(b"abc", 3), vec![b"abc".as_slice()]);
    assert_eq!(split_datagrams(b"abc", 1200), vec![b"abc".as_slice()]);
    assert_eq!(split_datagrams(b"abc", usize::MAX), vec![b"abc".as_slice()]);
}

#[test]
fn a_long_message_is_split_at_its_stride() {
    assert_eq!(
        split_datagrams(b"abcdefgh", 3),
        vec![b"abc".as_slice(), b"def".as_slice(), b"gh".as_slice()]
    );
    assert_eq!(
        split_datagrams(b"abcdef", 3),
        vec![b"abc".as_slice(), b"def".as_slice()]
    );
    assert_eq!(
        split_datagrams(b"abc", 1),
        vec![b"a".as_slice(), b"b".as_slice(), b"c".as_slice()]
    );
}

#[test]
fn the_datagrams_make_up_the_message() {
    let message: Vec<u8> = (0..=255).collect();
    for stride in 1..300 {
        let parts = split_datagrams(&message, stride);
        assert_eq!(parts.concat(), message);
        for part in &parts[..parts.len() - 1] {
            assert_eq!(part.len(), stride);
        }
        let last = parts[parts.len() - 1].len();
        assert!(0 < last && last <= stride);
    }
}

#[test]
fn the_receive_buffer_has_room_for_a_batch() {
    assert_eq!(receive_buffer_len(1472, 64, 32), Some(1472 * 64 * 32));
    assert_eq!(receive_buffer_len(1472, 1, 1), Some(1472));
    assert_eq!(receive_buffer_len(0, 64, 32), Some(0));
}

#[test]
fn a_datagram_is_not_expected_to_exceed_64_kib() {
    assert_eq!(receive_buffer_len(64 * 1024 - 1, 1, 1), Some(65535));
    assert_eq!(receive_buffer_len(64 * 1024, 1, 1), Some(65536));
    assert_eq!(receive_buffer_len(u64::MAX, 2, 3), Some(65536 * 6));
}

#[test]
fn a_batch_that_does_not_fit_into_memory_is_refused() {
    assert_eq!(receive_buffer_len(1472, usize::MAX, 1), None);
    assert_eq!(receive_buffer_len(1472, 1, usize::MAX), None);
    assert_eq!(receive_buffer_len(1, usize::MAX, 1), Some(usize::MAX));
}

#[test]
fn a_batch_is_divided_evenly() {
    for segments in 1..10 {
        for batch in 1..40 {
            let len = receive_buffer_len(1472, segments, batch).unwrap();
            assert_eq!(len % batch, 0);
            assert_eq!(len / batch, 1472 * segments);
        }
    }
}

#[test]
fn codepoints_are_converted_one_for_one() {
    assert_eq!(quinn_udp_ecn(quinn_proto::EcnCodepoint::Ect0), quinn_udp::EcnCodepoint::Ect0);
    assert_eq!(quinn_udp_ecn(quinn_proto::EcnCodepoint::Ect1), quinn_udp::EcnCodepoint::Ect1);
    assert_eq!(quinn_udp_ecn(quinn_proto::EcnCodepoint::Ce), quinn_udp::EcnCodepoint::Ce);
    assert_eq!(quinn_proto_ecn(quinn_udp::EcnCodepoint::Ect0), quinn_proto::EcnCodepoint::Ect0);
    assert_eq!(quinn_proto_ecn(quinn_udp::EcnCodepoint::Ect1), quinn_proto::EcnCodepoint::Ect1);
    assert_eq!(quinn_proto_ecn(quinn_udp::EcnCodepoint::Ce), quinn_proto::EcnCodepoint::Ce);
}

#[test]
fn conversions_of_codepoints_undo_each_other() {
    for ecn in [
        quinn_udp::EcnCodepoint::Ect0,
        quinn_udp::EcnCodepoint::Ect1,
        quinn_udp::EcnCodepoint::Ce,
    ] {
        assert_eq!(quinn_udp_ecn(quinn_proto_ecn(ecn)), ecn);
    }
}

#[test]
fn a_transmit_sends_the_first_bytes_of_the_buffer() {
    let transmit = Transmit {
        size: 3,
        ecn: Some(quinn_proto::EcnCodepoint::Ect1),
        segment_size: Some(2),
        route: quinn_proto::Transmit {
            destination: "127.0.0.1:4433".parse().unwrap(),
            ecn: None,
            size: 0,
            segment_size: None,
            src_ip: None,
        },
    };
    let udp = udp_transmit(&transmit, b"abcdef");
    assert_eq!(udp.contents, b"abc");
    assert_eq!(udp.ecn, Some(quinn_udp::EcnCodepoint::Ect1));
    assert_eq!(udp.segment_size, Some(2));
    assert_eq!(udp.route.destination, "127.0.0.1:4433".parse().unwrap());

    let plain = Transmit { size: 0, ecn: None, segment_size: None, route: transmit.route };
    let udp = udp_transmit(&plain, b"");
    assert!(udp.contents.is_empty());
    assert!(udp.ecn.is_none());
    assert!(udp.segment_size.is_none());
}
