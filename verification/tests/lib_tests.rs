use serialmessage::ParseState;
use serialmessage::SerMsg;

#[test]
fn one_data_byte() {
    let send_data_vec: Vec<u8> = vec![1];
    let send_msg = SerMsg::create_msg_vec(&send_data_vec, 1).unwrap();
    let (send_msg_arr, msg_len) = SerMsg::create_msg_arr(&send_data_vec, 1).unwrap();
    if send_msg != send_msg_arr[..msg_len] {
        panic!("std and no_std functions produce different messages");
    }

    let mut ser_msg = SerMsg::new();
    let (state, _parsed_bytes) = ser_msg.parse_read_bytes(&send_msg);

    match state {
        ParseState::DataReady => {
            assert_eq!(&send_data_vec, ser_msg.return_read_data());
        }
        _ => {
            panic!();
        }
    }
}

#[test]
fn multiple_data_byte() {
    let send_data_vec: Vec<u8> = vec![1, 2, 3];
    let send_msg = SerMsg::create_msg_vec(&send_data_vec, 1).unwrap();
    let (send_msg_arr, msg_len) = SerMsg::create_msg_arr(&send_data_vec, 1).unwrap();
    if send_msg != send_msg_arr[..msg_len] {
        panic!("std and no_std functions produce different messages");
    }

    let mut ser_msg = SerMsg::new();
    let (state, _parsed_bytes) = ser_msg.parse_read_bytes(&send_msg);

    match state {
        ParseState::DataReady => {
            assert_eq!(&send_data_vec, ser_msg.return_read_data());
        }
        _ => {
            panic!();
        }
    }
}

#[test]
fn maximum_data_bytes() {
    let send_data_vec: Vec<u8> = vec![0; 254];
    let send_msg = SerMsg::create_msg_vec(&send_data_vec, 1).unwrap();
    let (send_msg_arr, msg_len) = SerMsg::create_msg_arr(&send_data_vec, 1).unwrap();
    if send_msg != send_msg_arr[..msg_len] {
        panic!("std and no_std functions produce different messages");
    }

    let mut ser_msg = SerMsg::new();
    let (state, _parsed_bytes) = ser_msg.parse_read_bytes(&send_msg);

    match state {
        ParseState::DataReady => {
            assert_eq!(&send_data_vec, ser_msg.return_read_data());
        }
        _ => panic!(),
    }
}

#[test]
fn check_msg_id() {
    let id = 1;
    let send_data_vec: Vec<u8> = vec![1];
    let send_msg = SerMsg::create_msg_vec(&send_data_vec, id).unwrap();
    let (send_msg_arr, msg_len) = SerMsg::create_msg_arr(&send_data_vec, id).unwrap();
    if send_msg != send_msg_arr[..msg_len] {
        panic!("std and no_std functions produce different messages");
    }

    let mut ser_msg = SerMsg::new();
    let (_state, _parsed_bytes) = ser_msg.parse_read_bytes(&send_msg);

    if id == ser_msg.return_msg_id() {
        // Success
    } else {
        panic!()
    }
}

#[test]
fn cobs_in_msg() {
    let send_data_vec: Vec<u8> = vec![126];
    let send_msg = SerMsg::create_msg_vec(&send_data_vec, 1).unwrap();
    let (send_msg_arr, msg_len) = SerMsg::create_msg_arr(&send_data_vec, 1).unwrap();
    if send_msg != send_msg_arr[..msg_len] {
        panic!("std and no_std functions produce different messages");
    }

    let mut ser_msg = SerMsg::new();
    let (state, _parsed_bytes) = ser_msg.parse_read_bytes(&send_msg);

    match state {
        ParseState::DataReady => {
            assert_eq!(&send_data_vec, ser_msg.return_read_data());
        }
        _ => panic!(),
    }
}

#[test]
fn multiple_cobs_in_msg() {
    let send_data_vec: Vec<u8> = vec![126, 126, 126];
    let send_msg = SerMsg::create_msg_vec(&send_data_vec, 1).unwrap();
    let (send_msg_arr, msg_len) = SerMsg::create_msg_arr(&send_data_vec, 1).unwrap();
    if send_msg != send_msg_arr[..msg_len] {
        panic!("std and no_std functions produce different messages");
    }

    let mut ser_msg = SerMsg::new();
    let (state, _parsed_bytes) = ser_msg.parse_read_bytes(&send_msg);

    match state {
        ParseState::DataReady => {
            assert_eq!(&send_data_vec, ser_msg.return_read_data());
        }
        _ => panic!(),
    }
}

#[test]
fn no_data_bytes() {
    let send_data_vec: Vec<u8> = vec![];
    let send_msg = SerMsg::create_msg_vec(&send_data_vec, 1).unwrap();
    let (send_msg_arr, msg_len) = SerMsg::create_msg_arr(&send_data_vec, 1).unwrap();
    if send_msg != send_msg_arr[..msg_len] {
        panic!("std and no_std functions produce different messages");
    }

    let mut ser_msg = SerMsg::new();
    let (state, _parsed_bytes) = ser_msg.parse_read_bytes(&send_msg);

    match state {
        ParseState::DataReady => {
            assert_eq!(&send_data_vec, ser_msg.return_read_data());
        }
        _ => panic!(),
    }
}

#[test]
fn receive_multiple_messages() {
    let mut rcvd_int: Vec<u8> = Vec::new();
    let send_data_vec: Vec<u8> = vec![1];
    let mut send_msg = SerMsg::create_msg_vec(&send_data_vec, 1).unwrap();
    let second_send_data_vec: Vec<u8> = vec![2];
    let mut second_send_msg = SerMsg::create_msg_vec(&second_send_data_vec, 1).unwrap();
    let third_send_data_vec: Vec<u8> = vec![3];
    let mut third_send_msg = SerMsg::create_msg_vec(&third_send_data_vec, 1).unwrap();

    send_msg.append(&mut second_send_msg);
    send_msg.append(&mut third_send_msg);

    let mut ser_msg = SerMsg::new();
    let received_bytes = send_msg.len();
    let mut all_parsed_bytes = 0;

    while received_bytes > all_parsed_bytes {
        let (state, parsed_bytes) = ser_msg.parse_read_bytes(&send_msg[all_parsed_bytes..]);
        all_parsed_bytes += parsed_bytes;

        match state {
            ParseState::DataReady => {
                rcvd_int.push(ser_msg.return_read_data()[0]);
            }
            _ => panic!(),
        }
    }
    assert_eq!(rcvd_int, vec![1, 2, 3]);
}

#[test]
fn partial_messages() {
    let send_data_vec: Vec<u8> = vec![1];
    let send_msg = SerMsg::create_msg_vec(&send_data_vec, 1).unwrap();

    let mut ser_msg = SerMsg::new();
    let (state, _parsed_bytes) = ser_msg.parse_read_bytes(&send_msg[..3]);

    match state {
        ParseState::Continue => {}
        _ => panic!(),
    }

    let (state, _parsed_bytes) = ser_msg.parse_read_bytes(&send_msg[3..]);

    match state {
        ParseState::DataReady => {
            assert_eq!(&send_data_vec, ser_msg.return_read_data());
        }
        _ => panic!(),
    }
}

#[test]
fn over_max_payload_error() {
    let send_data_vec: Vec<u8> = vec![1];
    let mut send_msg = SerMsg::create_msg_vec(&send_data_vec, 1).unwrap();
    send_msg[3] = 255;

    let mut ser_msg = SerMsg::new();
    let (state, _parsed_bytes) = ser_msg.parse_read_bytes(&send_msg);

    match state {
        ParseState::HighPayloadError => {
            // Success
        }
        _ => panic!(),
    }
}

#[test]
fn low_payload_error() {
    let send_data_vec: Vec<u8> = vec![1, 2];
    let mut send_msg = SerMsg::create_msg_vec(&send_data_vec, 1).unwrap();
    send_msg[3] = 1;

    let mut ser_msg = SerMsg::new();
    let (state, _parsed_bytes) = ser_msg.parse_read_bytes(&send_msg);

    match state {
        // Shows as CrcError: the last payload byte gets checked as the CRC byte
        ParseState::CrcError => {
            // Success
        }
        _ => panic!(),
    }
}

#[test]
fn small_too_high_payload_error() {
    let send_data_vec: Vec<u8> = vec![1];
    let mut send_msg = SerMsg::create_msg_vec(&send_data_vec, 1).unwrap();
    send_msg[3] = 2;

    let mut ser_msg = SerMsg::new();
    let (state, _parsed_bytes) = ser_msg.parse_read_bytes(&send_msg);

    match state {
        // Shows as CrcError: the stop byte gets checked as the CRC byte
        ParseState::CrcError => {
            // Success
        }
        _ => panic!(),
    }
}

#[test]
fn big_too_high_payload_error() {
    let send_data_vec: Vec<u8> = vec![1];
    let mut send_msg = SerMsg::create_msg_vec(&send_data_vec, 1).unwrap();
    send_msg[3] = 3;

    let mut ser_msg = SerMsg::new();
    let (state, _parsed_bytes) = ser_msg.parse_read_bytes(&send_msg);

    match state {
        // No error: the CRC byte and stop byte get treated as data bytes
        ParseState::Continue => {
            // Success
        }
        _ => panic!(),
    }
}

#[test]
fn wrong_crc_error() {
    let send_data_vec: Vec<u8> = vec![1];
    let mut send_msg = SerMsg::create_msg_vec(&send_data_vec, 1).unwrap();
    send_msg[5] = 0;

    let mut ser_msg = SerMsg::new();
    let (state, _parsed_bytes) = ser_msg.parse_read_bytes(&send_msg);

    match state {
        ParseState::CrcError => {
            // Success
        }
        _ => panic!(),
    }
}

#[test]
fn wrong_stopbyte_error() {
    let send_data_vec: Vec<u8> = vec![1];
    let mut send_msg = SerMsg::create_msg_vec(&send_data_vec, 1).unwrap();
    send_msg[6] = 0;

    let mut ser_msg = SerMsg::new();
    let (state, _parsed_bytes) = ser_msg.parse_read_bytes(&send_msg);

    match state {
        ParseState::StopByteError => {
            // Success
        }
        _ => panic!(),
    }
}

#[test]
fn wrong_cobs_error() {
    let send_data_vec: Vec<u8> = vec![126, 1];
    let mut send_msg = SerMsg::create_msg_vec(&send_data_vec, 1).unwrap();
    send_msg[2] = 1;

    let mut ser_msg = SerMsg::new();
    let (state, _parsed_bytes) = ser_msg.parse_read_bytes(&send_msg);
    match state {
        ParseState::COBSError => {
            // Success
        }
        _ => panic!(),
    }
}

#[test]
fn exceeded_max_length() {
    let send_data_vec: Vec<u8> = vec![0; 255];
    let send_msg_vec_option = SerMsg::create_msg_arr(&send_data_vec, 1);
    let send_msg_arr_option = SerMsg::create_msg_arr(&send_data_vec, 1);

    if send_msg_vec_option.is_none() && send_msg_arr_option.is_none() {
        // Success
    } else {
        panic!()
    }
}

#[test]
fn example_test() {
    // The bytes of a zeroed, packed sensor-record struct of 24 bytes:
    // u8, i8, u16, i16, i32, u32, f32 and a six-byte array, all zero.
    let send_bytes: Vec<u8> = vec![0; 24];
    let send_msg = SerMsg::create_msg_vec(&send_bytes, 1).unwrap();

    let mut ser_msg = SerMsg::new();
    let (state, _parsed_bytes) = ser_msg.parse_read_bytes(&send_msg);
    match state {
        ParseState::DataReady => {
            assert_eq!(send_bytes, ser_msg.return_read_data());
        }
        _ => panic!(),
    }
}
