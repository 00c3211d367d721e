use importer::ipc::{reply_for, Msg, MsgDeserializeError};

#[test]
fn message_round_trip() {
    let m = Msg { id: 0x01020304, code: -2, success: true };
    let bytes = m.serialize();
    assert_eq!(bytes, vec![4, 3, 2, 1, 0xfe, 0xff, 0xff, 0xff, 1]);
    assert_eq!(Msg::deserialize(&bytes), Ok(m));
}

#[test]
fn message_wrong_size() {
    assert_eq!(Msg::deserialize(&[0u8; 8]), Err(MsgDeserializeError::InvalidSize));
    assert_eq!(Msg::deserialize(&[0u8; 10]), Err(MsgDeserializeError::InvalidSize));
}

#[test]
fn message_nonzero_is_success() {
    let m = Msg::deserialize(&[0, 0, 0, 0, 0, 0, 0, 0, 7]).unwrap();
    assert!(m.success);
    assert_eq!(m.code, 0);
}

#[test]
fn replies_only_from_own_command() {
    let bytes = Msg { id: 5, code: 3, success: false }.serialize();
    assert_eq!(reply_for(5, &bytes), Some((3, false)));
    assert_eq!(reply_for(6, &bytes), None);
    assert_eq!(reply_for(5, &bytes[..8]), None);
}
