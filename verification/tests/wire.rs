//! The wire message, the decimal record and the descriptor bytes.

use doca::DOCAError;
use doca::RawPointer;
use doca::RawPointerMsg;
use doca::load_config_bytes;
use doca::parse_buffer_info;
use doca::render_buffer_info;

#[test]
fn message_serializes_to_its_wire_shape() {
    let msg = RawPointerMsg::from(RawPointer { inner: 4096, payload: 64 });
    let bytes = RawPointerMsg::serialize(msg);
    assert_eq!(bytes, b"{\"inner\":4096,\"payload\":64}".to_vec());
}

#[test]
fn message_roundtrips_on_the_wire() {
    let msg = RawPointerMsg::from(RawPointer { inner: 18446744073709551615, payload: 123456789 });
    let bytes = RawPointerMsg::serialize(msg);
    let back = RawPointerMsg::deserialize(&bytes);
    let ptr = RawPointer::from(back);
    assert_eq!(ptr.inner, 18446744073709551615);
    assert_eq!(ptr.payload, 123456789);
}

#[test]
fn malformed_messages_are_rejected() {
    assert!(RawPointerMsg::try_deserialize(&b"".to_vec()).is_none());
    assert!(RawPointerMsg::try_deserialize(&b"{}".to_vec()).is_none());
    assert!(RawPointerMsg::try_deserialize(&b"{\"inner\":,\"payload\":2}".to_vec()).is_none());
    assert!(RawPointerMsg::try_deserialize(&b"{\"inner\":1,\"payload\":2".to_vec()).is_none());
    assert!(RawPointerMsg::try_deserialize(&b"{\"inner\":1,\"payload\":2}x".to_vec()).is_none());
    assert!(
        RawPointerMsg::try_deserialize(
            &b"{\"inner\":99999999999999999999,\"payload\":2}".to_vec(),
        ).is_none()
    );
    assert!(RawPointerMsg::try_deserialize(&b"{\"inner\":1,\"payload\":2}".to_vec()).is_some());
}

#[test]
fn buffer_info_roundtrips() {
    let bytes = render_buffer_info(140214592, 1024);
    assert_eq!(bytes, b"140214592\n1024\n".to_vec());
    let parsed = parse_buffer_info(&bytes).unwrap();
    assert_eq!(parsed, (140214592, 1024));
}

#[test]
fn buffer_info_accepts_carriage_returns_and_plus() {
    assert_eq!(parse_buffer_info(&b"42\r\n7\r\n".to_vec()).unwrap(), (42, 7));
    assert_eq!(parse_buffer_info(&b"+42\n7".to_vec()).unwrap(), (42, 7));
}

#[test]
fn buffer_info_rejects_malformed_records() {
    assert_eq!(parse_buffer_info(&b"".to_vec()), Err(DOCAError::InvalidValue));
    assert_eq!(parse_buffer_info(&b"12".to_vec()), Err(DOCAError::InvalidValue));
    assert_eq!(parse_buffer_info(&b"12\n".to_vec()), Err(DOCAError::InvalidValue));
    assert_eq!(parse_buffer_info(&b"twelve\n7\n".to_vec()), Err(DOCAError::InvalidValue));
    assert_eq!(
        parse_buffer_info(&b"99999999999999999999\n7\n".to_vec()),
        Err(DOCAError::InvalidValue)
    );
}

#[test]
fn bindgen_test_save_config() {
    let desc_string = String::from("Hello!");
    let src_buffer_string = String::from("1234567890");

    // The two handoff payloads: the raw descriptor bytes, and the two-line
    // record of the source buffer's address and length.
    let src_len = src_buffer_string.as_bytes().len();
    let desc_bytes = desc_string.as_bytes().to_vec();
    let info_bytes = render_buffer_info(0x5000, src_len as u64);

    let configs = load_config_bytes(desc_bytes, &info_bytes).unwrap();

    assert_eq!(configs.remote_addr.payload, src_len);
    assert_eq!(configs.export_desc.len(), desc_string.as_bytes().len());
    assert_eq!(String::from_utf8(configs.export_desc.clone()).unwrap(), String::from("Hello!"));
    assert_eq!(configs.remote_addr.inner, 0x5000);
}
