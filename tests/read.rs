use rhai::Engine;
use rhai_net::{
    blob_read_plan, convert_to_int, finish_blob_read, finish_text_read, read_buffer, read_plan,
    text_read_plan, timeout_millis, NetError, ReadPlan,
};

#[test]
fn read_plan_regimes() {
    assert_eq!(read_plan(0, 0), ReadPlan::ToEnd);
    assert_eq!(read_plan(0, 7), ReadPlan::Once(7));
    assert_eq!(read_plan(16, 0), ReadPlan::Once(16));
    assert_eq!(read_plan(16, 7), ReadPlan::Once(7));
    assert_eq!(read_plan(16, 40), ReadPlan::Once(16));
    assert_eq!(read_plan(16, 16), ReadPlan::Once(16));
}

#[test]
fn negative_request_sets_no_limit_of_its_own() {
    assert_eq!(read_plan(0, -5), ReadPlan::Once(0));
    assert_eq!(read_plan(32, -5), ReadPlan::Once(32));
}

#[test]
fn nine_byte_request_is_a_single_bounded_read() {
    assert_eq!(read_plan(0, 9), ReadPlan::Once(9));
    let buf = read_buffer(read_plan(0, 9));
    assert_eq!(buf, vec![0u8; 9]);
    let mut filled = buf.clone();
    filled.copy_from_slice(b"from rust");
    assert_eq!(finish_text_read(filled, 9), Ok("from rust".to_string()));
}

#[test]
fn read_buffer_sizes() {
    assert!(read_buffer(ReadPlan::ToEnd).is_empty());
    assert_eq!(read_buffer(ReadPlan::Once(0)).len(), 0);
    assert_eq!(read_buffer(ReadPlan::Once(4)), vec![0u8; 4]);
}

#[test]
fn short_reads_are_truncated() {
    let mut buf = vec![0u8; 8];
    buf[..4].copy_from_slice(b"test");
    assert_eq!(finish_blob_read(buf.clone(), 4), b"test".to_vec());
    assert_eq!(finish_text_read(buf.clone(), 4), Ok("test".to_string()));
    assert_eq!(finish_text_read(buf.clone(), 0), Ok(String::new()));
    assert_eq!(finish_blob_read(buf, 8).len(), 8);
}

#[test]
fn invalid_text_is_a_text_error() {
    assert_eq!(finish_text_read(vec![0x66, 0xff, 0x6f], 3), Err(NetError::Text));
    assert_eq!(finish_text_read(vec![0xe2, 0x82, 0xac, 0xe2], 4), Err(NetError::Text));
    assert_eq!(finish_text_read(vec![0xe2, 0x82, 0xac, 0xe2], 3), Ok("\u{20ac}".to_string()));
}

#[test]
fn round_trip_of_written_bytes() {
    let sent: Vec<u8> = (0u8..=255).collect();
    let mut buf = read_buffer(read_plan(0, 256));
    buf.copy_from_slice(&sent);
    assert_eq!(finish_blob_read(buf, sent.len()), sent);
}

#[test]
fn engine_limits_set_the_ceiling() {
    let mut engine = Engine::new();
    engine.set_max_string_size(10);
    engine.set_max_array_size(3);
    assert_eq!(text_read_plan(&engine, 0), ReadPlan::Once(10));
    assert_eq!(text_read_plan(&engine, 4), ReadPlan::Once(4));
    assert_eq!(text_read_plan(&engine, 40), ReadPlan::Once(10));
    assert_eq!(blob_read_plan(&engine, 0), ReadPlan::Once(3));
    assert_eq!(blob_read_plan(&engine, 2), ReadPlan::Once(2));
}

#[test]
fn unlimited_engine_reads_to_the_end() {
    let mut engine = Engine::new();
    engine.set_max_string_size(0);
    engine.set_max_array_size(0);
    assert_eq!(text_read_plan(&engine, 0), ReadPlan::ToEnd);
    assert_eq!(blob_read_plan(&engine, 9), ReadPlan::Once(9));
}

#[test]
fn counts_convert_to_script_integers() {
    assert_eq!(convert_to_int(9), Ok(9));
    assert_eq!(convert_to_int(i64::MAX as usize), Ok(i64::MAX));
    assert_eq!(convert_to_int(usize::MAX), Err(NetError::Range));
}

#[test]
fn connect_timeout_is_the_magnitude() {
    assert_eq!(timeout_millis(100), 100);
    assert_eq!(timeout_millis(-100), 100);
    assert_eq!(timeout_millis(0), 0);
    assert_eq!(timeout_millis(i64::MIN), 1u64 << 63);
}
