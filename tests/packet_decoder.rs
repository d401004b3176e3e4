use phoenix_sim::ladder::Side;
use phoenix_sim::packet::{
    decode_ioc_packet_data, decode_limit_packet_data, decode_post_only_packet_data, DecodeError,
    ImmediateOrCancelPacket, LimitPacket, OrderPacketEnum, PostOnlyPacket, SelfTradeBehavior,
};

fn push_option(out: &mut Vec<u8>, v: Option<u64>) {
    match v {
        None => out.push(0),
        Some(x) => {
            out.push(1);
            out.extend_from_slice(&x.to_le_bytes());
        }
    }
}

fn post_only_bytes(p: &PostOnlyPacket, current: bool) -> Vec<u8> {
    let mut out = vec![0u8];
    out.push(if p.side == Side::Bid { 0 } else { 1 });
    out.extend_from_slice(&p.price_in_ticks.to_le_bytes());
    out.extend_from_slice(&p.num_base_lots.to_le_bytes());
    out.extend_from_slice(&p.client_order_id.to_le_bytes());
    out.push(p.reject_post_only as u8);
    out.push(p.use_only_deposited_funds as u8);
    if current {
        push_option(&mut out, p.last_valid_slot);
        push_option(&mut out, p.last_valid_unix_timestamp_in_seconds);
    }
    out
}

fn self_trade_byte(b: SelfTradeBehavior) -> u8 {
    match b {
        SelfTradeBehavior::Abort => 0,
        SelfTradeBehavior::CancelProvide => 1,
        SelfTradeBehavior::DecrementTake => 2,
    }
}

fn limit_bytes(p: &LimitPacket, current: bool) -> Vec<u8> {
    let mut out = vec![1u8];
    out.push(if p.side == Side::Bid { 0 } else { 1 });
    out.extend_from_slice(&p.price_in_ticks.to_le_bytes());
    out.extend_from_slice(&p.num_base_lots.to_le_bytes());
    out.push(self_trade_byte(p.self_trade_behavior));
    push_option(&mut out, p.match_limit);
    out.extend_from_slice(&p.client_order_id.to_le_bytes());
    out.push(p.use_only_deposited_funds as u8);
    if current {
        push_option(&mut out, p.last_valid_slot);
        push_option(&mut out, p.last_valid_unix_timestamp_in_seconds);
    }
    out
}

fn ioc_bytes(p: &ImmediateOrCancelPacket, current: bool) -> Vec<u8> {
    let mut out = vec![2u8];
    out.push(if p.side == Side::Bid { 0 } else { 1 });
    push_option(&mut out, p.price_in_ticks);
    out.extend_from_slice(&p.num_base_lots.to_le_bytes());
    out.extend_from_slice(&p.num_quote_lots.to_le_bytes());
    out.extend_from_slice(&p.min_base_lots_to_fill.to_le_bytes());
    out.extend_from_slice(&p.min_quote_lots_to_fill.to_le_bytes());
    out.push(self_trade_byte(p.self_trade_behavior));
    push_option(&mut out, p.match_limit);
    out.extend_from_slice(&p.client_order_id.to_le_bytes());
    out.push(p.use_only_deposited_funds as u8);
    if current {
        push_option(&mut out, p.last_valid_slot);
        push_option(&mut out, p.last_valid_unix_timestamp_in_seconds);
    }
    out
}

fn sample_post_only() -> PostOnlyPacket {
    PostOnlyPacket {
        side: Side::Ask,
        price_in_ticks: 0x58c0,
        num_base_lots: 0x0102_0304_0506_0708,
        client_order_id: 0x1122_3344_5566_7788_99aa_bbcc_ddee_ff00,
        reject_post_only: true,
        use_only_deposited_funds: false,
        last_valid_slot: Some(250_000_000),
        last_valid_unix_timestamp_in_seconds: None,
    }
}

fn sample_limit() -> LimitPacket {
    LimitPacket {
        side: Side::Bid,
        price_in_ticks: 22_720,
        num_base_lots: 3000,
        self_trade_behavior: SelfTradeBehavior::DecrementTake,
        match_limit: Some(12),
        client_order_id: 77,
        use_only_deposited_funds: true,
        last_valid_slot: None,
        last_valid_unix_timestamp_in_seconds: Some(1_700_000_000),
    }
}

fn sample_ioc() -> ImmediateOrCancelPacket {
    ImmediateOrCancelPacket {
        side: Side::Ask,
        price_in_ticks: None,
        num_base_lots: 10,
        num_quote_lots: 0,
        min_base_lots_to_fill: 5,
        min_quote_lots_to_fill: 0,
        self_trade_behavior: SelfTradeBehavior::CancelProvide,
        match_limit: None,
        client_order_id: u128::MAX,
        use_only_deposited_funds: false,
        last_valid_slot: Some(9),
        last_valid_unix_timestamp_in_seconds: Some(u64::MAX),
    }
}

#[test]
fn tag_bytes_name_the_kinds() {
    assert_eq!(OrderPacketEnum::from_tag(0), Some(OrderPacketEnum::PostOnly));
    assert_eq!(OrderPacketEnum::from_tag(1), Some(OrderPacketEnum::Limit));
    assert_eq!(OrderPacketEnum::from_tag(2), Some(OrderPacketEnum::ImmediateOrCancel));
    assert_eq!(OrderPacketEnum::from_tag(3), None);
}

#[test]
fn post_only_current_round_trip() {
    let p = sample_post_only();
    let bytes = post_only_bytes(&p, true);
    assert_eq!(bytes.len(), 1 + 35 + 9 + 1);
    assert_eq!(decode_post_only_packet_data(&bytes), Ok(p));
}

#[test]
fn post_only_deprecated_has_no_expiry() {
    let mut p = sample_post_only();
    p.last_valid_slot = None;
    let bytes = post_only_bytes(&p, false);
    let d = decode_post_only_packet_data(&bytes).unwrap();
    assert_eq!(d, p);
    assert_eq!(d.last_valid_slot, None);
    assert_eq!(d.last_valid_unix_timestamp_in_seconds, None);
    assert_eq!(d.num_base_lots, 0x0102_0304_0506_0708);
}

#[test]
fn limit_current_round_trip() {
    let p = sample_limit();
    assert_eq!(decode_limit_packet_data(&limit_bytes(&p, true)), Ok(p));
}

#[test]
fn limit_deprecated_has_no_expiry() {
    let mut p = sample_limit();
    p.last_valid_unix_timestamp_in_seconds = None;
    let d = decode_limit_packet_data(&limit_bytes(&p, false)).unwrap();
    assert_eq!(d, p);
    assert_eq!(d.match_limit, Some(12));
}

#[test]
fn ioc_current_round_trip() {
    let p = sample_ioc();
    assert_eq!(decode_ioc_packet_data(&ioc_bytes(&p, true)), Ok(p));
}

#[test]
fn ioc_deprecated_has_no_expiry() {
    let mut p = sample_ioc();
    p.price_in_ticks = Some(500);
    p.last_valid_slot = None;
    p.last_valid_unix_timestamp_in_seconds = None;
    let d = decode_ioc_packet_data(&ioc_bytes(&p, false)).unwrap();
    assert_eq!(d, p);
    assert_eq!(d.price_in_ticks, Some(500));
}

#[test]
fn empty_input_is_truncated() {
    assert_eq!(decode_post_only_packet_data(&[]), Err(DecodeError::TruncatedInput));
    assert_eq!(decode_limit_packet_data(&[]), Err(DecodeError::TruncatedInput));
    assert_eq!(decode_ioc_packet_data(&[]), Err(DecodeError::TruncatedInput));
}

#[test]
fn mismatched_tag_is_rejected() {
    let bytes = post_only_bytes(&sample_post_only(), true);
    assert_eq!(decode_limit_packet_data(&bytes), Err(DecodeError::UnknownOrMismatchedTag));
    assert_eq!(decode_ioc_packet_data(&bytes), Err(DecodeError::UnknownOrMismatchedTag));
    let mut unknown = bytes.clone();
    unknown[0] = 7;
    assert_eq!(decode_post_only_packet_data(&unknown), Err(DecodeError::UnknownOrMismatchedTag));
}

#[test]
fn malformed_body_is_a_schema_mismatch() {
    // a body one byte short of the deprecated layout
    let mut bytes = post_only_bytes(&sample_post_only(), false);
    bytes.pop();
    assert_eq!(decode_post_only_packet_data(&bytes), Err(DecodeError::SchemaMismatch));
    // a boolean byte that is neither 0 nor 1
    let mut bytes = limit_bytes(&sample_limit(), true);
    let last = bytes.len() - 11;
    assert_eq!(bytes[last], 1);
    bytes[last] = 2;
    assert_eq!(decode_limit_packet_data(&bytes), Err(DecodeError::SchemaMismatch));
    // a trailing byte after the current layout
    let mut bytes = ioc_bytes(&sample_ioc(), true);
    bytes.push(0);
    assert_eq!(decode_ioc_packet_data(&bytes), Err(DecodeError::SchemaMismatch));
    // an unknown side
    let mut bytes = post_only_bytes(&sample_post_only(), true);
    bytes[1] = 2;
    assert_eq!(decode_post_only_packet_data(&bytes), Err(DecodeError::SchemaMismatch));
}

#[test]
fn integers_are_little_endian() {
    let mut p = sample_post_only();
    p.price_in_ticks = 1;
    let bytes = post_only_bytes(&p, true);
    assert_eq!(bytes[2], 1);
    let mut swapped = bytes.clone();
    swapped[2] = 0;
    swapped[9] = 1;
    let d = decode_post_only_packet_data(&swapped).unwrap();
    assert_eq!(d.price_in_ticks, 1u64 << 56);
}
