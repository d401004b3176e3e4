//! Decoding of order packets: a tag byte followed by a fixed-order body of
//! little-endian integers, one-byte booleans and enum variants, and options
//! written as a presence byte followed by the value. Each body exists in a
//! current layout, which ends with two optional expiry fields, and in a
//! deprecated layout without them.

use vstd::prelude::*;
use crate::ladder::Side;
use crate::wire::{
    at, enc_bool, enc_option, enc_self_trade, enc_side, enc_u128, enc_u64, lemma_at_join,
    lemma_at_split, lemma_bool_unique, lemma_option_unique, lemma_self_trade_unique,
    lemma_side_unique, lemma_u128_unique, lemma_u64_unique, read_bool, read_option, read_self_trade, read_side, read_u128, read_u64,
};

verus! {

/// The kinds of order packet, in the order of their tag bytes.
#[derive(Clone, Copy, Debug, PartialEq, Eq, Structural)]
pub enum OrderPacketEnum {
    PostOnly,
    Limit,
    ImmediateOrCancel,
}

/// How the matching engine handles a trade against the trader's own order.
#[derive(Clone, Copy, Debug, PartialEq, Eq, Structural)]
pub enum SelfTradeBehavior {
    Abort,
    CancelProvide,
    DecrementTake,
}

/// Why a packet could not be decoded.
#[derive(Clone, Copy, Debug, PartialEq, Eq, Structural)]
pub enum DecodeError {
    /// No tag byte.
    TruncatedInput,
    /// The tag byte names no kind, or another kind than the one asked for.
    UnknownOrMismatchedTag,
    /// The body fits neither the current nor the deprecated layout.
    SchemaMismatch,
}

broadcast use crate::wire::lemma_le_bytes_len;

/// The tag byte of each kind of packet.
pub open spec fn tag_of(kind: OrderPacketEnum) -> u8 {
    match kind {
        OrderPacketEnum::PostOnly => 0,
        OrderPacketEnum::Limit => 1,
        OrderPacketEnum::ImmediateOrCancel => 2,
    }
}

impl OrderPacketEnum {
    /// The kind that a tag byte names, if any.
    pub fn from_tag(tag: u8) -> (r: Option<OrderPacketEnum>)
        ensures
            match r {
                Some(kind) => tag_of(kind) == tag,
                None => tag > 2,
            },
    {
        if tag == 0 {
            Some(OrderPacketEnum::PostOnly)
        } else if tag == 1 {
            Some(OrderPacketEnum::Limit)
        } else if tag == 2 {
            Some(OrderPacketEnum::ImmediateOrCancel)
        } else {
            None
        }
    }
}

/// The two expiry fields, present only in the current layout.
pub open spec fn enc_expiry(slot: Option<u64>, time: Option<u64>, current: bool) -> Seq<u8> {
    if current {
        enc_option(slot) + enc_option(time)
    } else {
        seq![]
    }
}

/// The deprecated layout has no expiry fields, so a value read from it has
/// neither set.
pub open spec fn expiry_fits(slot: Option<u64>, time: Option<u64>, current: bool) -> bool {
    current || (slot is None && time is None)
}

proof fn lemma_body_at(s: Seq<u8>, body: Seq<u8>)
    requires
        s.len() >= 1,
    ensures
        s.drop_first() == body <==> (at(s, 1, body) && 1 + body.len() == s.len()),
{
    assert(s.subrange(1, s.len() as int) =~= s.drop_first());
}

/// Reads the expiry fields at `pos` when the layout is the current one.
fn read_expiry(b: &[u8], pos: usize, ok: bool, current: bool) -> (r: (
    Option<u64>,
    Option<u64>,
    usize,
    bool,
))
    requires
        pos <= b.len(),
    ensures
        r.2 <= b.len(),
        r.3 ==> ok && expiry_fits(r.0, r.1, current) && at(b@, pos as int, enc_expiry(r.0, r.1, current))
            && r.2 == pos + enc_expiry(r.0, r.1, current).len(),
        forall|x: Option<u64>, y: Option<u64>|
            ok && expiry_fits(x, y, current) && #[trigger] at(b@, pos as int, enc_expiry(x, y, current))
                ==> r.3 && r.0 == x && r.1 == y && r.2 == pos + enc_expiry(x, y, current).len(),
{
    if current {
        let (slot, q1, k1) = read_option(b, pos, ok);
        let (time, q2, k2) = read_option(b, q1, k1);
        proof {
            if k2 {
                lemma_at_join(b@, pos as int, enc_option(slot), enc_option(time));
            }
            assert forall|x: Option<u64>, y: Option<u64>|
                ok && expiry_fits(x, y, current) && #[trigger] at(
                    b@,
                    pos as int,
                    enc_expiry(x, y, current),
                ) implies k2 && slot == x && time == y && q2 == pos + enc_expiry(x, y, current).len() by {
                lemma_at_split(b@, pos as int, enc_option(x), enc_option(y));
            }
        }
        (slot, time, q2, k2)
    } else {
        proof {
            assert(b@.subrange(pos as int, pos as int) =~= enc_expiry(None, None, false));
        }
        (None, None, pos, ok)
    }
}

/// A post-only order.
#[derive(Clone, Copy, Debug, PartialEq, Eq, Structural)]
pub struct PostOnlyPacket {
    pub side: Side,
    pub price_in_ticks: u64,
    pub num_base_lots: u64,
    pub client_order_id: u128,
    pub reject_post_only: bool,
    pub use_only_deposited_funds: bool,
    pub last_valid_slot: Option<u64>,
    pub last_valid_unix_timestamp_in_seconds: Option<u64>,
}

/// The body of a post-only packet in the current or the deprecated layout.
pub open spec fn post_only_body(p: PostOnlyPacket, current: bool) -> Seq<u8> {
    enc_side(p.side) + enc_u64(p.price_in_ticks) + enc_u64(p.num_base_lots) + enc_u128(
        p.client_order_id,
    ) + enc_bool(p.reject_post_only) + enc_bool(p.use_only_deposited_funds) + enc_expiry(
        p.last_valid_slot,
        p.last_valid_unix_timestamp_in_seconds,
        current,
    )
}

/// `body` is the encoding of `p` in the given layout.
pub open spec fn post_only_fits(p: PostOnlyPacket, body: Seq<u8>, current: bool) -> bool {
    post_only_body(p, current) == body && expiry_fits(
        p.last_valid_slot,
        p.last_valid_unix_timestamp_in_seconds,
        current,
    )
}

/// What decoding `bytes` as a post-only packet gives: the current layout is
/// tried before the deprecated one.
pub open spec fn post_only_decoding(bytes: Seq<u8>) -> Result<PostOnlyPacket, DecodeError> {
    let body = bytes.drop_first();
    if bytes.len() == 0 {
        Err(DecodeError::TruncatedInput)
    } else if bytes[0] != tag_of(OrderPacketEnum::PostOnly) {
        Err(DecodeError::UnknownOrMismatchedTag)
    } else if exists|p: PostOnlyPacket| post_only_fits(p, body, true) {
        Ok(choose|p: PostOnlyPacket| post_only_fits(p, body, true))
    } else if exists|p: PostOnlyPacket| post_only_fits(p, body, false) {
        Ok(choose|p: PostOnlyPacket| post_only_fits(p, body, false))
    } else {
        Err(DecodeError::SchemaMismatch)
    }
}

/// Reads the body after the tag byte as a post-only packet in one layout.
fn parse_post_only(b: &[u8], current: bool) -> (r: Option<PostOnlyPacket>)
    requires
        b.len() >= 1,
    ensures
        r matches Some(p) ==> post_only_fits(p, b@.drop_first(), current),
        forall|p: PostOnlyPacket| post_only_fits(p, b@.drop_first(), current) ==> r == Some(p),
{
    let (side, q1, k1) = read_side(b, 1, true);
    let (price_in_ticks, q2, k2) = read_u64(b, q1, k1);
    let (num_base_lots, q3, k3) = read_u64(b, q2, k2);
    let (client_order_id, q4, k4) = read_u128(b, q3, k3);
    let (reject_post_only, q5, k5) = read_bool(b, q4, k4);
    let (use_only_deposited_funds, q6, k6) = read_bool(b, q5, k5);
    let (last_valid_slot, last_valid_unix_timestamp_in_seconds, q7, k7) = read_expiry(
        b,
        q6,
        k6,
        current,
    );
    let p = PostOnlyPacket {
        side,
        price_in_ticks,
        num_base_lots,
        client_order_id,
        reject_post_only,
        use_only_deposited_funds,
        last_valid_slot,
        last_valid_unix_timestamp_in_seconds,
    };
    let r = if k7 && q7 == b.len() {
        Some(p)
    } else {
        None
    };
    proof {
        let s = b@;
        let e1 = enc_side(side);
        let e2 = e1 + enc_u64(price_in_ticks);
        let e3 = e2 + enc_u64(num_base_lots);
        let e4 = e3 + enc_u128(client_order_id);
        let e5 = e4 + enc_bool(reject_post_only);
        let e6 = e5 + enc_bool(use_only_deposited_funds);
        if k7 && q7 == b.len() {
            lemma_at_join(s, 1, e1, enc_u64(price_in_ticks));
            lemma_at_join(s, 1, e2, enc_u64(num_base_lots));
            lemma_at_join(s, 1, e3, enc_u128(client_order_id));
            lemma_at_join(s, 1, e4, enc_bool(reject_post_only));
            lemma_at_join(s, 1, e5, enc_bool(use_only_deposited_funds));
            lemma_at_join(
                s,
                1,
                e6,
                enc_expiry(last_valid_slot, last_valid_unix_timestamp_in_seconds, current),
            );
            lemma_body_at(s, post_only_body(p, current));
        }
        assert forall|x: PostOnlyPacket| post_only_fits(x, s.drop_first(), current) implies r == Some(
            x,
        ) by {
            let f1 = enc_side(x.side);
            let f2 = f1 + enc_u64(x.price_in_ticks);
            let f3 = f2 + enc_u64(x.num_base_lots);
            let f4 = f3 + enc_u128(x.client_order_id);
            let f5 = f4 + enc_bool(x.reject_post_only);
            let f6 = f5 + enc_bool(x.use_only_deposited_funds);
            let tail = enc_expiry(x.last_valid_slot, x.last_valid_unix_timestamp_in_seconds, current);
            lemma_body_at(s, post_only_body(x, current));
            lemma_at_split(s, 1, f6, tail);
            lemma_at_split(s, 1, f5, enc_bool(x.use_only_deposited_funds));
            lemma_at_split(s, 1, f4, enc_bool(x.reject_post_only));
            lemma_at_split(s, 1, f3, enc_u128(x.client_order_id));
            lemma_at_split(s, 1, f2, enc_u64(x.num_base_lots));
            lemma_at_split(s, 1, f1, enc_u64(x.price_in_ticks));
        }
    }
    r
}

/// Decodes a post-only packet: a tag byte, then the body in the current
/// layout or, failing that, in the deprecated one.
pub fn decode_post_only_packet_data(bytes: &[u8]) -> (r: Result<PostOnlyPacket, DecodeError>)
    ensures
        r == post_only_decoding(bytes@),
{
    if bytes.len() == 0 {
        return Err(DecodeError::TruncatedInput);
    }
    match OrderPacketEnum::from_tag(bytes[0]) {
        Some(OrderPacketEnum::PostOnly) => {
            if let Some(p) = parse_post_only(bytes, true) {
                return Ok(p);
            }
            match parse_post_only(bytes, false) {
                Some(p) => Ok(p),
                None => Err(DecodeError::SchemaMismatch),
            }
        },
        _ => Err(DecodeError::UnknownOrMismatchedTag),
    }
}

/// A limit order.
#[derive(Clone, Copy, Debug, PartialEq, Eq, Structural)]
pub struct LimitPacket {
    pub side: Side,
    pub price_in_ticks: u64,
    pub num_base_lots: u64,
    pub self_trade_behavior: SelfTradeBehavior,
    pub match_limit: Option<u64>,
    pub client_order_id: u128,
    pub use_only_deposited_funds: bool,
    pub last_valid_slot: Option<u64>,
    pub last_valid_unix_timestamp_in_seconds: Option<u64>,
}

/// The body of a limit packet in the current or the deprecated layout.
pub open spec fn limit_body(p: LimitPacket, current: bool) -> Seq<u8> {
    enc_side(p.side) + enc_u64(p.price_in_ticks) + enc_u64(p.num_base_lots) + enc_self_trade(p.self_trade_behavior) + enc_option(p.match_limit) + enc_u128(p.client_order_id) + enc_bool(p.use_only_deposited_funds) + enc_expiry(p.last_valid_slot, p.last_valid_unix_timestamp_in_seconds, current)
}

/// `body` is the encoding of `p` in the given layout.
pub open spec fn limit_fits(p: LimitPacket, body: Seq<u8>, current: bool) -> bool {
    limit_body(p, current) == body && expiry_fits(
        p.last_valid_slot,
        p.last_valid_unix_timestamp_in_seconds,
        current,
    )
}

/// What decoding `bytes` as a limit packet gives: the current layout is
/// tried before the deprecated one.
pub open spec fn limit_decoding(bytes: Seq<u8>) -> Result<LimitPacket, DecodeError> {
    let body = bytes.drop_first();
    if bytes.len() == 0 {
        Err(DecodeError::TruncatedInput)
    } else if bytes[0] != tag_of(OrderPacketEnum::Limit) {
        Err(DecodeError::UnknownOrMismatchedTag)
    } else if exists|p: LimitPacket| limit_fits(p, body, true) {
        Ok(choose|p: LimitPacket| limit_fits(p, body, true))
    } else if exists|p: LimitPacket| limit_fits(p, body, false) {
        Ok(choose|p: LimitPacket| limit_fits(p, body, false))
    } else {
        Err(DecodeError::SchemaMismatch)
    }
}

/// Reads the body after the tag byte as a limit packet in one layout.
fn parse_limit(b: &[u8], current: bool) -> (r: Option<LimitPacket>)
    requires
        b.len() >= 1,
    ensures
        r matches Some(p) ==> limit_fits(p, b@.drop_first(), current),
        forall|p: LimitPacket| limit_fits(p, b@.drop_first(), current) ==> r == Some(p),
{
    let (side, q1, k1) = read_side(b, 1, true);
    let (price_in_ticks, q2, k2) = read_u64(b, q1, k1);
    let (num_base_lots, q3, k3) = read_u64(b, q2, k2);
    let (self_trade_behavior, q4, k4) = read_self_trade(b, q3, k3);
    let (match_limit, q5, k5) = read_option(b, q4, k4);
    let (client_order_id, q6, k6) = read_u128(b, q5, k5);
    let (use_only_deposited_funds, q7, k7) = read_bool(b, q6, k6);
    let (last_valid_slot, last_valid_unix_timestamp_in_seconds, q8, k8) = read_expiry(
        b,
        q7,
        k7,
        current,
    );
    let p = LimitPacket {
        side,
        price_in_ticks,
        num_base_lots,
        self_trade_behavior,
        match_limit,
        client_order_id,
        use_only_deposited_funds,
        last_valid_slot,
        last_valid_unix_timestamp_in_seconds,
    };
    let r = if k8 && q8 == b.len() {
        Some(p)
    } else {
        None
    };
    proof {
        let s = b@;
        let e1 = enc_side(side);
        let e2 = e1 + enc_u64(price_in_ticks);
        let e3 = e2 + enc_u64(num_base_lots);
        let e4 = e3 + enc_self_trade(self_trade_behavior);
        let e5 = e4 + enc_option(match_limit);
        let e6 = e5 + enc_u128(client_order_id);
        let e7 = e6 + enc_bool(use_only_deposited_funds);
        if k8 && q8 == b.len() {
            lemma_at_join(s, 1, e1, enc_u64(price_in_ticks));
            lemma_at_join(s, 1, e2, enc_u64(num_base_lots));
            lemma_at_join(s, 1, e3, enc_self_trade(self_trade_behavior));
            lemma_at_join(s, 1, e4, enc_option(match_limit));
            lemma_at_join(s, 1, e5, enc_u128(client_order_id));
            lemma_at_join(s, 1, e6, enc_bool(use_only_deposited_funds));
            lemma_at_join(
                s,
                1,
                e7,
                enc_expiry(last_valid_slot, last_valid_unix_timestamp_in_seconds, current),
            );
            lemma_body_at(s, limit_body(p, current));
        }
        assert forall|x: LimitPacket| limit_fits(x, s.drop_first(), current) implies r == Some(x) by {
            let f1 = enc_side(x.side);
            let f2 = f1 + enc_u64(x.price_in_ticks);
            let f3 = f2 + enc_u64(x.num_base_lots);
            let f4 = f3 + enc_self_trade(x.self_trade_behavior);
            let f5 = f4 + enc_option(x.match_limit);
            let f6 = f5 + enc_u128(x.client_order_id);
            let f7 = f6 + enc_bool(x.use_only_deposited_funds);
            let tail = enc_expiry(x.last_valid_slot, x.last_valid_unix_timestamp_in_seconds, current);
            lemma_body_at(s, limit_body(x, current));
            lemma_at_split(s, 1, f7, tail);
            lemma_at_split(s, 1, f6, enc_bool(x.use_only_deposited_funds));
            lemma_at_split(s, 1, f5, enc_u128(x.client_order_id));
            lemma_at_split(s, 1, f4, enc_option(x.match_limit));
            lemma_at_split(s, 1, f3, enc_self_trade(x.self_trade_behavior));
            lemma_at_split(s, 1, f2, enc_u64(x.num_base_lots));
            lemma_at_split(s, 1, f1, enc_u64(x.price_in_ticks));
        }
    }
    r
}

/// Decodes a limit packet: a tag byte, then the body in the current
/// layout or, failing that, in the deprecated one.
pub fn decode_limit_packet_data(bytes: &[u8]) -> (r: Result<LimitPacket, DecodeError>)
    ensures
        r == limit_decoding(bytes@),
{
    if bytes.len() == 0 {
        return Err(DecodeError::TruncatedInput);
    }
    match OrderPacketEnum::from_tag(bytes[0]) {
        Some(OrderPacketEnum::Limit) => {
            if let Some(p) = parse_limit(bytes, true) {
                return Ok(p);
            }
            match parse_limit(bytes, false) {
                Some(p) => Ok(p),
                None => Err(DecodeError::SchemaMismatch),
            }
        },
        _ => Err(DecodeError::UnknownOrMismatchedTag),
    }
}

/// An immediate-or-cancel order; a price of `None` makes it a market order.
#[derive(Clone, Copy, Debug, PartialEq, Eq, Structural)]
pub struct ImmediateOrCancelPacket {
    pub side: Side,
    pub price_in_ticks: Option<u64>,
    pub num_base_lots: u64,
    pub num_quote_lots: u64,
    pub min_base_lots_to_fill: u64,
    pub min_quote_lots_to_fill: u64,
    pub self_trade_behavior: SelfTradeBehavior,
    pub match_limit: Option<u64>,
    pub client_order_id: u128,
    pub use_only_deposited_funds: bool,
    pub last_valid_slot: Option<u64>,
    pub last_valid_unix_timestamp_in_seconds: Option<u64>,
}

/// The body of an immediate-or-cancel packet in the current or the deprecated layout.
pub open spec fn ioc_body(p: ImmediateOrCancelPacket, current: bool) -> Seq<u8> {
    enc_side(p.side) + enc_option(p.price_in_ticks) + enc_u64(p.num_base_lots) + enc_u64(p.num_quote_lots) + enc_u64(p.min_base_lots_to_fill) + enc_u64(p.min_quote_lots_to_fill) + enc_self_trade(p.self_trade_behavior) + enc_option(p.match_limit) + enc_u128(p.client_order_id) + enc_bool(p.use_only_deposited_funds) + enc_expiry(p.last_valid_slot, p.last_valid_unix_timestamp_in_seconds, current)
}

/// `body` is the encoding of `p` in the given layout.
pub open spec fn ioc_fits(p: ImmediateOrCancelPacket, body: Seq<u8>, current: bool) -> bool {
    ioc_body(p, current) == body && expiry_fits(
        p.last_valid_slot,
        p.last_valid_unix_timestamp_in_seconds,
        current,
    )
}

/// What decoding `bytes` as an immediate-or-cancel packet gives: the current layout is
/// tried before the deprecated one.
pub open spec fn ioc_decoding(bytes: Seq<u8>) -> Result<ImmediateOrCancelPacket, DecodeError> {
    let body = bytes.drop_first();
    if bytes.len() == 0 {
        Err(DecodeError::TruncatedInput)
    } else if bytes[0] != tag_of(OrderPacketEnum::ImmediateOrCancel) {
        Err(DecodeError::UnknownOrMismatchedTag)
    } else if exists|p: ImmediateOrCancelPacket| ioc_fits(p, body, true) {
        Ok(choose|p: ImmediateOrCancelPacket| ioc_fits(p, body, true))
    } else if exists|p: ImmediateOrCancelPacket| ioc_fits(p, body, false) {
        Ok(choose|p: ImmediateOrCancelPacket| ioc_fits(p, body, false))
    } else {
        Err(DecodeError::SchemaMismatch)
    }
}

/// Reads the body after the tag byte as an immediate-or-cancel packet in one layout.
#[verifier::rlimit(60)]
fn parse_ioc(b: &[u8], current: bool) -> (r: Option<ImmediateOrCancelPacket>)
    requires
        b.len() >= 1,
    ensures
        r matches Some(p) ==> ioc_fits(p, b@.drop_first(), current),
        forall|p: ImmediateOrCancelPacket| ioc_fits(p, b@.drop_first(), current) ==> r == Some(p),
{
    let (side, q1, k1) = read_side(b, 1, true);
    let (price_in_ticks, q2, k2) = read_option(b, q1, k1);
    let (num_base_lots, q3, k3) = read_u64(b, q2, k2);
    let (num_quote_lots, q4, k4) = read_u64(b, q3, k3);
    let (min_base_lots_to_fill, q5, k5) = read_u64(b, q4, k4);
    let (min_quote_lots_to_fill, q6, k6) = read_u64(b, q5, k5);
    let (self_trade_behavior, q7, k7) = read_self_trade(b, q6, k6);
    let (match_limit, q8, k8) = read_option(b, q7, k7);
    let (client_order_id, q9, k9) = read_u128(b, q8, k8);
    let (use_only_deposited_funds, q10, k10) = read_bool(b, q9, k9);
    let (last_valid_slot, last_valid_unix_timestamp_in_seconds, q11, k11) = read_expiry(
        b,
        q10,
        k10,
        current,
    );
    let p = ImmediateOrCancelPacket {
        side,
        price_in_ticks,
        num_base_lots,
        num_quote_lots,
        min_base_lots_to_fill,
        min_quote_lots_to_fill,
        self_trade_behavior,
        match_limit,
        client_order_id,
        use_only_deposited_funds,
        last_valid_slot,
        last_valid_unix_timestamp_in_seconds,
    };
    let r = if k11 && q11 == b.len() {
        Some(p)
    } else {
        None
    };
    proof {
        let s = b@;
        let e1 = enc_side(side);
        let e2 = e1 + enc_option(price_in_ticks);
        let e3 = e2 + enc_u64(num_base_lots);
        let e4 = e3 + enc_u64(num_quote_lots);
        let e5 = e4 + enc_u64(min_base_lots_to_fill);
        let e6 = e5 + enc_u64(min_quote_lots_to_fill);
        let e7 = e6 + enc_self_trade(self_trade_behavior);
        let e8 = e7 + enc_option(match_limit);
        let e9 = e8 + enc_u128(client_order_id);
        let e10 = e9 + enc_bool(use_only_deposited_funds);
        if k11 && q11 == b.len() {
            lemma_at_join(s, 1, e1, enc_option(price_in_ticks));
            lemma_at_join(s, 1, e2, enc_u64(num_base_lots));
            lemma_at_join(s, 1, e3, enc_u64(num_quote_lots));
            lemma_at_join(s, 1, e4, enc_u64(min_base_lots_to_fill));
            lemma_at_join(s, 1, e5, enc_u64(min_quote_lots_to_fill));
            lemma_at_join(s, 1, e6, enc_self_trade(self_trade_behavior));
            lemma_at_join(s, 1, e7, enc_option(match_limit));
            lemma_at_join(s, 1, e8, enc_u128(client_order_id));
            lemma_at_join(s, 1, e9, enc_bool(use_only_deposited_funds));
            lemma_at_join(
                s,
                1,
                e10,
                enc_expiry(last_valid_slot, last_valid_unix_timestamp_in_seconds, current),
            );
            lemma_body_at(s, ioc_body(p, current));
        }
        assert forall|x: ImmediateOrCancelPacket| ioc_fits(x, s.drop_first(), current) implies r == Some(x) by {
            let f1 = enc_side(x.side);
            let f2 = f1 + enc_option(x.price_in_ticks);
            let f3 = f2 + enc_u64(x.num_base_lots);
            let f4 = f3 + enc_u64(x.num_quote_lots);
            let f5 = f4 + enc_u64(x.min_base_lots_to_fill);
            let f6 = f5 + enc_u64(x.min_quote_lots_to_fill);
            let f7 = f6 + enc_self_trade(x.self_trade_behavior);
            let f8 = f7 + enc_option(x.match_limit);
            let f9 = f8 + enc_u128(x.client_order_id);
            let f10 = f9 + enc_bool(x.use_only_deposited_funds);
            let tail = enc_expiry(x.last_valid_slot, x.last_valid_unix_timestamp_in_seconds, current);
            lemma_body_at(s, ioc_body(x, current));
            lemma_at_split(s, 1, f10, tail);
            lemma_at_split(s, 1, f9, enc_bool(x.use_only_deposited_funds));
            lemma_at_split(s, 1, f8, enc_u128(x.client_order_id));
            lemma_at_split(s, 1, f7, enc_option(x.match_limit));
            lemma_at_split(s, 1, f6, enc_self_trade(x.self_trade_behavior));
            lemma_at_split(s, 1, f5, enc_u64(x.min_quote_lots_to_fill));
            lemma_at_split(s, 1, f4, enc_u64(x.min_base_lots_to_fill));
            lemma_at_split(s, 1, f3, enc_u64(x.num_quote_lots));
            lemma_at_split(s, 1, f2, enc_u64(x.num_base_lots));
            lemma_at_split(s, 1, f1, enc_option(x.price_in_ticks));
        }
    }
    r
}

/// Decodes an immediate-or-cancel packet: a tag byte, then the body in the current
/// layout or, failing that, in the deprecated one.
pub fn decode_ioc_packet_data(bytes: &[u8]) -> (r: Result<ImmediateOrCancelPacket, DecodeError>)
    ensures
        r == ioc_decoding(bytes@),
{
    if bytes.len() == 0 {
        return Err(DecodeError::TruncatedInput);
    }
    match OrderPacketEnum::from_tag(bytes[0]) {
        Some(OrderPacketEnum::ImmediateOrCancel) => {
            if let Some(p) = parse_ioc(bytes, true) {
                return Ok(p);
            }
            match parse_ioc(bytes, false) {
                Some(p) => Ok(p),
                None => Err(DecodeError::SchemaMismatch),
            }
        },
        _ => Err(DecodeError::UnknownOrMismatchedTag),
    }
}

/// Two packets with the same encoding in one layout are equal.
proof fn lemma_post_only_injective(s: Seq<u8>, p: PostOnlyPacket, q: PostOnlyPacket, current: bool)
    requires
        s.len() >= 1,
        post_only_fits(p, s.drop_first(), current),
        post_only_fits(q, s.drop_first(), current),
    ensures
        p == q,
{
    let p1 = enc_side(p.side);
    let p2 = p1 + enc_u64(p.price_in_ticks);
    let p3 = p2 + enc_u64(p.num_base_lots);
    let p4 = p3 + enc_u128(p.client_order_id);
    let p5 = p4 + enc_bool(p.reject_post_only);
    let p6 = p5 + enc_bool(p.use_only_deposited_funds);
    lemma_body_at(s, post_only_body(p, current));
    lemma_at_split(s, 1, p6, enc_expiry(p.last_valid_slot, p.last_valid_unix_timestamp_in_seconds, current));
    lemma_at_split(s, 1, p5, enc_bool(p.use_only_deposited_funds));
    lemma_at_split(s, 1, p4, enc_bool(p.reject_post_only));
    lemma_at_split(s, 1, p3, enc_u128(p.client_order_id));
    lemma_at_split(s, 1, p2, enc_u64(p.num_base_lots));
    lemma_at_split(s, 1, p1, enc_u64(p.price_in_ticks));
    let q1 = enc_side(q.side);
    let q2 = q1 + enc_u64(q.price_in_ticks);
    let q3 = q2 + enc_u64(q.num_base_lots);
    let q4 = q3 + enc_u128(q.client_order_id);
    let q5 = q4 + enc_bool(q.reject_post_only);
    let q6 = q5 + enc_bool(q.use_only_deposited_funds);
    lemma_body_at(s, post_only_body(q, current));
    lemma_at_split(s, 1, q6, enc_expiry(q.last_valid_slot, q.last_valid_unix_timestamp_in_seconds, current));
    lemma_at_split(s, 1, q5, enc_bool(q.use_only_deposited_funds));
    lemma_at_split(s, 1, q4, enc_bool(q.reject_post_only));
    lemma_at_split(s, 1, q3, enc_u128(q.client_order_id));
    lemma_at_split(s, 1, q2, enc_u64(q.num_base_lots));
    lemma_at_split(s, 1, q1, enc_u64(q.price_in_ticks));
    lemma_side_unique(s, 1, p.side, q.side);
    lemma_u64_unique(s, 1 + p1.len() as int, p.price_in_ticks, q.price_in_ticks);
    lemma_u64_unique(s, 1 + p2.len() as int, p.num_base_lots, q.num_base_lots);
    lemma_u128_unique(s, 1 + p3.len() as int, p.client_order_id, q.client_order_id);
    lemma_bool_unique(s, 1 + p4.len() as int, p.reject_post_only, q.reject_post_only);
    lemma_bool_unique(s, 1 + p5.len() as int, p.use_only_deposited_funds, q.use_only_deposited_funds);
    if current {
        let pos = 1 + p6.len() as int;
        lemma_at_split(s, pos, enc_option(p.last_valid_slot), enc_option(p.last_valid_unix_timestamp_in_seconds));
        lemma_at_split(s, pos, enc_option(q.last_valid_slot), enc_option(q.last_valid_unix_timestamp_in_seconds));
        lemma_option_unique(s, pos, p.last_valid_slot, q.last_valid_slot);
        lemma_option_unique(
            s,
            pos + enc_option(p.last_valid_slot).len(),
            p.last_valid_unix_timestamp_in_seconds,
            q.last_valid_unix_timestamp_in_seconds,
        );
    }
}

/// Decoding the tag byte and the current-layout encoding of a post-only packet gives the packet back, expiry fields included.
pub proof fn lemma_post_only_round_trip(p: PostOnlyPacket)
    ensures
        post_only_decoding(seq![tag_of(OrderPacketEnum::PostOnly)] + post_only_body(p, true)) == Ok::<PostOnlyPacket, DecodeError>(p),
{
    let s = seq![tag_of(OrderPacketEnum::PostOnly)] + post_only_body(p, true);
    assert(s.drop_first() =~= post_only_body(p, true));
    assert(post_only_fits(p, s.drop_first(), true));
    let c = choose|x: PostOnlyPacket| post_only_fits(x, s.drop_first(), true);
    lemma_post_only_injective(s, p, c, true);
}

/// Decoding the tag byte and the deprecated-layout encoding of a post-only packet gives the same field values with both expiry fields unset.
pub proof fn lemma_post_only_deprecated(p: PostOnlyPacket)
    requires
        p.last_valid_slot is None,
        p.last_valid_unix_timestamp_in_seconds is None,
    ensures
        post_only_decoding(seq![tag_of(OrderPacketEnum::PostOnly)] + post_only_body(p, false)) == Ok::<PostOnlyPacket, DecodeError>(p),
{
    let s = seq![tag_of(OrderPacketEnum::PostOnly)] + post_only_body(p, false);
    assert(s.drop_first() =~= post_only_body(p, false));
    assert(post_only_fits(p, s.drop_first(), false));
    assert forall|x: PostOnlyPacket| !post_only_fits(x, s.drop_first(), true) by {
        if post_only_fits(x, s.drop_first(), true) {
            assert(post_only_body(x, true).len() == post_only_body(p, false).len());
        }
    }
    let c = choose|x: PostOnlyPacket| post_only_fits(x, s.drop_first(), false);
    lemma_post_only_injective(s, p, c, false);
}

/// Two packets with the same encoding in one layout are equal.
proof fn lemma_limit_injective(s: Seq<u8>, p: LimitPacket, q: LimitPacket, current: bool)
    requires
        s.len() >= 1,
        limit_fits(p, s.drop_first(), current),
        limit_fits(q, s.drop_first(), current),
    ensures
        p == q,
{
    let p1 = enc_side(p.side);
    let p2 = p1 + enc_u64(p.price_in_ticks);
    let p3 = p2 + enc_u64(p.num_base_lots);
    let p4 = p3 + enc_self_trade(p.self_trade_behavior);
    let p5 = p4 + enc_option(p.match_limit);
    let p6 = p5 + enc_u128(p.client_order_id);
    let p7 = p6 + enc_bool(p.use_only_deposited_funds);
    lemma_body_at(s, limit_body(p, current));
    lemma_at_split(s, 1, p7, enc_expiry(p.last_valid_slot, p.last_valid_unix_timestamp_in_seconds, current));
    lemma_at_split(s, 1, p6, enc_bool(p.use_only_deposited_funds));
    lemma_at_split(s, 1, p5, enc_u128(p.client_order_id));
    lemma_at_split(s, 1, p4, enc_option(p.match_limit));
    lemma_at_split(s, 1, p3, enc_self_trade(p.self_trade_behavior));
    lemma_at_split(s, 1, p2, enc_u64(p.num_base_lots));
    lemma_at_split(s, 1, p1, enc_u64(p.price_in_ticks));
    let q1 = enc_side(q.side);
    let q2 = q1 + enc_u64(q.price_in_ticks);
    let q3 = q2 + enc_u64(q.num_base_lots);
    let q4 = q3 + enc_self_trade(q.self_trade_behavior);
    let q5 = q4 + enc_option(q.match_limit);
    let q6 = q5 + enc_u128(q.client_order_id);
    let q7 = q6 + enc_bool(q.use_only_deposited_funds);
    lemma_body_at(s, limit_body(q, current));
    lemma_at_split(s, 1, q7, enc_expiry(q.last_valid_slot, q.last_valid_unix_timestamp_in_seconds, current));
    lemma_at_split(s, 1, q6, enc_bool(q.use_only_deposited_funds));
    lemma_at_split(s, 1, q5, enc_u128(q.client_order_id));
    lemma_at_split(s, 1, q4, enc_option(q.match_limit));
    lemma_at_split(s, 1, q3, enc_self_trade(q.self_trade_behavior));
    lemma_at_split(s, 1, q2, enc_u64(q.num_base_lots));
    lemma_at_split(s, 1, q1, enc_u64(q.price_in_ticks));
    lemma_side_unique(s, 1, p.side, q.side);
    lemma_u64_unique(s, 1 + p1.len() as int, p.price_in_ticks, q.price_in_ticks);
    lemma_u64_unique(s, 1 + p2.len() as int, p.num_base_lots, q.num_base_lots);
    lemma_self_trade_unique(s, 1 + p3.len() as int, p.self_trade_behavior, q.self_trade_behavior);
    lemma_option_unique(s, 1 + p4.len() as int, p.match_limit, q.match_limit);
    lemma_u128_unique(s, 1 + p5.len() as int, p.client_order_id, q.client_order_id);
    lemma_bool_unique(s, 1 + p6.len() as int, p.use_only_deposited_funds, q.use_only_deposited_funds);
    if current {
        let pos = 1 + p7.len() as int;
        lemma_at_split(s, pos, enc_option(p.last_valid_slot), enc_option(p.last_valid_unix_timestamp_in_seconds));
        lemma_at_split(s, pos, enc_option(q.last_valid_slot), enc_option(q.last_valid_unix_timestamp_in_seconds));
        lemma_option_unique(s, pos, p.last_valid_slot, q.last_valid_slot);
        lemma_option_unique(
            s,
            pos + enc_option(p.last_valid_slot).len(),
            p.last_valid_unix_timestamp_in_seconds,
            q.last_valid_unix_timestamp_in_seconds,
        );
    }
}

/// Decoding the tag byte and the current-layout encoding of a limit packet gives the packet back, expiry fields included.
pub proof fn lemma_limit_round_trip(p: LimitPacket)
    ensures
        limit_decoding(seq![tag_of(OrderPacketEnum::Limit)] + limit_body(p, true)) == Ok::<LimitPacket, DecodeError>(p),
{
    let s = seq![tag_of(OrderPacketEnum::Limit)] + limit_body(p, true);
    assert(s.drop_first() =~= limit_body(p, true));
    assert(limit_fits(p, s.drop_first(), true));
    let c = choose|x: LimitPacket| limit_fits(x, s.drop_first(), true);
    lemma_limit_injective(s, p, c, true);
}

/// Decoding the tag byte and the deprecated-layout encoding of a limit packet gives the same field values with both expiry fields unset.
pub proof fn lemma_limit_deprecated(p: LimitPacket)
    requires
        p.last_valid_slot is None,
        p.last_valid_unix_timestamp_in_seconds is None,
    ensures
        limit_decoding(seq![tag_of(OrderPacketEnum::Limit)] + limit_body(p, false)) == Ok::<LimitPacket, DecodeError>(p),
{
    let s = seq![tag_of(OrderPacketEnum::Limit)] + limit_body(p, false);
    assert(s.drop_first() =~= limit_body(p, false));
    assert(limit_fits(p, s.drop_first(), false));
    assert forall|x: LimitPacket| !limit_fits(x, s.drop_first(), true) by {
        if limit_fits(x, s.drop_first(), true) {
            assert(limit_body(x, true).len() == limit_body(p, false).len());
        }
    }
    let c = choose|x: LimitPacket| limit_fits(x, s.drop_first(), false);
    lemma_limit_injective(s, p, c, false);
}

/// Two packets with the same encoding in one layout are equal.
proof fn lemma_ioc_injective(s: Seq<u8>, p: ImmediateOrCancelPacket, q: ImmediateOrCancelPacket, current: bool)
    requires
        s.len() >= 1,
        ioc_fits(p, s.drop_first(), current),
        ioc_fits(q, s.drop_first(), current),
    ensures
        p == q,
{
    let p1 = enc_side(p.side);
    let p2 = p1 + enc_option(p.price_in_ticks);
    let p3 = p2 + enc_u64(p.num_base_lots);
    let p4 = p3 + enc_u64(p.num_quote_lots);
    let p5 = p4 + enc_u64(p.min_base_lots_to_fill);
    let p6 = p5 + enc_u64(p.min_quote_lots_to_fill);
    let p7 = p6 + enc_self_trade(p.self_trade_behavior);
    let p8 = p7 + enc_option(p.match_limit);
    let p9 = p8 + enc_u128(p.client_order_id);
    let p10 = p9 + enc_bool(p.use_only_deposited_funds);
    lemma_body_at(s, ioc_body(p, current));
    lemma_at_split(s, 1, p10, enc_expiry(p.last_valid_slot, p.last_valid_unix_timestamp_in_seconds, current));
    lemma_at_split(s, 1, p9, enc_bool(p.use_only_deposited_funds));
    lemma_at_split(s, 1, p8, enc_u128(p.client_order_id));
    lemma_at_split(s, 1, p7, enc_option(p.match_limit));
    lemma_at_split(s, 1, p6, enc_self_trade(p.self_trade_behavior));
    lemma_at_split(s, 1, p5, enc_u64(p.min_quote_lots_to_fill));
    lemma_at_split(s, 1, p4, enc_u64(p.min_base_lots_to_fill));
    lemma_at_split(s, 1, p3, enc_u64(p.num_quote_lots));
    lemma_at_split(s, 1, p2, enc_u64(p.num_base_lots));
    lemma_at_split(s, 1, p1, enc_option(p.price_in_ticks));
    let q1 = enc_side(q.side);
    let q2 = q1 + enc_option(q.price_in_ticks);
    let q3 = q2 + enc_u64(q.num_base_lots);
    let q4 = q3 + enc_u64(q.num_quote_lots);
    let q5 = q4 + enc_u64(q.min_base_lots_to_fill);
    let q6 = q5 + enc_u64(q.min_quote_lots_to_fill);
    let q7 = q6 + enc_self_trade(q.self_trade_behavior);
    let q8 = q7 + enc_option(q.match_limit);
    let q9 = q8 + enc_u128(q.client_order_id);
    let q10 = q9 + enc_bool(q.use_only_deposited_funds);
    lemma_body_at(s, ioc_body(q, current));
    lemma_at_split(s, 1, q10, enc_expiry(q.last_valid_slot, q.last_valid_unix_timestamp_in_seconds, current));
    lemma_at_split(s, 1, q9, enc_bool(q.use_only_deposited_funds));
    lemma_at_split(s, 1, q8, enc_u128(q.client_order_id));
    lemma_at_split(s, 1, q7, enc_option(q.match_limit));
    lemma_at_split(s, 1, q6, enc_self_trade(q.self_trade_behavior));
    lemma_at_split(s, 1, q5, enc_u64(q.min_quote_lots_to_fill));
    lemma_at_split(s, 1, q4, enc_u64(q.min_base_lots_to_fill));
    lemma_at_split(s, 1, q3, enc_u64(q.num_quote_lots));
    lemma_at_split(s, 1, q2, enc_u64(q.num_base_lots));
    lemma_at_split(s, 1, q1, enc_option(q.price_in_ticks));
    lemma_side_unique(s, 1, p.side, q.side);
    lemma_option_unique(s, 1 + p1.len() as int, p.price_in_ticks, q.price_in_ticks);
    lemma_u64_unique(s, 1 + p2.len() as int, p.num_base_lots, q.num_base_lots);
    lemma_u64_unique(s, 1 + p3.len() as int, p.num_quote_lots, q.num_quote_lots);
    lemma_u64_unique(s, 1 + p4.len() as int, p.min_base_lots_to_fill, q.min_base_lots_to_fill);
    lemma_u64_unique(s, 1 + p5.len() as int, p.min_quote_lots_to_fill, q.min_quote_lots_to_fill);
    lemma_self_trade_unique(s, 1 + p6.len() as int, p.self_trade_behavior, q.self_trade_behavior);
    lemma_option_unique(s, 1 + p7.len() as int, p.match_limit, q.match_limit);
    lemma_u128_unique(s, 1 + p8.len() as int, p.client_order_id, q.client_order_id);
    lemma_bool_unique(s, 1 + p9.len() as int, p.use_only_deposited_funds, q.use_only_deposited_funds);
    if current {
        let pos = 1 + p10.len() as int;
        lemma_at_split(s, pos, enc_option(p.last_valid_slot), enc_option(p.last_valid_unix_timestamp_in_seconds));
        lemma_at_split(s, pos, enc_option(q.last_valid_slot), enc_option(q.last_valid_unix_timestamp_in_seconds));
        lemma_option_unique(s, pos, p.last_valid_slot, q.last_valid_slot);
        lemma_option_unique(
            s,
            pos + enc_option(p.last_valid_slot).len(),
            p.last_valid_unix_timestamp_in_seconds,
            q.last_valid_unix_timestamp_in_seconds,
        );
    }
}

/// Decoding the tag byte and the current-layout encoding of an immediate-or-cancel packet gives the packet back, expiry fields included.
pub proof fn lemma_ioc_round_trip(p: ImmediateOrCancelPacket)
    ensures
        ioc_decoding(seq![tag_of(OrderPacketEnum::ImmediateOrCancel)] + ioc_body(p, true)) == Ok::<ImmediateOrCancelPacket, DecodeError>(p),
{
    let s = seq![tag_of(OrderPacketEnum::ImmediateOrCancel)] + ioc_body(p, true);
    assert(s.drop_first() =~= ioc_body(p, true));
    assert(ioc_fits(p, s.drop_first(), true));
    let c = choose|x: ImmediateOrCancelPacket| ioc_fits(x, s.drop_first(), true);
    lemma_ioc_injective(s, p, c, true);
}

/// Decoding the tag byte and the deprecated-layout encoding of an immediate-or-cancel packet gives the same field values with both expiry fields unset.
pub proof fn lemma_ioc_deprecated(p: ImmediateOrCancelPacket)
    requires
        p.last_valid_slot is None,
        p.last_valid_unix_timestamp_in_seconds is None,
    ensures
        ioc_decoding(seq![tag_of(OrderPacketEnum::ImmediateOrCancel)] + ioc_body(p, false)) == Ok::<ImmediateOrCancelPacket, DecodeError>(p),
{
    let s = seq![tag_of(OrderPacketEnum::ImmediateOrCancel)] + ioc_body(p, false);
    assert(s.drop_first() =~= ioc_body(p, false));
    assert(ioc_fits(p, s.drop_first(), false));
    assert forall|x: ImmediateOrCancelPacket| !ioc_fits(x, s.drop_first(), true) by {
        if ioc_fits(x, s.drop_first(), true) {
            assert(ioc_body(x, true).len() == ioc_body(p, false).len());
        }
    }
    let c = choose|x: ImmediateOrCancelPacket| ioc_fits(x, s.drop_first(), false);
    lemma_ioc_injective(s, p, c, false);
}

/// A decoder never faults: with no tag byte it reports truncated input, and
/// with the tag of another kind, or of no kind, it reports the tag.
pub proof fn lemma_bad_input_rejected(bytes: Seq<u8>)
    ensures
        bytes.len() == 0 ==> post_only_decoding(bytes) == Err::<PostOnlyPacket, DecodeError>(
            DecodeError::TruncatedInput,
        ) && limit_decoding(bytes) == Err::<LimitPacket, DecodeError>(DecodeError::TruncatedInput)
            && ioc_decoding(bytes) == Err::<ImmediateOrCancelPacket, DecodeError>(
            DecodeError::TruncatedInput,
        ),
        bytes.len() > 0 && bytes[0] != tag_of(OrderPacketEnum::PostOnly) ==> post_only_decoding(bytes)
            == Err::<PostOnlyPacket, DecodeError>(DecodeError::UnknownOrMismatchedTag),
        bytes.len() > 0 && bytes[0] != tag_of(OrderPacketEnum::Limit) ==> limit_decoding(bytes)
            == Err::<LimitPacket, DecodeError>(DecodeError::UnknownOrMismatchedTag),
        bytes.len() > 0 && bytes[0] != tag_of(OrderPacketEnum::ImmediateOrCancel) ==> ioc_decoding(
            bytes,
        ) == Err::<ImmediateOrCancelPacket, DecodeError>(DecodeError::UnknownOrMismatchedTag),
{
}

} // verus!
