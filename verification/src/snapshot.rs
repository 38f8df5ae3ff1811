use vstd::prelude::*;
use crate::book::{book_wf, OrderBook};
use crate::error::OrderBookError;
use crate::level::PriceLevel;
use crate::order::{Order, OrderKind, PegReferenceType};
use crate::types::{Side, TimeInForce};

verus! {

/// The snapshot format's version tag.
pub const ORDERBOOK_SNAPSHOT_FORMAT_VERSION: u32 = 1;

/// The sum of a run of bytes, the snapshot's integrity checksum.
pub open spec fn byte_sum(s: Seq<u8>) -> int
    decreases s.len(),
{
    if s.len() == 0 {
        0
    } else {
        s[0] + byte_sum(s.drop_first())
    }
}

/// The `k` little-endian digit bytes of `n` in base 256.
pub open spec fn checksum_bytes(n: int, k: nat) -> Seq<u8>
    decreases k,
{
    if k == 0 {
        Seq::<u8>::empty()
    } else {
        seq![(n % 256) as u8] + checksum_bytes(n / 256, (k - 1) as nat)
    }
}

/// A snapshot's bytes are coherent: the first 16 bytes are exactly the
/// encoded byte sum of everything after them.
pub open spec fn valid_frame(s: Seq<u8>) -> bool {
    s.len() >= 16 && s.take(16) == checksum_bytes(byte_sum(s.skip(16)), 16)
}

pub proof fn lemma_byte_sum_nonneg(s: Seq<u8>)
    ensures
        0 <= byte_sum(s) <= 255 * s.len(),
    decreases s.len(),
{
    if s.len() > 0 {
        lemma_byte_sum_nonneg(s.drop_first());
    }
}

/// Encoded checksums of 16 bytes tell two different sums apart, for sums in
/// the encodable range.
pub proof fn lemma_checksum_bytes_injective(a: int, b: int, k: nat)
    requires
        0 <= a < pow256k(k),
        0 <= b < pow256k(k),
        a != b,
    ensures
        checksum_bytes(a, k) != checksum_bytes(b, k),
    decreases k,
{
    if k == 0 {
    } else {
        if a % 256 == b % 256 {
            assert(a / 256 != b / 256);
            assert(checksum_bytes(a, k)[0] == checksum_bytes(b, k)[0]);
            lemma_checksum_bytes_injective(a / 256, b / 256, (k - 1) as nat);
            let ta = checksum_bytes(a / 256, (k - 1) as nat);
            let tb = checksum_bytes(b / 256, (k - 1) as nat);
            lemma_checksum_bytes_len(a / 256, (k - 1) as nat);
            lemma_checksum_bytes_len(b / 256, (k - 1) as nat);
            let j = choose|j: int| !(0 <= j < ta.len() ==> ta[j] == tb[j]);
            assert(ta.len() == tb.len());
            assert(exists|j: int| 0 <= j < ta.len() && ta[j] != tb[j]) by {
                if forall|j: int| 0 <= j < ta.len() ==> #[trigger] ta[j] == tb[j] {
                    assert(ta =~= tb);
                    assert(false);
                }
            }
            let j2 = choose|j2: int| 0 <= j2 < ta.len() && ta[j2] != tb[j2];
            assert(checksum_bytes(a, k)[j2 + 1] == ta[j2]);
            assert(checksum_bytes(b, k)[j2 + 1] == tb[j2]);
        } else {
            assert(checksum_bytes(a, k)[0] != checksum_bytes(b, k)[0]);
        }
    }
}

pub open spec fn pow256k(k: nat) -> int
    decreases k,
{
    if k == 0 {
        1
    } else {
        256 * pow256k((k - 1) as nat)
    }
}

pub proof fn lemma_pow256k_mono(a: nat, b: nat)
    requires
        a <= b,
    ensures
        pow256k(a) <= pow256k(b),
    decreases b,
{
    if a < b {
        lemma_pow256k_mono(a, (b - 1) as nat);
        assert(pow256k(b) == 256 * pow256k((b - 1) as nat));
        assert(pow256k((b - 1) as nat) >= 1) by {
            lemma_pow256k_pos((b - 1) as nat);
        }
    }
}

pub proof fn lemma_pow256k_pos(k: nat)
    ensures
        pow256k(k) >= 1,
    decreases k,
{
    if k > 0 {
        lemma_pow256k_pos((k - 1) as nat);
    }
}

pub proof fn lemma_checksum_bytes_len(n: int, k: nat)
    ensures
        checksum_bytes(n, k).len() == k,
    decreases k,
{
    if k > 0 {
        lemma_checksum_bytes_len(n / 256, (k - 1) as nat);
    }
}

/// Byte sums fit in the 16-byte checksum for any byte run a `Vec` can hold.
pub proof fn lemma_byte_sum_in_range(s: Seq<u8>)
    requires
        s.len() <= usize::MAX,
    ensures
        0 <= byte_sum(s) < pow256k(16),
{
    lemma_byte_sum_nonneg(s);
    assert(pow256k(16) > 0xffffffffffffffffffffff) by {
        reveal_with_fuel(pow256k, 17);
    }
}

pub proof fn lemma_byte_sum_update(s: Seq<u8>, i: int, b: u8)
    requires
        0 <= i < s.len(),
    ensures
        byte_sum(s.update(i, b)) == byte_sum(s) - s[i] + b,
    decreases s.len(),
{
    if i == 0 {
        assert(s.update(0, b).drop_first() =~= s.drop_first());
        assert(s.update(0, b)[0] == b);
    } else {
        assert(s.update(i, b).drop_first() =~= s.drop_first().update(i - 1, b));
        assert(s.update(i, b)[0] == s[0]);
        lemma_byte_sum_update(s.drop_first(), i - 1, b);
    }
}

/// Corrupting any single byte of a coherent snapshot breaks its checksum:
/// the stored bytes and the recomputation can no longer agree, whether the
/// flipped byte sits in the body or in the stored checksum itself.
pub proof fn lemma_corruption_detected(s1: Seq<u8>, s2: Seq<u8>, d: int)
    requires
        valid_frame(s1),
        s1.len() == s2.len(),
        s1.len() <= usize::MAX,
        0 <= d < s1.len(),
        s1[d] != s2[d],
        forall|j: int| 0 <= j < s1.len() && j != d ==> s1[j] == s2[j],
    ensures
        s2.len() >= 16,
        !valid_frame(s2),
        s2.take(16) != checksum_bytes(byte_sum(s2.skip(16)), 16),
{
    if d < 16 {
        assert(s2.skip(16) =~= s1.skip(16));
        assert(s1.take(16)[d] == s1[d]);
        assert(s2.take(16)[d] == s2[d]);
        assert(s2.take(16) != s1.take(16));
        assert(checksum_bytes(byte_sum(s2.skip(16)), 16) == s1.take(16));
    } else {
        assert(s2.take(16) =~= s1.take(16));
        assert(s2.skip(16) =~= s1.skip(16).update(d - 16, s2[d]));
        lemma_byte_sum_update(s1.skip(16), d - 16, s2[d]);
        assert(s1.skip(16)[d - 16] == s1[d]);
        assert(byte_sum(s2.skip(16)) != byte_sum(s1.skip(16)));
        lemma_byte_sum_in_range(s1.skip(16));
        lemma_byte_sum_in_range(s2.skip(16));
        lemma_checksum_bytes_injective(
            byte_sum(s1.skip(16)),
            byte_sum(s2.skip(16)),
            16,
        );
    }
}



/// The base-256 value of a run of digit bytes, low digit first.
pub open spec fn le16_value(s: Seq<u8>) -> int
    decreases s.len(),
{
    if s.len() == 0 {
        0
    } else {
        s[0] + 256 * le16_value(s.drop_first())
    }
}

pub proof fn lemma_le16_bounds(s: Seq<u8>)
    ensures
        0 <= le16_value(s) < pow256k(s.len()),
    decreases s.len(),
{
    if s.len() > 0 {
        lemma_le16_bounds(s.drop_first());
        assert(le16_value(s) == s[0] + 256 * le16_value(s.drop_first()));
        assert(pow256k(s.len()) == 256 * pow256k((s.len() - 1) as nat));
        assert(s[0] + 256 * le16_value(s.drop_first()) < 256 * pow256k((s.len() - 1) as nat))
            by (nonlinear_arith)
            requires
                0 <= s[0] < 256,
                0 <= le16_value(s.drop_first()) < pow256k((s.len() - 1) as nat),
        ;
    }
}

/// Every run of digit bytes is the canonical encoding of its own value.
pub proof fn lemma_checksum_bytes_of_value(s: Seq<u8>)
    ensures
        checksum_bytes(le16_value(s), s.len()) == s,
    decreases s.len(),
{
    if s.len() == 0 {
        assert(checksum_bytes(le16_value(s), 0) =~= s);
    } else {
        let v = le16_value(s);
        let m = le16_value(s.drop_first());
        lemma_le16_bounds(s.drop_first());
        assert(v == s[0] + 256 * m);
        assert(v % 256 == s[0] && v / 256 == m) by (nonlinear_arith)
            requires
                v == s[0] + 256 * m,
                0 <= s[0] < 256,
                0 <= m,
        ;
        lemma_checksum_bytes_of_value(s.drop_first());
        assert(checksum_bytes(v, s.len()) == seq![(v % 256) as u8] + checksum_bytes(
            v / 256,
            (s.len() - 1) as nat,
        ));
        assert(seq![s[0]] + s.drop_first() =~= s);
    }
}

/// The eight little-endian bytes of a 64-bit value.
pub open spec fn spec_u64_le(x: u64) -> Seq<u8> {
    seq![
        (x & 0xff) as u8,
        ((x >> 8) & 0xff) as u8,
        ((x >> 16) & 0xff) as u8,
        ((x >> 24) & 0xff) as u8,
        ((x >> 32) & 0xff) as u8,
        ((x >> 40) & 0xff) as u8,
        ((x >> 48) & 0xff) as u8,
        ((x >> 56) & 0xff) as u8,
    ]
}

/// The fixed-size record one order serializes to: its variant tag, common
/// fields, policy, variant quantities and flags.
pub open spec fn spec_encode_order(o: Order) -> Seq<u8> {
    let (tag, f1, f2, f3, f4, aux1, aux2): (u8, u64, u64, u64, u64, u8, u8) = match o.kind {
        OrderKind::Standard { quantity } => (0, quantity, 0, 0, 0, 0, 0),
        OrderKind::Iceberg { visible_quantity, hidden_quantity } => (
            1,
            visible_quantity,
            hidden_quantity,
            0,
            0,
            0,
            0,
        ),
        OrderKind::PostOnly { quantity } => (2, quantity, 0, 0, 0, 0, 0),
        OrderKind::TrailingStop { quantity, trail_amount, last_reference_price } => (
            3,
            quantity,
            trail_amount,
            last_reference_price,
            0,
            0,
            0,
        ),
        OrderKind::Pegged { quantity, reference_offset, reference_type } => (
            4,
            quantity,
            reference_offset as u64,
            0,
            0,
            0,
            match reference_type {
                PegReferenceType::BestBid => 0,
                PegReferenceType::BestAsk => 1,
                PegReferenceType::MidPrice => 2,
                PegReferenceType::LastTrade => 3,
            },
        ),
        OrderKind::MarketToLimit { quantity } => (5, quantity, 0, 0, 0, 0, 0),
        OrderKind::Reserve {
            visible_quantity,
            hidden_quantity,
            replenish_threshold,
            replenish_amount,
            auto_replenish,
        } => (
            6,
            visible_quantity,
            hidden_quantity,
            replenish_threshold,
            replenish_amount,
            if auto_replenish {
                1
            } else {
                0
            },
            0,
        ),
    };
    let side_byte: u8 = match o.side {
        Side::Buy => 0,
        Side::Sell => 1,
    };
    let (tif_tag, tif_val): (u8, u64) = match o.time_in_force {
        TimeInForce::Gtc => (0, 0),
        TimeInForce::Ioc => (1, 0),
        TimeInForce::Fok => (2, 0),
        TimeInForce::Gtd(e) => (3, e),
        TimeInForce::Day => (4, 0),
    };
    seq![tag] + spec_u64_le(o.id) + spec_u64_le(o.price) + seq![side_byte] + spec_u64_le(
        o.timestamp_ms,
    ) + seq![tif_tag] + spec_u64_le(tif_val) + spec_u64_le(f1) + spec_u64_le(f2) + spec_u64_le(f3)
        + spec_u64_le(f4) + seq![aux1] + seq![aux2]
}

/// The records of a queue of orders, head first.
pub open spec fn spec_encode_orders(s: Seq<Order>) -> Seq<u8>
    decreases s.len(),
{
    if s.len() == 0 {
        Seq::<u8>::empty()
    } else {
        spec_encode_order(s[0]) + spec_encode_orders(s.drop_first())
    }
}

/// The records of one side's orders, levels in price order, each level's
/// queue head first.
pub open spec fn spec_encode_levels(levels: Seq<PriceLevel>) -> Seq<u8>
    decreases levels.len(),
{
    if levels.len() == 0 {
        Seq::<u8>::empty()
    } else {
        spec_encode_orders(levels[0].orders@) + spec_encode_levels(levels.drop_first())
    }
}

/// The snapshot body: the format version, the trade and market-close state,
/// the transaction counter, then every resting order, bids before asks.
pub open spec fn spec_encode_book(b: OrderBook) -> Seq<u8> {
    spec_u64_le(ORDERBOOK_SNAPSHOT_FORMAT_VERSION as u64) + spec_u64_le(b.last_trade_price)
        + seq![
        if b.has_traded {
            1u8
        } else {
            0u8
        },
    ] + spec_u64_le(b.market_close_timestamp) + seq![
        if b.has_market_close {
            1u8
        } else {
            0u8
        },
    ] + spec_u64_le(b.next_transaction_id) + spec_encode_levels(b.bids@) + spec_encode_levels(
        b.asks@,
    )
}

pub proof fn lemma_encode_orders_step(s: Seq<Order>, j: int)
    requires
        0 <= j < s.len(),
    ensures
        spec_encode_orders(s.take(j + 1)) == spec_encode_orders(s.take(j)) + spec_encode_order(
            s[j],
        ),
    decreases j,
{
    assert(s.take(j + 1).len() == j + 1);
    assert(spec_encode_orders(s.take(j + 1)) == spec_encode_order(s.take(j + 1)[0])
        + spec_encode_orders(s.take(j + 1).drop_first()));
    if j == 0 {
        assert(s.take(1).drop_first() =~= Seq::<Order>::empty());
        assert(s.take(1)[0] == s[0]);
        assert(s.take(0) =~= Seq::<Order>::empty());
        assert(spec_encode_order(s[0]) + Seq::<u8>::empty() =~= spec_encode_order(s[0]));
        assert(Seq::<u8>::empty() + spec_encode_order(s[0]) =~= spec_encode_order(s[0]));
    } else {
        assert(s.take(j).len() == j);
        assert(spec_encode_orders(s.take(j)) == spec_encode_order(s.take(j)[0])
            + spec_encode_orders(s.take(j).drop_first()));
        assert(s.take(j + 1)[0] == s[0]);
        assert(s.take(j)[0] == s[0]);
        assert(s.take(j + 1).drop_first() =~= s.drop_first().take(j));
        assert(s.take(j).drop_first() =~= s.drop_first().take(j - 1));
        lemma_encode_orders_step(s.drop_first(), j - 1);
        assert(s.drop_first()[j - 1] == s[j]);
        assert(spec_encode_order(s[0]) + (spec_encode_orders(s.drop_first().take(j - 1))
            + spec_encode_order(s[j])) =~= (spec_encode_order(s[0]) + spec_encode_orders(
            s.drop_first().take(j - 1),
        )) + spec_encode_order(s[j]));
    }
}

pub proof fn lemma_encode_levels_step(levels: Seq<PriceLevel>, i: int)
    requires
        0 <= i < levels.len(),
    ensures
        spec_encode_levels(levels.take(i + 1)) == spec_encode_levels(levels.take(i))
            + spec_encode_orders(levels[i].orders@),
    decreases i,
{
    assert(levels.take(i + 1).len() == i + 1);
    assert(spec_encode_levels(levels.take(i + 1)) == spec_encode_orders(
        levels.take(i + 1)[0].orders@,
    ) + spec_encode_levels(levels.take(i + 1).drop_first()));
    if i == 0 {
        assert(levels.take(1).drop_first() =~= Seq::<PriceLevel>::empty());
        assert(levels.take(1)[0] == levels[0]);
        assert(levels.take(0) =~= Seq::<PriceLevel>::empty());
        assert(spec_encode_orders(levels[0].orders@) + Seq::<u8>::empty()
            =~= spec_encode_orders(levels[0].orders@));
        assert(Seq::<u8>::empty() + spec_encode_orders(levels[0].orders@)
            =~= spec_encode_orders(levels[0].orders@));
    } else {
        assert(levels.take(i).len() == i);
        assert(spec_encode_levels(levels.take(i)) == spec_encode_orders(
            levels.take(i)[0].orders@,
        ) + spec_encode_levels(levels.take(i).drop_first()));
        assert(levels.take(i + 1)[0] == levels[0]);
        assert(levels.take(i)[0] == levels[0]);
        assert(levels.take(i + 1).drop_first() =~= levels.drop_first().take(i));
        assert(levels.take(i).drop_first() =~= levels.drop_first().take(i - 1));
        lemma_encode_levels_step(levels.drop_first(), i - 1);
        assert(levels.drop_first()[i - 1] == levels[i]);
        assert(spec_encode_orders(levels[0].orders@) + (spec_encode_levels(
            levels.drop_first().take(i - 1),
        ) + spec_encode_orders(levels[i].orders@)) =~= (spec_encode_orders(levels[0].orders@)
            + spec_encode_levels(levels.drop_first().take(i - 1))) + spec_encode_orders(
            levels[i].orders@,
        ));
    }
}

/// Appends the 8 little-endian bytes of `x`.
pub fn push_u64_le(out: &mut Vec<u8>, x: u64)
    ensures
        final(out)@ == old(out)@ + spec_u64_le(x),
        final(out)@.len() == old(out)@.len() + 8,
{
    out.push((x & 0xff) as u8);
    out.push(((x >> 8) & 0xff) as u8);
    out.push(((x >> 16) & 0xff) as u8);
    out.push(((x >> 24) & 0xff) as u8);
    out.push(((x >> 32) & 0xff) as u8);
    out.push(((x >> 40) & 0xff) as u8);
    out.push(((x >> 48) & 0xff) as u8);
    out.push(((x >> 56) & 0xff) as u8);
    proof {
        assert(out@ =~= old(out)@ + spec_u64_le(x));
    }
}

/// Appends one byte.
pub fn push_u8(out: &mut Vec<u8>, x: u8)
    ensures
        final(out)@ == old(out)@.push(x),
{
    out.push(x);
}

/// Reads the 8 little-endian bytes at `*pos`, advancing it.
pub fn read_u64_le(bytes: &Vec<u8>, pos: &mut usize) -> (r: Option<u64>)
    ensures
        match r {
            Some(_) => *old(pos) + 8 <= bytes@.len() && *final(pos) == *old(pos) + 8,
            None => *final(pos) == *old(pos),
        },
{
    if *pos > bytes.len() || bytes.len() - *pos < 8 {
        return None;
    }
    let p: usize = *pos;
    let mut x: u64 = 0;
    let mut i: usize = 8;
    while i > 0
        invariant
            0 <= i <= 8,
            p + 8 <= bytes@.len(),
            bytes@.len() <= usize::MAX,
        decreases i,
    {
        i = i - 1;
        proof {
            assert(i < 8);
            assert(p + i < bytes@.len());
        }
        x = (x << 8) | (bytes[p + i] as u64);
    }
    *pos = p + 8;
    Some(x)
}

/// Reads one byte at `*pos`, advancing it.
pub fn read_u8(bytes: &Vec<u8>, pos: &mut usize) -> (r: Option<u8>)
    ensures
        match r {
            Some(_) => *old(pos) + 1 <= bytes@.len() && *final(pos) == *old(pos) + 1,
            None => *final(pos) == *old(pos),
        },
{
    if *pos >= bytes.len() {
        return None;
    }
    let b = bytes[*pos];
    *pos = *pos + 1;
    Some(b)
}

/// The byte sum over `bytes` from `start` on.
pub fn checksum_from(bytes: &Vec<u8>, start: usize) -> (r: u128)
    requires
        start <= bytes@.len(),
    ensures
        r == byte_sum(bytes@.skip(start as int)),
{
    proof {
        lemma_byte_sum_nonneg(bytes@.skip(start as int));
    }
    let mut total: u128 = 0;
    let mut i: usize = start;
    proof {
        assert(bytes@.skip(start as int).skip(0) =~= bytes@.skip(start as int));
    }
    while i < bytes.len()
        invariant
            start <= i <= bytes@.len(),
            total + byte_sum(bytes@.skip(i as int)) == byte_sum(bytes@.skip(start as int)),
            0 <= total <= 255 * (i - start),
        decreases bytes@.len() - i,
    {
        proof {
            let rest = bytes@.skip(i as int);
            assert(rest[0] == bytes@[i as int]);
            assert(rest.drop_first() =~= bytes@.skip(i as int + 1));
            lemma_byte_sum_nonneg(bytes@.skip(i as int + 1));
            lemma_byte_sum_nonneg(bytes@.skip(start as int));
        }
        total = total + bytes[i] as u128;
        i = i + 1;
    }
    proof {
        assert(bytes@.skip(bytes@.len() as int) =~= Seq::<u8>::empty());
    }
    total
}


/// The 16 little-endian checksum bytes of `sum`.
pub fn checksum_prefix(sum: u128) -> (r: Vec<u8>)
    ensures
        r@ == checksum_bytes(sum as int, 16),
        r@.len() == 16,
{
    proof {
        lemma_checksum_bytes_len(sum as int, 16);
    }
    let mut out: Vec<u8> = Vec::new();
    let mut acc: u128 = sum;
    let mut i: usize = 0;
    while i < 16
        invariant
            0 <= i <= 16,
            out@.len() == i,
            checksum_bytes(acc as int, (16 - i) as nat) == checksum_bytes(sum as int, 16).skip(
                i as int,
            ),
            out@ == checksum_bytes(sum as int, 16).take(i as int),
        decreases 16 - i,
    {
        let ghost cb = checksum_bytes(sum as int, 16);
        proof {
            lemma_checksum_bytes_len(sum as int, 16);
            lemma_checksum_bytes_len(acc as int / 256, (15 - i) as nat);
            assert(checksum_bytes(acc as int, (16 - i) as nat) == seq![
                (acc as int % 256) as u8,
            ] + checksum_bytes(acc as int / 256, (15 - i) as nat));
            assert(cb.skip(i as int)[0] == cb[i as int]);
            assert(cb[i as int] == (acc as int % 256) as u8);
            assert(cb.take(i as int).push(cb[i as int]) =~= cb.take(i + 1));
            assert(cb.skip(i as int).drop_first() =~= cb.skip(i + 1));
            assert((seq![(acc as int % 256) as u8] + checksum_bytes(
                acc as int / 256,
                (15 - i) as nat,
            )).drop_first() =~= checksum_bytes(acc as int / 256, (15 - i) as nat));
        }
        out.push((acc % 256) as u8);
        acc = acc / 256;
        i = i + 1;
    }
    proof {
        lemma_checksum_bytes_len(sum as int, 16);
        assert(checksum_bytes(sum as int, 16).take(16) =~= checksum_bytes(sum as int, 16));
    }
    out
}

/// Appends one order as a fixed-size record.
#[verifier::rlimit(100)]
fn encode_order(out: &mut Vec<u8>, o: &Order)
    ensures
        final(out)@ == old(out)@ + spec_encode_order(*o),
{
    let (tag, f1, f2, f3, f4, aux1, aux2): (u8, u64, u64, u64, u64, u8, u8) = match o.kind {
        OrderKind::Standard { quantity } => (0, quantity, 0, 0, 0, 0, 0),
        OrderKind::Iceberg { visible_quantity, hidden_quantity } => (
            1,
            visible_quantity,
            hidden_quantity,
            0,
            0,
            0,
            0,
        ),
        OrderKind::PostOnly { quantity } => (2, quantity, 0, 0, 0, 0, 0),
        OrderKind::TrailingStop { quantity, trail_amount, last_reference_price } => (
            3,
            quantity,
            trail_amount,
            last_reference_price,
            0,
            0,
            0,
        ),
        OrderKind::Pegged { quantity, reference_offset, reference_type } => (
            4,
            quantity,
            #[verifier::truncate] (reference_offset as u64),
            0,
            0,
            0,
            match reference_type {
                PegReferenceType::BestBid => 0,
                PegReferenceType::BestAsk => 1,
                PegReferenceType::MidPrice => 2,
                PegReferenceType::LastTrade => 3,
            },
        ),
        OrderKind::MarketToLimit { quantity } => (5, quantity, 0, 0, 0, 0, 0),
        OrderKind::Reserve {
            visible_quantity,
            hidden_quantity,
            replenish_threshold,
            replenish_amount,
            auto_replenish,
        } => (
            6,
            visible_quantity,
            hidden_quantity,
            replenish_threshold,
            replenish_amount,
            if auto_replenish {
                1
            } else {
                0
            },
            0,
        ),
    };
    push_u8(out, tag);
    push_u64_le(out, o.id);
    push_u64_le(out, o.price);
    push_u8(
        out,
        match o.side {
            Side::Buy => 0,
            Side::Sell => 1,
        },
    );
    push_u64_le(out, o.timestamp_ms);
    let (tif_tag, tif_val): (u8, u64) = match o.time_in_force {
        TimeInForce::Gtc => (0, 0),
        TimeInForce::Ioc => (1, 0),
        TimeInForce::Fok => (2, 0),
        TimeInForce::Gtd(e) => (3, e),
        TimeInForce::Day => (4, 0),
    };
    push_u8(out, tif_tag);
    push_u64_le(out, tif_val);
    push_u64_le(out, f1);
    push_u64_le(out, f2);
    push_u64_le(out, f3);
    push_u64_le(out, f4);
    push_u8(out, aux1);
    push_u8(out, aux2);
    proof {
        assert(out@ =~= old(out)@ + spec_encode_order(*o));
    }
}

/// Appends every order of one side, levels in price order, each level's
/// queue head first, so a replay re-enters them in the same arrival order.
fn encode_side(out: &mut Vec<u8>, levels: &Vec<PriceLevel>)
    ensures
        final(out)@ == old(out)@ + spec_encode_levels(levels@),
{
    let ghost base = out@;
    let mut i: usize = 0;
    proof {
        assert(levels@.take(0) =~= Seq::<PriceLevel>::empty());
        assert(base + Seq::<u8>::empty() =~= base);
    }
    while i < levels.len()
        invariant
            0 <= i <= levels@.len(),
            out@ == base + spec_encode_levels(levels@.take(i as int)),
        decreases levels@.len() - i,
    {
        let mut j: usize = 0;
        let ghost level_base = out@;
        proof {
            assert(levels@[i as int].orders@.take(0) =~= Seq::<Order>::empty());
            assert(level_base + Seq::<u8>::empty() =~= level_base);
        }
        while j < levels[i].orders.len()
            invariant
                0 <= i < levels@.len(),
                0 <= j <= levels@[i as int].orders@.len(),
                out@ == level_base + spec_encode_orders(levels@[i as int].orders@.take(j as int)),
            decreases levels@[i as int].orders@.len() - j,
        {
            let o = levels[i].orders[j];
            proof {
                lemma_encode_orders_step(levels@[i as int].orders@, j as int);
            }
            encode_order(out, &o);
            proof {
                assert(out@ =~= level_base + spec_encode_orders(
                    levels@[i as int].orders@.take(j as int + 1),
                ));
            }
            j = j + 1;
        }
        proof {
            lemma_encode_levels_step(levels@, i as int);
            assert(levels@[i as int].orders@.take(levels@[i as int].orders@.len() as int)
                =~= levels@[i as int].orders@);
            assert(out@ =~= base + spec_encode_levels(levels@.take(i as int + 1)));
        }
        i = i + 1;
    }
    proof {
        assert(levels@.take(levels@.len() as int) =~= levels@);
    }
}

/// Serializes the book into a self-describing, checksummed byte record:
/// sixteen checksum bytes over the body, then the format version, the
/// trade and market-close state, the transaction counter, and every resting
/// order in price-time order.
pub fn snapshot_book(book: &OrderBook) -> (r: Vec<u8>)
    requires
        book_wf(*book),
    ensures
        valid_frame(r@),
        r@.skip(16) == spec_encode_book(*book),
{
    let mut body: Vec<u8> = Vec::new();
    push_u64_le(&mut body, ORDERBOOK_SNAPSHOT_FORMAT_VERSION as u64);
    push_u64_le(&mut body, book.last_trade_price);
    push_u8(&mut body, if book.has_traded {
        1
    } else {
        0
    });
    push_u64_le(&mut body, book.market_close_timestamp);
    push_u8(&mut body, if book.has_market_close {
        1
    } else {
        0
    });
    push_u64_le(&mut body, book.next_transaction_id);
    encode_side(&mut body, &book.bids);
    encode_side(&mut body, &book.asks);
    let sum = checksum_from(&body, 0);
    let mut out = checksum_prefix(sum);
    let ghost prefix = out@;
    let mut i: usize = 0;
    while i < body.len()
        invariant
            0 <= i <= body@.len(),
            prefix.len() == 16,
            out@ == prefix + body@.take(i as int),
        decreases body@.len() - i,
    {
        proof {
            assert((prefix + body@.take(i as int)).push(body@[i as int]) =~= prefix + body@.take(
                i + 1,
            ));
        }
        out.push(body[i]);
        i = i + 1;
    }
    proof {
        assert(body@.take(body@.len() as int) =~= body@);
        assert(out@.take(16) =~= prefix);
        assert(out@.skip(16) =~= body@);
        assert(body@.skip(0) =~= body@);
        assert(body@ =~= spec_encode_book(*book));
    }
    out
}

/// Reads one order record back.
fn decode_order(bytes: &Vec<u8>, pos: &mut usize) -> (r: Option<Order>)
    ensures
        r is Some ==> *final(pos) > *old(pos) && *final(pos) <= bytes@.len(),
        r is None ==> *final(pos) >= *old(pos),
{
    let tag = match read_u8(bytes, pos) {
        Some(v) => v,
        None => {
            return None;
        },
    };
    let id = match read_u64_le(bytes, pos) {
        Some(v) => v,
        None => {
            return None;
        },
    };
    let price = match read_u64_le(bytes, pos) {
        Some(v) => v,
        None => {
            return None;
        },
    };
    let side_b = match read_u8(bytes, pos) {
        Some(v) => v,
        None => {
            return None;
        },
    };
    let timestamp_ms = match read_u64_le(bytes, pos) {
        Some(v) => v,
        None => {
            return None;
        },
    };
    let tif_tag = match read_u8(bytes, pos) {
        Some(v) => v,
        None => {
            return None;
        },
    };
    let tif_val = match read_u64_le(bytes, pos) {
        Some(v) => v,
        None => {
            return None;
        },
    };
    let f1 = match read_u64_le(bytes, pos) {
        Some(v) => v,
        None => {
            return None;
        },
    };
    let f2 = match read_u64_le(bytes, pos) {
        Some(v) => v,
        None => {
            return None;
        },
    };
    let f3 = match read_u64_le(bytes, pos) {
        Some(v) => v,
        None => {
            return None;
        },
    };
    let f4 = match read_u64_le(bytes, pos) {
        Some(v) => v,
        None => {
            return None;
        },
    };
    let aux1 = match read_u8(bytes, pos) {
        Some(v) => v,
        None => {
            return None;
        },
    };
    let aux2 = match read_u8(bytes, pos) {
        Some(v) => v,
        None => {
            return None;
        },
    };
    let side = match side_b {
        0 => Side::Buy,
        1 => Side::Sell,
        _ => {
            return None;
        },
    };
    let time_in_force = match tif_tag {
        0 => TimeInForce::Gtc,
        1 => TimeInForce::Ioc,
        2 => TimeInForce::Fok,
        3 => TimeInForce::Gtd(tif_val),
        4 => TimeInForce::Day,
        _ => {
            return None;
        },
    };
    let kind = match tag {
        0 => OrderKind::Standard { quantity: f1 },
        1 => OrderKind::Iceberg { visible_quantity: f1, hidden_quantity: f2 },
        2 => OrderKind::PostOnly { quantity: f1 },
        3 => OrderKind::TrailingStop {
            quantity: f1,
            trail_amount: f2,
            last_reference_price: f3,
        },
        4 => OrderKind::Pegged {
            quantity: f1,
            reference_offset: #[verifier::truncate] (f2 as i64),
            reference_type: match aux2 {
                0 => PegReferenceType::BestBid,
                1 => PegReferenceType::BestAsk,
                2 => PegReferenceType::MidPrice,
                _ => PegReferenceType::LastTrade,
            },
        },
        5 => OrderKind::MarketToLimit { quantity: f1 },
        6 => OrderKind::Reserve {
            visible_quantity: f1,
            hidden_quantity: f2,
            replenish_threshold: f3,
            replenish_amount: f4,
            auto_replenish: aux1 != 0,
        },
        _ => {
            return None;
        },
    };
    Some(Order { id, price, side, timestamp_ms, time_in_force, kind })
}

/// Rebuilds a book from a snapshot. The checksum is verified over the whole
/// body before anything is parsed, so a snapshot whose stored checksum and
/// recomputed byte sum disagree fails with `ChecksumMismatch`; a record that
/// cannot be parsed, or one that does not describe a well-formed book, fails
/// with `DeserializationError`. A successfully restored book satisfies every
/// book invariant.
pub fn restore_book(bytes: &Vec<u8>) -> (r: Result<OrderBook, OrderBookError>)
    ensures
        match r {
            Ok(b) => book_wf(b) && valid_frame(bytes@),
            Err(OrderBookError::ChecksumMismatch { expected, actual }) => bytes@.len() >= 16
                && bytes@.take(16) != checksum_bytes(byte_sum(bytes@.skip(16)), 16) && actual
                == byte_sum(bytes@.skip(16)) && checksum_bytes(expected as int, 16)
                == bytes@.take(16),
            Err(OrderBookError::DeserializationError) => bytes@.len() < 16 || valid_frame(bytes@),
            _ => false,
        },
{
    if bytes.len() < 16 {
        return Err(OrderBookError::DeserializationError);
    }
    let sum = checksum_from(bytes, 16);
    let stored = checksum_prefix(sum);
    let mut matches_stored = true;
    let mut i: usize = 0;
    while i < 16
        invariant
            0 <= i <= 16,
            bytes@.len() >= 16,
            stored@ == checksum_bytes(byte_sum(bytes@.skip(16)), 16),
            stored@.len() == 16,
            matches_stored <==> (forall|j: int| 0 <= j < i ==> bytes@[j] == stored@[j]),
        decreases 16 - i,
    {
        if bytes[i] != stored[i] {
            matches_stored = false;
        }
        i = i + 1;
    }
    if !matches_stored {
        proof {
            assert(bytes@.take(16) != checksum_bytes(byte_sum(bytes@.skip(16)), 16)) by {
                let j = choose|j: int| !(0 <= j < 16 ==> bytes@[j] == stored@[j]);
                assert(bytes@.take(16)[j] == bytes@[j]);
            }
        }
        let mut expected: u128 = 0;
        let mut ei: usize = 16;
        proof {
            assert(bytes@.subrange(16, 16) =~= Seq::<u8>::empty());
        }
        while ei > 0
            invariant
                0 <= ei <= 16,
                bytes@.len() >= 16,
                expected as int == le16_value(bytes@.subrange(ei as int, 16)),
                expected < pow256k((16 - ei) as nat),
            decreases ei,
        {
            ei = ei - 1;
            proof {
                let sub = bytes@.subrange(ei as int, 16);
                assert(sub[0] == bytes@[ei as int]);
                assert(sub.drop_first() =~= bytes@.subrange(ei as int + 1, 16));
                assert(pow256k((16 - ei) as nat) == 256 * pow256k((15 - ei) as nat));
                assert(pow256k(15) == 0x1000000000000000000000000000000) by {
                    reveal_with_fuel(pow256k, 16);
                }
                lemma_pow256k_mono((16 - ei - 1) as nat, 15);
            }
            expected = expected * 256 + (bytes[ei] as u128);
        }
        proof {
            assert(bytes@.subrange(0, 16) =~= bytes@.take(16));
            lemma_checksum_bytes_of_value(bytes@.take(16));
        }
        return Err(OrderBookError::ChecksumMismatch { expected, actual: sum });
    }
    proof {
        assert(bytes@.take(16) =~= stored@);
    }
    let mut pos: usize = 16;
    let version = match read_u64_le(bytes, &mut pos) {
        Some(v) => v,
        None => {
            return Err(OrderBookError::DeserializationError);
        },
    };
    if version != ORDERBOOK_SNAPSHOT_FORMAT_VERSION as u64 {
        return Err(OrderBookError::DeserializationError);
    }
    let last_trade_price = match read_u64_le(bytes, &mut pos) {
        Some(v) => v,
        None => {
            return Err(OrderBookError::DeserializationError);
        },
    };
    let has_traded = match read_u8(bytes, &mut pos) {
        Some(v) => v != 0,
        None => {
            return Err(OrderBookError::DeserializationError);
        },
    };
    let market_close_timestamp = match read_u64_le(bytes, &mut pos) {
        Some(v) => v,
        None => {
            return Err(OrderBookError::DeserializationError);
        },
    };
    let has_market_close = match read_u8(bytes, &mut pos) {
        Some(v) => v != 0,
        None => {
            return Err(OrderBookError::DeserializationError);
        },
    };
    let next_transaction_id = match read_u64_le(bytes, &mut pos) {
        Some(v) => v,
        None => {
            return Err(OrderBookError::DeserializationError);
        },
    };
    let mut book = OrderBook::new();
    while pos < bytes.len()
        invariant
            book_wf(book),
            pos <= bytes@.len(),
            valid_frame(bytes@),
        decreases bytes@.len() - pos,
    {
        let o = match decode_order(bytes, &mut pos) {
            Some(o) => o,
            None => {
                return Err(OrderBookError::DeserializationError);
            },
        };
        match book.place_order_in_book(o, 0) {
            Ok(()) => {},
            Err(_) => {
                return Err(OrderBookError::DeserializationError);
            },
        }
    }
    book.last_trade_price = last_trade_price;
    book.has_traded = has_traded;
    book.next_transaction_id = next_transaction_id;
    if has_market_close {
        book.set_market_close(market_close_timestamp);
    }
    let _ = book.take_price_level_events();
    Ok(book)
}

} // verus!
