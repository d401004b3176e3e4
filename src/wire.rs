//! The primitive field encodings of the packet wire format, and readers that
//! decode exactly those encodings.

use vstd::prelude::*;
use crate::ladder::Side;
use crate::packet::SelfTradeBehavior;

verus! {

pub open spec fn pow256(n: nat) -> nat
    decreases n,
{
    if n == 0 {
        1
    } else {
        256 * pow256((n - 1) as nat)
    }
}

/// The `n` low bytes of `v`, least significant first.
pub open spec fn le_bytes(v: nat, n: nat) -> Seq<u8>
    decreases n,
{
    if n == 0 {
        seq![]
    } else {
        seq![(v % 256) as u8] + le_bytes(v / 256, (n - 1) as nat)
    }
}

/// `s` holds `e` starting at index `pos`.
pub open spec fn at(s: Seq<u8>, pos: int, e: Seq<u8>) -> bool {
    0 <= pos && pos + e.len() <= s.len() && s.subrange(pos, pos + e.len()) == e
}

pub open spec fn enc_u64(v: u64) -> Seq<u8> {
    le_bytes(v as nat, 8)
}

pub open spec fn enc_u128(v: u128) -> Seq<u8> {
    le_bytes(v as nat, 16)
}

pub open spec fn enc_bool(b: bool) -> Seq<u8> {
    if b {
        seq![1u8]
    } else {
        seq![0u8]
    }
}

pub open spec fn enc_option(o: Option<u64>) -> Seq<u8> {
    match o {
        None => seq![0u8],
        Some(v) => seq![1u8] + enc_u64(v),
    }
}

pub open spec fn enc_side(s: Side) -> Seq<u8> {
    match s {
        Side::Bid => seq![0u8],
        Side::Ask => seq![1u8],
    }
}

pub open spec fn enc_self_trade(b: SelfTradeBehavior) -> Seq<u8> {
    match b {
        SelfTradeBehavior::Abort => seq![0u8],
        SelfTradeBehavior::CancelProvide => seq![1u8],
        SelfTradeBehavior::DecrementTake => seq![2u8],
    }
}

pub proof fn lemma_pow256_mono(m: nat, n: nat)
    requires
        m <= n,
    ensures
        1 <= pow256(m) <= pow256(n),
    decreases n,
{
    if m < n {
        lemma_pow256_mono(m, (n - 1) as nat);
    } else if n > 0 {
        lemma_pow256_mono(0, (n - 1) as nat);
    }
}

pub proof fn lemma_pow256_values()
    ensures
        pow256(8) == 0x1_0000_0000_0000_0000,
        pow256(16) == 0x1_0000_0000_0000_0000_0000_0000_0000_0000,
{
    reveal_with_fuel(pow256, 17);
}

pub broadcast proof fn lemma_le_bytes_len(v: nat, n: nat)
    ensures
        #[trigger] le_bytes(v, n).len() == n,
    decreases n,
{
    if n > 0 {
        lemma_le_bytes_len(v / 256, (n - 1) as nat);
    }
}

pub proof fn lemma_le_bytes_injective(a: nat, c: nat, n: nat)
    requires
        a < pow256(n),
        c < pow256(n),
        le_bytes(a, n) == le_bytes(c, n),
    ensures
        a == c,
    decreases n,
{
    if n > 0 {
        let m = (n - 1) as nat;
        let ra = le_bytes(a / 256, m);
        let rc = le_bytes(c / 256, m);
        assert(le_bytes(a, n) == seq![(a % 256) as u8] + ra);
        assert(le_bytes(c, n) == seq![(c % 256) as u8] + rc);
        assert((seq![(a % 256) as u8] + ra)[0] == (a % 256) as u8);
        assert((seq![(c % 256) as u8] + rc)[0] == (c % 256) as u8);
        assert(a % 256 < 256 && c % 256 < 256);
        assert(((a % 256) as u8) as nat == a % 256 && ((c % 256) as u8) as nat == c % 256);
        assert(a % 256 == c % 256);
        assert(le_bytes(a / 256, m) =~= le_bytes(a, n).drop_first());
        assert(le_bytes(c / 256, m) =~= le_bytes(c, n).drop_first());
        let p = pow256(m);
        assert(a / 256 < p && c / 256 < p) by (nonlinear_arith)
            requires
                a < 256 * p,
                c < 256 * p,
        ;
        lemma_le_bytes_injective(a / 256, c / 256, m);
        assert(a == 256 * (a / 256) + a % 256 && c == 256 * (c / 256) + c % 256) by (nonlinear_arith);
    }
}

pub proof fn lemma_at_split(s: Seq<u8>, pos: int, a: Seq<u8>, b: Seq<u8>)
    requires
        at(s, pos, a + b),
    ensures
        at(s, pos, a),
        at(s, pos + a.len(), b),
{
    let whole = s.subrange(pos, pos + (a + b).len());
    assert forall|i: int| 0 <= i < a.len() implies s.subrange(pos, pos + a.len())[i] == a[i] by {
        assert(whole[i] == (a + b)[i]);
    }
    assert forall|i: int| 0 <= i < b.len() implies s.subrange(
        pos + a.len(),
        pos + a.len() + b.len(),
    )[i] == b[i] by {
        assert(whole[a.len() + i] == (a + b)[a.len() + i]);
    }
    assert(s.subrange(pos, pos + a.len()) =~= a);
    assert(s.subrange(pos + a.len(), pos + a.len() + b.len()) =~= b);
}

pub proof fn lemma_at_join(s: Seq<u8>, pos: int, a: Seq<u8>, b: Seq<u8>)
    requires
        at(s, pos, a),
        at(s, pos + a.len(), b),
    ensures
        at(s, pos, a + b),
{
    assert(s.subrange(pos, pos + a.len() + b.len()) =~= s.subrange(pos, pos + a.len())
        + s.subrange(pos + a.len(), pos + a.len() + b.len()));
}

pub proof fn lemma_at_first(s: Seq<u8>, pos: int, e: Seq<u8>)
    requires
        at(s, pos, e),
        e.len() > 0,
    ensures
        s[pos] == e[0],
{
    assert(s.subrange(pos, pos + e.len())[0] == s[pos]);
}

/// Reads `n` bytes at `pos` as a little-endian integer.
pub fn read_le(b: &[u8], pos: usize, n: usize) -> (v: u128)
    requires
        n <= 16,
        pos + n <= b.len(),
    ensures
        (v as nat) < pow256(n as nat),
        le_bytes(v as nat, n as nat) == b@.subrange(pos as int, pos + n),
{
    let mut acc: u128 = 0;
    let mut k: usize = n;
    proof {
        assert(b@.subrange(pos + n, pos + n) =~= Seq::<u8>::empty());
    }
    while k > 0
        invariant
            k <= n <= 16,
            pos + n <= b.len(),
            (acc as nat) < pow256((n - k) as nat),
            le_bytes(acc as nat, (n - k) as nat) == b@.subrange(pos + k, pos + n),
        decreases k,
    {
        k = k - 1;
        let byte = b[pos + k];
        let ghost m = (n - k - 1) as nat;
        let ghost p = pow256(m);
        let ghost next = (acc as nat) * 256 + byte as nat;
        proof {
            lemma_pow256_mono(m + 1, 16);
            lemma_pow256_values();
            assert(next < 256 * p) by (nonlinear_arith)
                requires
                    acc < p,
                    byte < 256,
                    next == acc * 256 + byte,
            ;
            assert(next % 256 == byte as nat && next / 256 == acc as nat) by (nonlinear_arith)
                requires
                    byte < 256,
                    next == acc * 256 + byte,
            ;
            assert(le_bytes(next, m + 1) =~= seq![byte] + le_bytes(acc as nat, m));
            assert(b@.subrange(pos + k, pos + n) =~= seq![byte] + b@.subrange(pos + k + 1, pos + n));
        }
        acc = acc * 256 + byte as u128;
    }
    acc
}

pub proof fn lemma_u64_unique(s: Seq<u8>, pos: int, v: u64, w: u64)
    requires
        at(s, pos, enc_u64(v)),
        at(s, pos, enc_u64(w)),
    ensures
        v == w,
{
    lemma_le_bytes_len(v as nat, 8);
    lemma_le_bytes_len(w as nat, 8);
    lemma_pow256_values();
    lemma_le_bytes_injective(v as nat, w as nat, 8);
}

pub proof fn lemma_u128_unique(s: Seq<u8>, pos: int, v: u128, w: u128)
    requires
        at(s, pos, enc_u128(v)),
        at(s, pos, enc_u128(w)),
    ensures
        v == w,
{
    lemma_le_bytes_len(v as nat, 16);
    lemma_le_bytes_len(w as nat, 16);
    lemma_pow256_values();
    lemma_le_bytes_injective(v as nat, w as nat, 16);
}

pub proof fn lemma_option_unique(s: Seq<u8>, pos: int, v: Option<u64>, w: Option<u64>)
    requires
        at(s, pos, enc_option(v)),
        at(s, pos, enc_option(w)),
    ensures
        v == w,
        enc_option(v).len() == enc_option(w).len(),
{
    lemma_at_first(s, pos, enc_option(v));
    lemma_at_first(s, pos, enc_option(w));
    if let Some(x) = v {
        if let Some(y) = w {
            lemma_at_split(s, pos, seq![1u8], enc_u64(x));
            lemma_at_split(s, pos, seq![1u8], enc_u64(y));
            lemma_u64_unique(s, pos + 1, x, y);
        }
    }
}

pub proof fn lemma_bool_unique(s: Seq<u8>, pos: int, v: bool, w: bool)
    requires
        at(s, pos, enc_bool(v)),
        at(s, pos, enc_bool(w)),
    ensures
        v == w,
{
    lemma_at_first(s, pos, enc_bool(v));
    lemma_at_first(s, pos, enc_bool(w));
}

pub proof fn lemma_side_unique(s: Seq<u8>, pos: int, v: Side, w: Side)
    requires
        at(s, pos, enc_side(v)),
        at(s, pos, enc_side(w)),
    ensures
        v == w,
{
    lemma_at_first(s, pos, enc_side(v));
    lemma_at_first(s, pos, enc_side(w));
}

pub proof fn lemma_self_trade_unique(s: Seq<u8>, pos: int, v: SelfTradeBehavior, w: SelfTradeBehavior)
    requires
        at(s, pos, enc_self_trade(v)),
        at(s, pos, enc_self_trade(w)),
    ensures
        v == w,
{
    lemma_at_first(s, pos, enc_self_trade(v));
    lemma_at_first(s, pos, enc_self_trade(w));
}

/// Reads a little-endian `u64` at `pos`, if `ok` and the bytes are there.
pub fn read_u64(b: &[u8], pos: usize, ok: bool) -> (r: (u64, usize, bool))
    requires
        pos <= b.len(),
    ensures
        r.1 <= b.len(),
        r.2 ==> ok && at(b@, pos as int, enc_u64(r.0)) && r.1 == pos + 8,
        forall|w: u64|
            ok && #[trigger] at(b@, pos as int, enc_u64(w)) ==> r.2 && r.0 == w && r.1 == pos + 8,
{
    proof {
        lemma_pow256_values();
        assert forall|w: u64| #[trigger] at(b@, pos as int, enc_u64(w)) implies pos + 8 <= b.len() by {
            lemma_le_bytes_len(w as nat, 8);
        }
    }
    if ok && b.len() >= 8 && pos <= b.len() - 8 {
        let x = read_le(b, pos, 8);
        let v = x as u64;
        proof {
            lemma_le_bytes_len(v as nat, 8);
            assert forall|w: u64| #[trigger] at(b@, pos as int, enc_u64(w)) implies v == w by {
                lemma_u64_unique(b@, pos as int, v, w);
            }
        }
        (v, pos + 8, true)
    } else {
        (0, pos, false)
    }
}

/// Reads a little-endian `u128` at `pos`, if `ok` and the bytes are there.
pub fn read_u128(b: &[u8], pos: usize, ok: bool) -> (r: (u128, usize, bool))
    requires
        pos <= b.len(),
    ensures
        r.1 <= b.len(),
        r.2 ==> ok && at(b@, pos as int, enc_u128(r.0)) && r.1 == pos + 16,
        forall|w: u128|
            ok && #[trigger] at(b@, pos as int, enc_u128(w)) ==> r.2 && r.0 == w && r.1 == pos + 16,
{
    proof {
        lemma_pow256_values();
        assert forall|w: u128| #[trigger] at(b@, pos as int, enc_u128(w)) implies pos + 16
            <= b.len() by {
            lemma_le_bytes_len(w as nat, 16);
        }
    }
    if ok && b.len() >= 16 && pos <= b.len() - 16 {
        let v = read_le(b, pos, 16);
        proof {
            lemma_le_bytes_len(v as nat, 16);
            assert forall|w: u128| #[trigger] at(b@, pos as int, enc_u128(w)) implies v == w by {
                lemma_u128_unique(b@, pos as int, v, w);
            }
        }
        (v, pos + 16, true)
    } else {
        (0, pos, false)
    }
}

/// Reads a boolean byte (0 or 1) at `pos`.
pub fn read_bool(b: &[u8], pos: usize, ok: bool) -> (r: (bool, usize, bool))
    requires
        pos <= b.len(),
    ensures
        r.1 <= b.len(),
        r.2 ==> ok && at(b@, pos as int, enc_bool(r.0)) && r.1 == pos + 1,
        forall|w: bool|
            ok && #[trigger] at(b@, pos as int, enc_bool(w)) ==> r.2 && r.0 == w && r.1 == pos + 1,
{
    proof {
        assert forall|w: bool| #[trigger] at(b@, pos as int, enc_bool(w)) implies pos < b.len()
            && b@[pos as int] == enc_bool(w)[0] by {
            lemma_at_first(b@, pos as int, enc_bool(w));
        }
    }
    if ok && pos < b.len() && b[pos] <= 1 {
        let v = b[pos] == 1;
        proof {
            assert(b@.subrange(pos as int, pos + 1) =~= enc_bool(v));
        }
        (v, pos + 1, true)
    } else {
        (false, pos, false)
    }
}

/// Reads a side (0 for bid, 1 for ask) at `pos`.
pub fn read_side(b: &[u8], pos: usize, ok: bool) -> (r: (Side, usize, bool))
    requires
        pos <= b.len(),
    ensures
        r.1 <= b.len(),
        r.2 ==> ok && at(b@, pos as int, enc_side(r.0)) && r.1 == pos + 1,
        forall|w: Side|
            ok && #[trigger] at(b@, pos as int, enc_side(w)) ==> r.2 && r.0 == w && r.1 == pos + 1,
{
    proof {
        assert forall|w: Side| #[trigger] at(b@, pos as int, enc_side(w)) implies pos < b.len()
            && b@[pos as int] == enc_side(w)[0] by {
            lemma_at_first(b@, pos as int, enc_side(w));
        }
    }
    if ok && pos < b.len() && b[pos] <= 1 {
        let v = if b[pos] == 0 {
            Side::Bid
        } else {
            Side::Ask
        };
        proof {
            assert(b@.subrange(pos as int, pos + 1) =~= enc_side(v));
        }
        (v, pos + 1, true)
    } else {
        (Side::Bid, pos, false)
    }
}

/// Reads a self-trade behavior (0, 1 or 2) at `pos`.
pub fn read_self_trade(b: &[u8], pos: usize, ok: bool) -> (r: (SelfTradeBehavior, usize, bool))
    requires
        pos <= b.len(),
    ensures
        r.1 <= b.len(),
        r.2 ==> ok && at(b@, pos as int, enc_self_trade(r.0)) && r.1 == pos + 1,
        forall|w: SelfTradeBehavior|
            ok && #[trigger] at(b@, pos as int, enc_self_trade(w)) ==> r.2 && r.0 == w && r.1 == pos
                + 1,
{
    proof {
        assert forall|w: SelfTradeBehavior| #[trigger] at(b@, pos as int, enc_self_trade(w)) implies pos
            < b.len() && b@[pos as int] == enc_self_trade(w)[0] by {
            lemma_at_first(b@, pos as int, enc_self_trade(w));
        }
    }
    if ok && pos < b.len() && b[pos] <= 2 {
        let v = if b[pos] == 0 {
            SelfTradeBehavior::Abort
        } else if b[pos] == 1 {
            SelfTradeBehavior::CancelProvide
        } else {
            SelfTradeBehavior::DecrementTake
        };
        proof {
            assert(b@.subrange(pos as int, pos + 1) =~= enc_self_trade(v));
        }
        (v, pos + 1, true)
    } else {
        (SelfTradeBehavior::Abort, pos, false)
    }
}

/// Reads an optional `u64` (a presence byte, then the value) at `pos`.
pub fn read_option(b: &[u8], pos: usize, ok: bool) -> (r: (Option<u64>, usize, bool))
    requires
        pos <= b.len(),
    ensures
        r.1 <= b.len(),
        r.2 ==> ok && at(b@, pos as int, enc_option(r.0)) && r.1 == pos + enc_option(r.0).len(),
        forall|w: Option<u64>|
            ok && #[trigger] at(b@, pos as int, enc_option(w)) ==> r.2 && r.0 == w && r.1 == pos
                + enc_option(w).len(),
{
    proof {
        assert forall|w: Option<u64>| #[trigger] at(b@, pos as int, enc_option(w)) implies pos
            < b.len() && b@[pos as int] == enc_option(w)[0] by {
            lemma_at_first(b@, pos as int, enc_option(w));
        }
    }
    if ok && pos < b.len() && b[pos] == 0 {
        proof {
            assert(b@.subrange(pos as int, pos + 1) =~= enc_option(None));
            assert forall|w: Option<u64>| #[trigger] at(b@, pos as int, enc_option(w)) implies w
                == None::<u64> by {
                lemma_option_unique(b@, pos as int, w, None);
            }
        }
        (None, pos + 1, true)
    } else if ok && pos < b.len() && b[pos] == 1 {
        let (v, q, k) = read_u64(b, pos + 1, true);
        proof {
            assert(b@.subrange(pos as int, pos + 1) =~= seq![1u8]);
            if k {
                lemma_at_join(b@, pos as int, seq![1u8], enc_u64(v));
            }
            assert forall|w: Option<u64>| #[trigger] at(b@, pos as int, enc_option(w)) implies k
                && Some(v) == w && q == pos + enc_option(w).len() by {
                if let Some(x) = w {
                    lemma_at_split(b@, pos as int, seq![1u8], enc_u64(x));
                    lemma_le_bytes_len(x as nat, 8);
                    assert(at(b@, pos + 1, enc_u64(x)));
                } else {
                    assert(enc_option(w)[0] == 0);
                }
            }
        }
        (if k {
            Some(v)
        } else {
            None
        }, q, k)
    } else {
        (None, pos, false)
    }
}

} // verus!
