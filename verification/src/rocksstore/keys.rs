//! Layout of the keys under which the storage keeps its records.
//!
//! Every key starts with a three-byte prefix that names its record kind:
//! `000` for log entries, `001` for entries applied to the state machine,
//! `002` for the hard state and `003` for user data. Log and applied keys
//! carry the entry index after the prefix, written in decimal.
use vstd::prelude::*;
use vstd::string::*;
use vstd::utf8::*;

verus! {

/// `'0'` in ASCII.
pub const ZERO: u8 = 48;

/// `'+'` in ASCII.
pub const PLUS: u8 = 43;

pub open spec fn is_digit(b: u8) -> bool {
    48 <= b <= 57
}

pub open spec fn all_digits(d: Seq<u8>) -> bool {
    forall|i: int| 0 <= i < d.len() ==> is_digit(#[trigger] d[i])
}

/// The number that a sequence of ASCII digits denotes, most significant first.
pub open spec fn digits_value(d: Seq<u8>) -> nat
    decreases d.len(),
{
    if d.len() == 0 {
        0
    } else {
        digits_value(d.drop_last()) * 10 + (d.last() - 48) as nat
    }
}

/// The decimal digits of `n`, without leading zeros (`0` for zero).
pub open spec fn decimal(n: nat) -> Seq<u8>
    decreases n,
{
    if n < 10 {
        seq![(n + 48) as u8]
    } else {
        decimal(n / 10).push((n % 10 + 48) as u8)
    }
}

/// What `str::parse::<u64>` yields for the text made of these bytes:
/// an optional leading `+`, then one or more ASCII digits whose value fits in a `u64`.
pub open spec fn parse_u64_spec(s: Seq<u8>) -> Option<u64> {
    let d = if s.len() > 1 && s[0] == PLUS {
        s.drop_first()
    } else {
        s
    };
    if d.len() > 0 && all_digits(d) && digits_value(d) <= u64::MAX {
        Some(digits_value(d) as u64)
    } else {
        None
    }
}

/// `parse::<u64>().unwrap_or(0)` on these bytes.
pub open spec fn parse_or_zero(s: Seq<u8>) -> u64 {
    match parse_u64_spec(s) {
        Some(v) => v,
        None => 0,
    }
}

pub proof fn lemma_decimal_digits(n: nat)
    ensures
        decimal(n).len() >= 1,
        all_digits(decimal(n)),
        digits_value(decimal(n)) == n,
    decreases n,
{
    if n >= 10 {
        lemma_decimal_digits(n / 10);
        let d = decimal(n);
        assert(d.drop_last() =~= decimal(n / 10));
        assert(d.last() == (n % 10 + 48) as u8);
        assert((n / 10) * 10 + n % 10 == n);
        assert(digits_value(d) == digits_value(d.drop_last()) * 10 + (d.last() - 48) as nat);
        assert(digits_value(d) == n);
        assert forall|i: int| 0 <= i < d.len() implies is_digit(#[trigger] d[i]) by {
            if i < d.len() - 1 {
                assert(d[i] == decimal(n / 10)[i]);
            }
        }
    } else {
        let d = decimal(n);
        assert(d.drop_last() =~= Seq::<u8>::empty());
        assert(d.last() == (n + 48) as u8);
        assert(is_digit(d[0]));
        assert(digits_value(d) == digits_value(d.drop_last()) * 10 + (d.last() - 48) as nat);
        assert(digits_value(d) == n);
    }
}

/// A digit sequence is worth at least as much as any of its prefixes.
pub proof fn lemma_digits_value_prefix(d: Seq<u8>, j: int)
    requires
        0 <= j <= d.len(),
        all_digits(d),
    ensures
        digits_value(d.subrange(0, j)) <= digits_value(d),
    decreases d.len() - j,
{
    if j < d.len() {
        lemma_digits_value_prefix(d, j + 1);
        let p = d.subrange(0, j + 1);
        assert(p.drop_last() =~= d.subrange(0, j));
        assert(is_digit(d[j]));
    } else {
        assert(d.subrange(0, j) =~= d);
    }
}

/// Reading back the decimal text of a number gives the number.
pub proof fn lemma_parse_decimal(n: u64)
    ensures
        parse_u64_spec(decimal(n as nat)) == Some(n),
        parse_or_zero(decimal(n as nat)) == n,
{
    lemma_decimal_digits(n as nat);
    let d = decimal(n as nat);
    assert(is_digit(d[0]));
}

/// Appends the decimal digits of `n` to `out`.
pub fn push_decimal(out: &mut Vec<u8>, n: u64)
    ensures
        final(out)@ == old(out)@ + decimal(n as nat),
    decreases n,
{
    if n >= 10 {
        push_decimal(out, n / 10);
    }
    let digit: u8 = (n % 10) as u8;
    out.push(digit + ZERO);
    proof {
        if n >= 10 {
            assert(decimal(n as nat) == decimal((n / 10) as nat).push((n % 10 + 48) as u8));
        }
    }
    assert(final(out)@ =~= old(out)@ + decimal(n as nat));
}

/// The decimal text of `n`, as `format!("{}", n)` writes it.
pub fn decimal_bytes(n: u64) -> (r: Vec<u8>)
    ensures
        r@ == decimal(n as nat),
{
    let mut out: Vec<u8> = Vec::new();
    push_decimal(&mut out, n);
    assert(out@ =~= decimal(n as nat));
    out
}

/// `str::parse::<u64>` on the text made of `s`: `None` where it fails.
pub fn parse_u64(s: &[u8]) -> (r: Option<u64>)
    ensures
        r == parse_u64_spec(s@),
{
    let len = s.len();
    if len == 0 {
        return None;
    }
    let start: usize = if len > 1 && s[0] == PLUS {
        1
    } else {
        0
    };
    let ghost d = if s@.len() > 1 && s@[0] == PLUS {
        s@.drop_first()
    } else {
        s@
    };
    assert(d =~= s@.subrange(start as int, len as int));
    let mut i: usize = start;
    let mut acc: u64 = 0;
    while i < len
        invariant
            start <= i <= len,
            len == s@.len(),
            d =~= s@.subrange(start as int, len as int),
            d == (if s@.len() > 1 && s@[0] == PLUS {
                s@.drop_first()
            } else {
                s@
            }),
            all_digits(d.subrange(0, i - start)),
            acc as nat == digits_value(d.subrange(0, i - start)),
        decreases len - i,
    {
        let b = s[i];
        let ghost k = i - start;
        if b < ZERO || b > 57 {
            assert(!is_digit(d[k]));
            return None;
        }
        assert(d.subrange(0, k + 1).drop_last() =~= d.subrange(0, k));
        assert(digits_value(d.subrange(0, k + 1)) == digits_value(d.subrange(0, k)) * 10 + (b
            - 48) as nat);
        let digit: u64 = (b - ZERO) as u64;
        let next = match acc.checked_mul(10) {
            Some(m) => m.checked_add(digit),
            None => None,
        };
        match next {
            Some(v) => {
                acc = v;
            },
            None => {
                proof {
                    if all_digits(d) {
                        lemma_digits_value_prefix(d, k + 1);
                    }
                }
                return None;
            },
        }
        i = i + 1;
        assert forall|j: int| 0 <= j < i - start implies is_digit(
            #[trigger] d.subrange(0, i - start)[j],
        ) by {
            if j < k {
                assert(d.subrange(0, i - start)[j] == d.subrange(0, k)[j]);
            }
        }
    }
    assert(d.subrange(0, len - start) =~= d);
    Some(acc)
}

pub open spec fn log_prefix() -> Seq<u8> {
    seq![48u8, 48u8, 48u8]
}

pub open spec fn applied_prefix() -> Seq<u8> {
    seq![48u8, 48u8, 49u8]
}

pub open spec fn data_prefix() -> Seq<u8> {
    seq![48u8, 48u8, 51u8]
}

/// `002`, the prefix under which the hard state is kept.
pub open spec fn hard_state_prefix() -> Seq<u8> {
    seq![48u8, 48u8, 50u8]
}

/// `002hs`, the one key of the hard state.
pub open spec fn hard_state_key_spec() -> Seq<u8> {
    seq![48u8, 48u8, 50u8, 104u8, 115u8]
}

/// `000` followed by the decimal index.
pub open spec fn log_key_spec(index: u64) -> Seq<u8> {
    log_prefix() + decimal(index as nat)
}

/// `001` followed by the decimal index.
pub open spec fn applied_key_spec(index: u64) -> Seq<u8> {
    applied_prefix() + decimal(index as nat)
}

/// `003` followed by the bytes of the user's key.
pub open spec fn data_key_spec(key: Seq<u8>) -> Seq<u8> {
    data_prefix() + key
}

/// The index that a log or applied key names: what follows the three-byte
/// prefix, read with `parse::<u64>().unwrap_or(0)`.
pub open spec fn key_index(key: Seq<u8>) -> u64 {
    parse_or_zero(key.subrange(3, key.len() as int))
}

/// Appends the bytes of `src` to `out`.
pub fn push_bytes(out: &mut Vec<u8>, src: &[u8])
    ensures
        final(out)@ == old(out)@ + src@,
{
    let mut i: usize = 0;
    while i < src.len()
        invariant
            i <= src@.len(),
            out@ == old(out)@ + src@.subrange(0, i as int),
        decreases src@.len() - i,
    {
        out.push(src[i]);
        i = i + 1;
        assert(out@ =~= old(out)@ + src@.subrange(0, i as int));
    }
    assert(src@.subrange(0, i as int) =~= src@);
}

fn prefix_bytes(third: u8) -> (r: Vec<u8>)
    ensures
        r@ == seq![48u8, 48u8, third],
{
    let mut r: Vec<u8> = Vec::new();
    r.push(ZERO);
    r.push(ZERO);
    r.push(third);
    assert(r@ =~= seq![48u8, 48u8, third]);
    r
}

/// The key of the log entry at `index`.
pub fn log_key(index: u64) -> (r: Vec<u8>)
    ensures
        r@ == log_key_spec(index),
{
    let mut r = prefix_bytes(48);
    push_decimal(&mut r, index);
    r
}

/// The key under which the entry at `index` is recorded once applied.
pub fn applied_key(index: u64) -> (r: Vec<u8>)
    ensures
        r@ == applied_key_spec(index),
{
    let mut r = prefix_bytes(49);
    push_decimal(&mut r, index);
    r
}

/// The key of the hard state.
pub fn hard_state_key() -> (r: Vec<u8>)
    ensures
        r@ == hard_state_key_spec(),
{
    let mut r = prefix_bytes(50);
    r.push(104);
    r.push(115);
    assert(r@ =~= hard_state_key_spec());
    r
}

/// The key under which the value of the user's key `key` is stored.
pub fn data_key(key: &str) -> (r: Vec<u8>)
    ensures
        r@ == data_key_spec(key.spec_bytes()),
{
    let mut r = prefix_bytes(51);
    push_bytes(&mut r, key.as_bytes());
    r
}

/// The key looked up for a user's key given as raw bytes.
pub fn lookup_key(key: &[u8]) -> (r: Vec<u8>)
    ensures
        r@ == data_key_spec(key@),
{
    let mut r = prefix_bytes(51);
    push_bytes(&mut r, key);
    r
}

/// The index named by a log or applied key.
pub fn index_of_key(key: &[u8]) -> (r: u64)
    requires
        key@.len() >= 3,
    ensures
        r == key_index(key@),
{
    let rest = &key[3..key.len()];
    assert(rest@ =~= key@.subrange(3, key@.len() as int));
    match parse_u64(rest) {
        Some(v) => v,
        None => 0,
    }
}

/// The index written into a log or applied key reads back unchanged.
pub proof fn lemma_key_index_roundtrip(index: u64)
    ensures
        key_index(log_key_spec(index)) == index,
        key_index(applied_key_spec(index)) == index,
{
    lemma_parse_decimal(index);
    let d = decimal(index as nat);
    assert(log_key_spec(index).subrange(3, log_key_spec(index).len() as int) =~= d);
    assert(applied_key_spec(index).subrange(3, applied_key_spec(index).len() as int) =~= d);
}

/// Distinct indices have distinct log keys, and distinct applied keys.
pub proof fn lemma_index_keys_injective(i: u64, j: u64)
    requires
        i != j,
    ensures
        log_key_spec(i) != log_key_spec(j),
        applied_key_spec(i) != applied_key_spec(j),
{
    lemma_key_index_roundtrip(i);
    lemma_key_index_roundtrip(j);
}

/// The four record kinds never share a key: a log key, an applied key, the
/// hard-state key and a data key always differ.
pub proof fn lemma_key_kinds_disjoint(i: u64, j: u64, k: Seq<u8>)
    ensures
        log_key_spec(i) != applied_key_spec(j),
        log_key_spec(i) != hard_state_key_spec(),
        log_key_spec(i) != data_key_spec(k),
        applied_key_spec(j) != hard_state_key_spec(),
        applied_key_spec(j) != data_key_spec(k),
        hard_state_key_spec() != data_key_spec(k),
{
    assert(log_key_spec(i)[2] == 48u8);
    assert(applied_key_spec(j)[2] == 49u8);
    assert(hard_state_key_spec()[2] == 50u8);
    assert(data_key_spec(k)[2] == 51u8);
}

/// Distinct user keys are stored under distinct keys.
pub proof fn lemma_user_keys_distinct(k1: Seq<char>, k2: Seq<char>)
    requires
        k1 != k2,
    ensures
        data_key_spec(encode_utf8(k1)) != data_key_spec(encode_utf8(k2)),
{
    encode_utf8_decode_utf8(k1);
    encode_utf8_decode_utf8(k2);
    let d1 = data_key_spec(encode_utf8(k1));
    let d2 = data_key_spec(encode_utf8(k2));
    if d1 == d2 {
        assert(d1.subrange(3, d1.len() as int) =~= encode_utf8(k1));
        assert(d2.subrange(3, d2.len() as int) =~= encode_utf8(k2));
    }
}

} // verus!
