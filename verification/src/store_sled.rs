use vstd::prelude::*;
use vstd::utf8::*;

use crate::codec::{push_char, uuid_hyphenated, uuid_hyphenated_text};
use crate::error::{EnigmaRelayError, Result};
use crate::store::lemma_encode_utf8_concat;
use crate::text::{dec_digits, lemma_dec_digits_all_digits, lemma_dec_digits_len, parse_u64_spec, push_dec_digits};

verus! {

// The key layout of the persistent (sled) backend. Message keys are
// `msg:{recipient}:{arrival_seq:020}:{uuid}:{chunk:010}`, so that a prefix scan
// over `msg:{recipient}:` walks one recipient's queue in arrival order; index
// keys are `idx:{recipient}:{uuid}:{chunk:010}`; quota and sequence counters
// live under `quota:{recipient}` and `seq:{recipient}`.

pub open spec fn message_prefix_text(recipient: Seq<char>) -> Seq<char> {
    "msg:"@ + recipient.push(':')
}

pub open spec fn message_key_text(recipient: Seq<char>, arrival_seq: u64, message_id: u128, chunk_index: u32) -> Seq<char> {
    message_prefix_text(recipient) + dec_digits(arrival_seq as nat, 20).push(':') + uuid_hyphenated(
        message_id,
    ).push(':') + dec_digits(chunk_index as nat, 10)
}

pub open spec fn index_key_text(recipient: Seq<char>, message_id: u128, chunk_index: u32) -> Seq<char> {
    "idx:"@ + recipient.push(':') + uuid_hyphenated(message_id).push(':') + dec_digits(
        chunk_index as nat,
        10,
    )
}

pub open spec fn quota_key_text(recipient: Seq<char>) -> Seq<char> {
    "quota:"@ + recipient
}

pub open spec fn seq_key_text(recipient: Seq<char>) -> Seq<char> {
    "seq:"@ + recipient
}

fn text_bytes(s: &String) -> (r: Vec<u8>)
    ensures
        r@ == encode_utf8(s@),
{
    s.as_str().as_bytes_vec()
}

fn append_str(s: &mut String, t: &str)
    ensures
        final(s)@ == old(s)@ + t@,
{
    s.append(t)
}

/// The prefix under which all of a recipient's messages are stored.
pub fn message_prefix(recipient: &str) -> (r: Vec<u8>)
    ensures
        r@ == encode_utf8(message_prefix_text(recipient@)),
{
    let mut key = "msg:".to_owned();
    append_str(&mut key, recipient);
    push_char(&mut key, ':');
    assert(key@ =~= message_prefix_text(recipient@));
    text_bytes(&key)
}

/// The key of a stored message.
pub fn message_key(recipient: &str, arrival_seq: u64, message_id: u128, chunk_index: u32) -> (r: Vec<u8>)
    ensures
        r@ == encode_utf8(message_key_text(recipient@, arrival_seq, message_id, chunk_index)),
{
    let mut key = "msg:".to_owned();
    append_str(&mut key, recipient);
    push_char(&mut key, ':');
    push_dec_digits(&mut key, arrival_seq, 20);
    push_char(&mut key, ':');
    let id = uuid_hyphenated_text(message_id);
    append_str(&mut key, id.as_str());
    push_char(&mut key, ':');
    push_dec_digits(&mut key, chunk_index as u64, 10);
    assert(key@ =~= message_key_text(recipient@, arrival_seq, message_id, chunk_index));
    text_bytes(&key)
}

/// The key of a message chunk's entry in the dedup index.
pub fn index_key(recipient: &str, message_id: u128, chunk_index: u32) -> (r: Vec<u8>)
    ensures
        r@ == encode_utf8(index_key_text(recipient@, message_id, chunk_index)),
{
    let mut key = "idx:".to_owned();
    append_str(&mut key, recipient);
    push_char(&mut key, ':');
    let id = uuid_hyphenated_text(message_id);
    append_str(&mut key, id.as_str());
    push_char(&mut key, ':');
    push_dec_digits(&mut key, chunk_index as u64, 10);
    assert(key@ =~= index_key_text(recipient@, message_id, chunk_index));
    text_bytes(&key)
}

/// The key of a recipient's quota counters.
pub fn quota_key(recipient: &str) -> (r: Vec<u8>)
    ensures
        r@ == encode_utf8(quota_key_text(recipient@)),
{
    let mut key = "quota:".to_owned();
    append_str(&mut key, recipient);
    text_bytes(&key)
}

/// The key of a recipient's next arrival sequence number.
pub fn seq_key(recipient: &str) -> (r: Vec<u8>)
    ensures
        r@ == encode_utf8(seq_key_text(recipient@)),
{
    let mut key = "seq:".to_owned();
    append_str(&mut key, recipient);
    text_bytes(&key)
}

/// The first colon at or after `from`.
pub open spec fn first_colon_from(b: Seq<u8>, from: int, j: int) -> bool {
    &&& from <= j < b.len()
    &&& b[j] == 58
    &&& forall|k: int| from <= k < j ==> b[k] != 58
}

pub open spec fn colon_after(b: Seq<u8>, from: int) -> Option<int> {
    if exists|j: int| first_colon_from(b, from, j) {
        Some(choose|j: int| first_colon_from(b, from, j))
    } else {
        None
    }
}

proof fn lemma_first_colon_unique(b: Seq<u8>, from: int, j: int)
    requires
        first_colon_from(b, from, j),
    ensures
        colon_after(b, from) == Some(j),
{
    let k = choose|k: int| first_colon_from(b, from, k);
    assert(k == j) by {
        if k < j {
        } else if k > j {
        }
    }
}

fn find_colon(b: &[u8], from: usize) -> (r: Option<usize>)
    requires
        from <= b@.len(),
    ensures
        match r {
            Some(j) => colon_after(b@, from as int) == Some(j as int),
            None => colon_after(b@, from as int) is None,
        },
{
    let mut i = from;
    while i < b.len()
        invariant
            from <= i <= b@.len(),
            forall|k: int| from <= k < i ==> b@[k] != 58,
        decreases b@.len() - i,
    {
        if b[i] == 58 {
            proof {
                lemma_first_colon_unique(b@, from as int, i as int);
            }
            return Some(i);
        }
        i = i + 1;
    }
    None
}

/// Bytes read as the characters of the same code points.
pub open spec fn bytes_as_chars(b: Seq<u8>) -> Seq<char> {
    b.map_values(|x: u8| x as char)
}

/// The arrival sequence number that a key holds, as
/// `String::from_utf8_lossy(key).split(':')` reads it: `Some(None)` for a key
/// that is not a message key or has no number part, `Some(Some(n))` for a
/// readable number, `None` when the number part does not parse. A colon is
/// ASCII and never part of a replaced invalid sequence, so splitting the bytes
/// at colons splits the lossy text the same way; and a part with any
/// non-ASCII byte parses neither way.
pub open spec fn key_seq_spec(key: Seq<u8>) -> Option<Option<u64>> {
    match colon_after(key, 0) {
        None => Some(None),
        Some(i1) => if key.subrange(0, i1) != seq![109u8, 115u8, 103u8] {
            Some(None)
        } else {
            match colon_after(key, i1 + 1) {
                None => Some(None),
                Some(i2) => {
                    let end = match colon_after(key, i2 + 1) {
                        Some(i3) => i3,
                        None => key.len() as int,
                    };
                    match parse_u64_spec(bytes_as_chars(key.subrange(i2 + 1, end))) {
                        Some(n) => Some(Some(n)),
                        None => None,
                    }
                },
            }
        },
    }
}

/// `u64` parsing of bytes read as characters.
fn parse_u64_bytes(s: &[u8]) -> (r: Option<u64>)
    ensures
        r == parse_u64_spec(bytes_as_chars(s@)),
{
    let ghost t = bytes_as_chars(s@);
    let len = s.len();
    let mut start: usize = 0;
    if len > 0 && s[0] == 43 {
        start = 1;
    }
    let ghost digits = if t.len() > 0 && t[0] == '+' {
        t.drop_first()
    } else {
        t
    };
    assert(start == 1 <==> (t.len() > 0 && t[0] == '+')) by {
        if len > 0 {
            assert(t[0] == s@[0] as char);
        }
    }
    if start == len {
        return None;
    }
    let mut acc: u64 = 0;
    let mut overflow = false;
    let mut i = start;
    while i < len
        invariant
            start <= i <= len,
            len == s@.len(),
            t == bytes_as_chars(s@),
            start == 0 || start == 1,
            start == 1 <==> (t.len() > 0 && t[0] == '+'),
            digits == t.subrange(start as int, len as int),
            crate::text::all_digits(t.subrange(start as int, i as int)),
            !overflow ==> acc == crate::text::dec_value(t.subrange(start as int, i as int)),
            overflow ==> crate::text::dec_value(t.subrange(start as int, i as int)) > u64::MAX,
        decreases len - i,
    {
        let b = s[i];
        let ghost c = t[i as int];
        assert(c == b as char);
        if !(48 <= b && b <= 57) {
            proof {
                assert(digits[i - start] == c);
            }
            return None;
        }
        let d = (b - 48) as u64;
        let ghost pre = t.subrange(start as int, i as int);
        let ghost post = t.subrange(start as int, i + 1);
        assert(post.drop_last() =~= pre);
        assert(post.last() == c);
        assert(crate::text::all_digits(post));
        if !overflow {
            match acc.checked_mul(10) {
                Some(m) => match m.checked_add(d) {
                    Some(v) => {
                        acc = v;
                    },
                    None => {
                        overflow = true;
                    },
                },
                None => {
                    overflow = true;
                },
            }
        } else {
            assert(crate::text::dec_value(post) >= crate::text::dec_value(pre)) by (nonlinear_arith)
                requires
                    crate::text::dec_value(post) == crate::text::dec_value(pre) * 10
                        + crate::text::digit_value(c),
            ;
        }
        i = i + 1;
    }
    assert(t.subrange(start as int, len as int) == digits);
    if overflow {
        None
    } else {
        Some(acc)
    }
}

fn invalid_key() -> (e: EnigmaRelayError)
    ensures
        e matches EnigmaRelayError::Internal(m) && m@ == "invalid key"@,
{
    EnigmaRelayError::Internal("invalid key".to_owned())
}

/// The arrival sequence number held by a message key, as `key_seq_spec`
/// says; an unreadable number is an internal error.
pub fn parse_seq_from_key(key: &[u8]) -> (r: Result<Option<u64>>)
    ensures
        match r {
            Ok(x) => key_seq_spec(key@) == Some(x),
            Err(e) => key_seq_spec(key@) is None && (e matches EnigmaRelayError::Internal(m) && m@ == "invalid key"@),
        },
{
    let i1 = match find_colon(key, 0) {
        Some(i) => i,
        None => return Ok(None),
    };
    if !(i1 == 3 && key[0] == 109 && key[1] == 115 && key[2] == 103) {
        proof {
            if key@.subrange(0, i1 as int) == seq![109u8, 115u8, 103u8] {
                assert(key@.subrange(0, i1 as int)[0] == key@[0]);
                assert(key@.subrange(0, i1 as int)[1] == key@[1]);
                assert(key@.subrange(0, i1 as int)[2] == key@[2]);
            }
        }
        return Ok(None);
    }
    assert(key@.subrange(0, i1 as int) =~= seq![109u8, 115u8, 103u8]);
    let i2 = match find_colon(key, i1 + 1) {
        Some(i) => i,
        None => return Ok(None),
    };
    let end = match find_colon(key, i2 + 1) {
        Some(i) => i,
        None => key.len(),
    };
    let seg = crate::text::byte_range(key, i2 + 1, end);
    match parse_u64_bytes(seg.as_slice()) {
        Some(n) => Ok(Some(n)),
        None => Err(invalid_key()),
    }
}

/// The big-endian bytes of a number.
pub open spec fn be_bytes(v: u64) -> Seq<u8> {
    seq![
        (v >> 56u64) as u8,
        (v >> 48u64) as u8,
        (v >> 40u64) as u8,
        (v >> 32u64) as u8,
        (v >> 24u64) as u8,
        (v >> 16u64) as u8,
        (v >> 8u64) as u8,
        v as u8,
    ]
}

/// The number whose big-endian bytes these eight are.
pub open spec fn be_value(b: Seq<u8>) -> u64 {
    ((b[0] as u64) << 56u64) | ((b[1] as u64) << 48u64) | ((b[2] as u64) << 40u64) | ((
    b[3] as u64) << 32u64) | ((b[4] as u64) << 24u64) | ((b[5] as u64) << 16u64) | ((b[6] as u64)
        << 8u64) | (b[7] as u64)
}

/// `value.to_be_bytes()`.
pub fn encode_u64(value: u64) -> (r: [u8; 8])
    ensures
        r@ == be_bytes(value),
        be_value(r@) == value,
{
    let r = [
        (value >> 56u64) as u8,
        (value >> 48u64) as u8,
        (value >> 40u64) as u8,
        (value >> 32u64) as u8,
        (value >> 24u64) as u8,
        (value >> 16u64) as u8,
        (value >> 8u64) as u8,
        value as u8,
    ];
    assert(r@ =~= be_bytes(value));
    let ghost b = be_bytes(value);
    assert(((((value >> 56u64) as u8) as u64) << 56u64) | ((((value >> 48u64) as u8) as u64)
        << 48u64) | ((((value >> 40u64) as u8) as u64) << 40u64) | ((((value >> 32u64) as u8) as u64)
        << 32u64) | ((((value >> 24u64) as u8) as u64) << 24u64) | ((((value >> 16u64) as u8) as u64)
        << 16u64) | ((((value >> 8u64) as u8) as u64) << 8u64) | ((value as u8) as u64) == value)
        by (bit_vector);
    r
}

fn invalid_integer() -> (e: EnigmaRelayError)
    ensures
        e matches EnigmaRelayError::Internal(m) && m@ == "invalid integer"@,
{
    EnigmaRelayError::Internal("invalid integer".to_owned())
}

/// `u64::from_be_bytes` of exactly eight bytes; any other length is an
/// internal error.
pub fn decode_u64(bytes: &[u8]) -> (r: Result<u64>)
    ensures
        match r {
            Ok(v) => bytes@.len() == 8 && v == be_value(bytes@),
            Err(e) => bytes@.len() != 8 && (e matches EnigmaRelayError::Internal(m) && m@ == "invalid integer"@),
        },
{
    if bytes.len() != 8 {
        return Err(invalid_integer());
    }
    let v = ((bytes[0] as u64) << 56u64) | ((bytes[1] as u64) << 48u64) | ((bytes[2] as u64) << 40u64)
        | ((bytes[3] as u64) << 32u64) | ((bytes[4] as u64) << 24u64) | ((bytes[5] as u64) << 16u64)
        | ((bytes[6] as u64) << 8u64) | (bytes[7] as u64);
    Ok(v)
}

} // verus!

verus! {

proof fn lemma_scalar_no_colon(c: char)
    requires
        c != ':',
    ensures
        forall|k: int| 0 <= k < encode_scalar(c as u32).len() ==> #[trigger] encode_scalar(c as u32)[k] != 58u8,
{
    let v = c as u32;
    char_is_scalar(c);
    assert(forall|y: u8| #![auto] (0x80u8 | y) != 58u8) by (bit_vector);
    assert(forall|y: u8| #![auto] (0xC0u8 | y) != 58u8) by (bit_vector);
    assert(forall|y: u8| #![auto] (0xE0u8 | y) != 58u8) by (bit_vector);
    assert(forall|y: u8| #![auto] (0xF0u8 | y) != 58u8) by (bit_vector);
    if has_width_1_encoding(v) {
        assert(v != 58u32);
        assert((v & 0x7F) as u8 != 58u8) by (bit_vector)
            requires
                v <= 0x7F,
                v != 58u32,
        ;
    }
}

/// The UTF-8 encoding of a text without colons holds no colon byte.
pub proof fn lemma_encode_no_colon(r: Seq<char>)
    requires
        !r.contains(':'),
    ensures
        forall|k: int| 0 <= k < encode_utf8(r).len() ==> #[trigger] encode_utf8(r)[k] != 58u8,
    decreases r.len(),
{
    if r.len() > 0 {
        assert(r[0] != ':');
        assert(!r.drop_first().contains(':')) by {
            if r.drop_first().contains(':') {
                let j = choose|j: int| 0 <= j < r.drop_first().len() && r.drop_first()[j] == ':';
                assert(r[j + 1] == ':');
            }
        }
        lemma_scalar_no_colon(r[0]);
        lemma_encode_no_colon(r.drop_first());
        let a = encode_scalar(r[0] as u32);
        let b = encode_utf8(r.drop_first());
        assert forall|k: int| 0 <= k < encode_utf8(r).len() implies #[trigger] encode_utf8(r)[k] != 58u8 by {
            if k < a.len() {
                assert(encode_utf8(r)[k] == a[k]);
            } else {
                assert(encode_utf8(r)[k] == b[k - a.len()]);
            }
        }
    }
}

/// Every message key of a recipient lies under that recipient's message
/// prefix, so a prefix scan finds it.
pub proof fn lemma_message_key_under_prefix(recipient: Seq<char>, arrival_seq: u64, message_id: u128, chunk_index: u32)
    ensures
        ({
            let p = encode_utf8(message_prefix_text(recipient));
            let k = encode_utf8(message_key_text(recipient, arrival_seq, message_id, chunk_index));
            &&& p.len() <= k.len()
            &&& k.subrange(0, p.len() as int) == p
        }),
{
    let pt = message_prefix_text(recipient);
    let rest = dec_digits(arrival_seq as nat, 20).push(':') + uuid_hyphenated(message_id).push(':') + dec_digits(
        chunk_index as nat,
        10,
    );
    assert(message_key_text(recipient, arrival_seq, message_id, chunk_index) =~= pt + rest);
    lemma_encode_utf8_concat(pt, rest);
    let p = encode_utf8(pt);
    assert((p + encode_utf8(rest)).subrange(0, p.len() as int) =~= p);
}

proof fn lemma_digits_ascii(n: nat, w: nat)
    ensures
        vstd::utf8::is_ascii_chars(dec_digits(n, w)),
        forall|i: int| 0 <= i < dec_digits(n, w).len() ==> (#[trigger] dec_digits(n, w)[i]) != ':',
{
    lemma_dec_digits_all_digits(n, w);
    let d = dec_digits(n, w);
    assert forall|i: int| 0 <= i < d.len() implies '\0' <= #[trigger] d[i] <= '\u{7f}' by {
        assert(crate::text::is_digit(d[i]));
    }
}

/// A message key reads back, through `key_seq_spec`, as the arrival
/// sequence number it was made with, when the recipient holds no colon.
pub proof fn lemma_message_key_seq(recipient: Seq<char>, arrival_seq: u64, message_id: u128, chunk_index: u32)
    requires
        !recipient.contains(':'),
    ensures
        key_seq_spec(encode_utf8(message_key_text(recipient, arrival_seq, message_id, chunk_index))) == Some(
            Some(arrival_seq),
        ),
{
    let d = dec_digits(arrival_seq as nat, 20);
    let w = uuid_hyphenated(message_id).push(':') + dec_digits(chunk_index as nat, 10);
    let colon = seq![':'];
    reveal_strlit("msg:");
    let a = "msg:"@;
    assert(a =~= seq!['m', 's', 'g', ':']);
    let text = message_key_text(recipient, arrival_seq, message_id, chunk_index);
    assert(text =~= a + (recipient + (colon + (d + (colon + w)))));
    lemma_encode_utf8_concat(a, recipient + (colon + (d + (colon + w))));
    lemma_encode_utf8_concat(recipient, colon + (d + (colon + w)));
    lemma_encode_utf8_concat(colon, d + (colon + w));
    lemma_encode_utf8_concat(d, colon + w);
    lemma_encode_utf8_concat(colon, w);
    let ea = encode_utf8(a);
    let er = encode_utf8(recipient);
    let ec = encode_utf8(colon);
    let ed = encode_utf8(d);
    let ew = encode_utf8(w);
    assert(vstd::utf8::is_ascii_chars(a));
    vstd::utf8::is_ascii_chars_encode_utf8(a);
    assert(vstd::utf8::is_ascii_chars(colon));
    vstd::utf8::is_ascii_chars_encode_utf8(colon);
    lemma_digits_ascii(arrival_seq as nat, 20);
    vstd::utf8::is_ascii_chars_encode_utf8(d);
    lemma_dec_digits_len(arrival_seq as nat, 20);
    assert(ea =~= seq![109u8, 115u8, 103u8, 58u8]);
    assert(ec =~= seq![58u8]);
    lemma_encode_no_colon(recipient);
    let bytes = ea + (er + (ec + (ed + (ec + ew))));
    assert(encode_utf8(text) == bytes);
    let n = er.len() as int;
    assert(first_colon_from(bytes, 0, 3));
    lemma_first_colon_unique(bytes, 0, 3);
    assert(bytes.subrange(0, 3) =~= seq![109u8, 115u8, 103u8]);
    assert forall|k: int| 4 <= k < 4 + n implies bytes[k] != 58u8 by {
        assert(bytes[k] == er[k - 4]);
    }
    assert(bytes[4 + n] == 58u8);
    assert(first_colon_from(bytes, 4, 4 + n));
    lemma_first_colon_unique(bytes, 4, 4 + n);
    assert forall|k: int| 5 + n <= k < 25 + n implies bytes[k] != 58u8 by {
        assert(bytes[k] == ed[k - 5 - n]);
        assert(d[k - 5 - n] as u8 == ed[k - 5 - n]);
        assert(crate::text::is_digit(d[k - 5 - n])) by {
            lemma_dec_digits_all_digits(arrival_seq as nat, 20);
        }
    }
    assert(bytes[25 + n] == 58u8);
    assert(first_colon_from(bytes, 5 + n, 25 + n));
    lemma_first_colon_unique(bytes, 5 + n, 25 + n);
    let seg = bytes.subrange(5 + n, 25 + n);
    assert(seg =~= ed);
    assert(bytes_as_chars(seg) =~= d) by {
        assert forall|i: int| 0 <= i < 20 implies bytes_as_chars(seg)[i] == d[i] by {
            assert(seg[i] == d[i] as u8);
            assert(crate::text::is_digit(d[i])) by {
                lemma_dec_digits_all_digits(arrival_seq as nat, 20);
            }
        }
    }
    crate::text::lemma_parse_twenty_digits(arrival_seq);
}

/// Two byte strings that agree before position `m` and differ there, the
/// first one lower, are in that byte order.
proof fn lemma_bytes_lt_at(a: Seq<u8>, b: Seq<u8>, m: int)
    requires
        0 <= m < a.len(),
        m < b.len(),
        forall|i: int| 0 <= i < m ==> a[i] == b[i],
        a[m] < b[m],
    ensures
        crate::text::bytes_lt(a, b),
    decreases m,
{
    if m > 0 {
        assert forall|i: int| 0 <= i < m - 1 implies a.drop_first()[i] == b.drop_first()[i] by {
            assert(a[i + 1] == b[i + 1]);
        }
        lemma_bytes_lt_at(a.drop_first(), b.drop_first(), m - 1);
    }
}

/// Zero-padded decimal digits of a smaller number come first: they agree up
/// to some place, where the smaller number's digit is lower.
proof fn lemma_dec_digits_order(n1: nat, n2: nat, w: nat)
    requires
        n1 < n2,
        n2 < crate::text::pow10(w),
    ensures
        exists|k: int|
            0 <= k < w && (forall|i: int| 0 <= i < k ==> dec_digits(n1, w)[i] == dec_digits(n2, w)[i])
                && (dec_digits(n1, w)[k] as u32) < (#[trigger] dec_digits(n2, w)[k] as u32),
    decreases w,
{
    let q1 = n1 / 10;
    let q2 = n2 / 10;
    let p = crate::text::pow10((w - 1) as nat);
    assert(w > 0);
    assert(crate::text::pow10(w) == 10 * p);
    assert(q1 <= q2) by (nonlinear_arith)
        requires
            n1 < n2,
            q1 == n1 / 10,
            q2 == n2 / 10,
    ;
    assert(q2 < p) by (nonlinear_arith)
        requires
            n2 < 10 * p,
            q2 == n2 / 10,
    ;
    lemma_dec_digits_len(q1, (w - 1) as nat);
    lemma_dec_digits_len(q2, (w - 1) as nat);
    let a = dec_digits(n1, w);
    let b = dec_digits(n2, w);
    let pa = dec_digits(q1, (w - 1) as nat);
    let pb = dec_digits(q2, (w - 1) as nat);
    if q1 < q2 {
        lemma_dec_digits_order(q1, q2, (w - 1) as nat);
        let k = choose|k: int|
            0 <= k < w - 1 && (forall|i: int| 0 <= i < k ==> pa[i] == pb[i]) && (pa[k] as u32) < (#[trigger] pb[k] as u32);
        assert(a[k] == pa[k] && b[k] == pb[k]);
        assert forall|i: int| 0 <= i < k implies a[i] == b[i] by {
            assert(a[i] == pa[i] && b[i] == pb[i]);
        }
    } else {
        assert(n1 % 10 < n2 % 10) by (nonlinear_arith)
            requires
                n1 < n2,
                n1 / 10 == n2 / 10,
        ;
        let k = w - 1;
        assert forall|i: int| 0 <= i < k implies a[i] == b[i] by {
            assert(a[i] == pa[i] && b[i] == pb[i]);
        }
        assert(a[k] == crate::text::digit_char(n1 % 10));
        assert(b[k] == crate::text::digit_char(n2 % 10));
        assert((a[k] as u32) < (b[k] as u32));
    }
}

/// One recipient's message keys sort in the order of their arrival
/// numbers, whatever their message ids and chunk indexes: a scan under the
/// recipient's prefix walks the queue in arrival order.
pub proof fn lemma_message_keys_in_arrival_order(
    recipient: Seq<char>,
    s1: u64,
    id1: u128,
    c1: u32,
    s2: u64,
    id2: u128,
    c2: u32,
)
    requires
        s1 < s2,
    ensures
        crate::text::bytes_lt(
            encode_utf8(message_key_text(recipient, s1, id1, c1)),
            encode_utf8(message_key_text(recipient, s2, id2, c2)),
        ),
{
    let pt = message_prefix_text(recipient);
    let d1 = dec_digits(s1 as nat, 20);
    let d2 = dec_digits(s2 as nat, 20);
    let r1 = seq![':'] + (uuid_hyphenated(id1).push(':') + dec_digits(c1 as nat, 10));
    let r2 = seq![':'] + (uuid_hyphenated(id2).push(':') + dec_digits(c2 as nat, 10));
    assert(message_key_text(recipient, s1, id1, c1) =~= pt + (d1 + r1));
    assert(message_key_text(recipient, s2, id2, c2) =~= pt + (d2 + r2));
    lemma_encode_utf8_concat(pt, d1 + r1);
    lemma_encode_utf8_concat(pt, d2 + r2);
    lemma_encode_utf8_concat(d1, r1);
    lemma_encode_utf8_concat(d2, r2);
    lemma_digits_ascii(s1 as nat, 20);
    lemma_digits_ascii(s2 as nat, 20);
    vstd::utf8::is_ascii_chars_encode_utf8(d1);
    vstd::utf8::is_ascii_chars_encode_utf8(d2);
    lemma_dec_digits_len(s1 as nat, 20);
    lemma_dec_digits_len(s2 as nat, 20);
    assert(crate::text::pow10(20) == 100000000000000000000nat) by {
        reveal_with_fuel(crate::text::pow10, 21);
    }
    lemma_dec_digits_order(s1 as nat, s2 as nat, 20);
    let k = choose|k: int|
        0 <= k < 20 && (forall|i: int| 0 <= i < k ==> d1[i] == d2[i]) && (d1[k] as u32) < (#[trigger] d2[k] as u32);
    let ep = encode_utf8(pt);
    let e1 = encode_utf8(d1);
    let e2 = encode_utf8(d2);
    let b1 = ep + (e1 + encode_utf8(r1));
    let b2 = ep + (e2 + encode_utf8(r2));
    let m = ep.len() + k;
    assert forall|i: int| 0 <= i < m implies b1[i] == b2[i] by {
        if i >= ep.len() {
            let j = i - ep.len();
            assert(b1[i] == e1[j]);
            assert(b2[i] == e2[j]);
            assert(d1[j] == d2[j]);
        }
    }
    assert(b1[m] == e1[k] && b2[m] == e2[k]);
    assert(d1[k] as u8 == e1[k] && d2[k] as u8 == e2[k]);
    assert((d1[k] as u32) < 128 && (d2[k] as u32) < 128);
    lemma_bytes_lt_at(b1, b2, m);
}

} // verus!
