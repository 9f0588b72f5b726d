use vstd::prelude::*;

verus! {

/// The characters that Rust's `char::is_whitespace` accepts: the Unicode
/// `White_Space` property.
pub open spec fn is_unicode_whitespace(c: char) -> bool {
    let u = c as u32;
    ||| (0x9 <= u && u <= 0xD)
    ||| u == 0x20
    ||| u == 0x85
    ||| u == 0xA0
    ||| u == 0x1680
    ||| (0x2000 <= u && u <= 0x200A)
    ||| u == 0x2028
    ||| u == 0x2029
    ||| u == 0x202F
    ||| u == 0x205F
    ||| u == 0x3000
}

/// A text is blank when trimming it leaves nothing: every character is
/// whitespace.
pub open spec fn is_blank_spec(s: Seq<char>) -> bool {
    forall|i: int| 0 <= i < s.len() ==> is_unicode_whitespace(#[trigger] s[i])
}

pub fn is_whitespace_char(c: char) -> (r: bool)
    ensures
        r == is_unicode_whitespace(c),
{
    let u = c as u32;
    (0x9 <= u && u <= 0xD) || u == 0x20 || u == 0x85 || u == 0xA0 || u == 0x1680
        || (0x2000 <= u && u <= 0x200A) || u == 0x2028 || u == 0x2029 || u == 0x202F
        || u == 0x205F || u == 0x3000
}

/// `s.trim().is_empty()`.
pub fn is_blank(s: &str) -> (r: bool)
    ensures
        r == is_blank_spec(s@),
{
    let mut all_ws = true;
    for c in it: s.chars()
        invariant
            all_ws == (forall|j: int| 0 <= j < it.index() ==> is_unicode_whitespace(#[trigger] s@[j])),
            it.seq() == s@,
    {
        if !is_whitespace_char(c) {
            all_ws = false;
        }
    }
    all_ws
}

} // verus!

verus! {

pub open spec fn is_digit(c: char) -> bool {
    '0' <= c && c <= '9'
}

pub open spec fn digit_value(c: char) -> nat {
    ((c as u32) - ('0' as u32)) as nat
}

pub open spec fn digit_char(d: nat) -> char {
    (('0' as u32) + d) as char
}

/// The last `width` decimal digits of `n`, most significant first, padded with
/// zeros: what `format!("{:0width$}", n)` writes when `n` has at most `width`
/// digits.
pub open spec fn dec_digits(n: nat, width: nat) -> Seq<char>
    decreases width,
{
    if width == 0 {
        Seq::empty()
    } else {
        dec_digits(n / 10, (width - 1) as nat).push(digit_char(n % 10))
    }
}

/// The number that a sequence of decimal digits denotes.
pub open spec fn dec_value(s: Seq<char>) -> nat
    decreases s.len(),
{
    if s.len() == 0 {
        0
    } else {
        dec_value(s.drop_last()) * 10 + digit_value(s.last())
    }
}

pub open spec fn all_digits(s: Seq<char>) -> bool {
    forall|i: int| 0 <= i < s.len() ==> is_digit(#[trigger] s[i])
}

/// What `str::parse::<u64>` gives: an optional leading `+`, then one or more
/// ASCII digits whose value fits in 64 bits.
pub open spec fn parse_u64_spec(s: Seq<char>) -> Option<u64> {
    let digits = if s.len() > 0 && s[0] == '+' {
        s.drop_first()
    } else {
        s
    };
    if digits.len() == 0 || !all_digits(digits) || dec_value(digits) > u64::MAX {
        None
    } else {
        Some(dec_value(digits) as u64)
    }
}

pub open spec fn pow10(k: nat) -> nat
    decreases k,
{
    if k == 0 {
        1
    } else {
        10 * pow10((k - 1) as nat)
    }
}

/// Appends the zero-padded decimal digits of `n` in `width` places.
pub fn push_dec_digits(s: &mut String, n: u64, width: usize)
    ensures
        final(s)@ == old(s)@ + dec_digits(n as nat, width as nat),
    decreases width,
{
    if width > 0 {
        push_dec_digits(s, n / 10, width - 1);
        let d = (n % 10) as u8;
        let c = (48u8 + d) as char;
        crate::codec::push_char(s, c);
        proof {
            assert(old(s)@ + dec_digits(n as nat, width as nat) =~= old(s)@ + dec_digits(
                (n / 10) as nat,
                (width - 1) as nat,
            ) + seq![digit_char((n % 10) as nat)]);
        }
    }
}

pub proof fn lemma_dec_digits_len(n: nat, width: nat)
    ensures
        dec_digits(n, width).len() == width,
    decreases width,
{
    if width > 0 {
        lemma_dec_digits_len(n / 10, (width - 1) as nat);
    }
}

pub proof fn lemma_dec_digits_all_digits(n: nat, width: nat)
    ensures
        all_digits(dec_digits(n, width)),
    decreases width,
{
    if width > 0 {
        lemma_dec_digits_all_digits(n / 10, (width - 1) as nat);
        let s = dec_digits(n, width);
        assert forall|i: int| 0 <= i < s.len() implies is_digit(#[trigger] s[i]) by {
            if i < s.len() - 1 {
                assert(s[i] == dec_digits(n / 10, (width - 1) as nat)[i]);
            }
        }
    }
}

pub proof fn lemma_dec_value_of_digits(n: nat, width: nat)
    ensures
        dec_value(dec_digits(n, width)) == n % pow10(width),
    decreases width,
{
    if width > 0 {
        let w1 = (width - 1) as nat;
        lemma_dec_value_of_digits(n / 10, w1);
        let s = dec_digits(n, width);
        assert(s.drop_last() =~= dec_digits(n / 10, w1));
        assert(digit_value(digit_char(n % 10)) == n % 10);
        let p = pow10(w1);
        assert(p > 0) by {
            lemma_pow10_positive(w1);
        }
        assert(((n / 10) % p) * 10 + n % 10 == n % (10 * p)) by {
            lemma_mod_shift(n, p);
        }
    }
}

pub proof fn lemma_pow10_positive(k: nat)
    ensures
        pow10(k) > 0,
    decreases k,
{
    if k > 0 {
        lemma_pow10_positive((k - 1) as nat);
    }
}

proof fn lemma_mod_shift(n: nat, p: nat)
    requires
        p > 0,
    ensures
        ((n / 10) % p) * 10 + n % 10 == n % (10 * p),
{
    let q = n / 10;
    let r = n % 10;
    assert(n == q * 10 + r) by (nonlinear_arith)
        requires
            q == n / 10,
            r == n % 10,
    ;
    let a = q / p;
    let b = q % p;
    assert(q == a * p + b) by (nonlinear_arith)
        requires
            p > 0,
            a == q / p,
            b == q % p,
    ;
    assert(n == a * (10 * p) + (b * 10 + r)) by (nonlinear_arith)
        requires
            n == q * 10 + r,
            q == a * p + b,
    ;
    assert(0 <= b * 10 + r < 10 * p) by (nonlinear_arith)
        requires
            0 <= b < p,
            0 <= r < 10,
    ;
    vstd::arithmetic::div_mod::lemma_fundamental_div_mod_converse(
        n as int,
        (10 * p) as int,
        a as int,
        (b * 10 + r) as int,
    );
}

/// A 64-bit number written as twenty zero-padded digits reads back as itself.
pub proof fn lemma_parse_twenty_digits(n: u64)
    ensures
        parse_u64_spec(dec_digits(n as nat, 20)) == Some(n),
{
    let s = dec_digits(n as nat, 20);
    lemma_dec_digits_len(n as nat, 20);
    lemma_dec_digits_all_digits(n as nat, 20);
    lemma_dec_value_of_digits(n as nat, 20);
    assert(pow10(20) == 100000000000000000000nat) by {
        reveal_with_fuel(pow10, 21);
    }
    assert(is_digit(s[0]));
    assert(s[0] != '+');
    assert((n as nat) % 100000000000000000000nat == n as nat);
}

/// `s.parse::<u64>()`.
pub fn parse_u64(s: &str) -> (r: Option<u64>)
    ensures
        r == parse_u64_spec(s@),
{
    let len = s.unicode_len();
    let mut start: usize = 0;
    if len > 0 && s.get_char(0) == '+' {
        start = 1;
    }
    let ghost digits = if s@.len() > 0 && s@[0] == '+' {
        s@.drop_first()
    } else {
        s@
    };
    if start == len {
        return None;
    }
    let mut acc: u64 = 0;
    let mut overflow = false;
    let mut i = start;
    while i < len
        invariant
            start <= i <= len,
            len == s@.len(),
            start == 0 || start == 1,
            start == 1 <==> (s@.len() > 0 && s@[0] == '+'),
            digits == s@.subrange(start as int, len as int),
            all_digits(s@.subrange(start as int, i as int)),
            !overflow ==> acc == dec_value(s@.subrange(start as int, i as int)),
            overflow ==> dec_value(s@.subrange(start as int, i as int)) > u64::MAX,
        decreases len - i,
    {
        let c = s.get_char(i);
        if !('0' <= c && c <= '9') {
            proof {
                assert(digits[i - start] == c);
            }
            return None;
        }
        let d = (c as u32 - '0' as u32) as u64;
        let ghost pre = s@.subrange(start as int, i as int);
        let ghost post = s@.subrange(start as int, i + 1);
        assert(post.drop_last() =~= pre);
        assert(post.last() == c);
        assert(all_digits(post));
        if !overflow {
            match acc.checked_mul(10) {
                Some(m) => match m.checked_add(d) {
                    Some(v) => {
                        acc = v;
                    },
                    None => {
                        overflow = true;
                    },
                },
                None => {
                    overflow = true;
                },
            }
        } else {
            assert(dec_value(post) >= dec_value(pre)) by (nonlinear_arith)
                requires
                    dec_value(post) == dec_value(pre) * 10 + digit_value(c),
            ;
        }
        i = i + 1;
    }
    assert(s@.subrange(start as int, len as int) == digits);
    if overflow {
        None
    } else {
        Some(acc)
    }
}

} // verus!

verus! {

/// Lexicographic order of byte strings, the order of `[u8]` and of `str`.
pub open spec fn bytes_lt(a: Seq<u8>, b: Seq<u8>) -> bool
    decreases a.len(),
{
    if a.len() == 0 {
        b.len() > 0
    } else if b.len() == 0 {
        false
    } else if a[0] < b[0] {
        true
    } else if a[0] > b[0] {
        false
    } else {
        bytes_lt(a.drop_first(), b.drop_first())
    }
}

pub proof fn lemma_bytes_lt_asym(a: Seq<u8>, b: Seq<u8>)
    requires
        bytes_lt(a, b),
    ensures
        !bytes_lt(b, a),
        a != b,
    decreases a.len(),
{
    if a.len() > 0 && b.len() > 0 && a[0] == b[0] {
        lemma_bytes_lt_asym(a.drop_first(), b.drop_first());
    }
}

pub proof fn lemma_bytes_lt_total(a: Seq<u8>, b: Seq<u8>)
    requires
        a != b,
    ensures
        bytes_lt(a, b) || bytes_lt(b, a),
    decreases a.len(),
{
    if a.len() > 0 && b.len() > 0 && a[0] == b[0] {
        if a.drop_first() == b.drop_first() {
            assert(a =~= seq![a[0]] + a.drop_first());
            assert(b =~= seq![b[0]] + b.drop_first());
        }
        lemma_bytes_lt_total(a.drop_first(), b.drop_first());
    } else if a.len() == 0 && b.len() == 0 {
        assert(a =~= b);
    }
}

pub proof fn lemma_bytes_lt_trans(a: Seq<u8>, b: Seq<u8>, c: Seq<u8>)
    requires
        bytes_lt(a, b),
        bytes_lt(b, c),
    ensures
        bytes_lt(a, c),
    decreases a.len(),
{
    if a.len() > 0 && b.len() > 0 && c.len() > 0 && a[0] == b[0] && b[0] == c[0] {
        lemma_bytes_lt_trans(a.drop_first(), b.drop_first(), c.drop_first());
    }
}

/// Where one byte string stands against another.
pub enum ByteOrder {
    Before,
    Same,
    After,
}

/// Compares two byte strings lexicographically.
pub fn compare_bytes(a: &[u8], b: &[u8]) -> (r: ByteOrder)
    ensures
        r is Before <==> bytes_lt(a@, b@),
        r is Same <==> a@ == b@,
        r is After <==> bytes_lt(b@, a@),
{
    let mut i: usize = 0;
    assert(a@.skip(0) =~= a@);
    assert(b@.skip(0) =~= b@);
    while i < a.len() && i < b.len() && a[i] == b[i]
        invariant
            i <= a@.len(),
            i <= b@.len(),
            a@.take(i as int) == b@.take(i as int),
            bytes_lt(a@, b@) == bytes_lt(a@.skip(i as int), b@.skip(i as int)),
            bytes_lt(b@, a@) == bytes_lt(b@.skip(i as int), a@.skip(i as int)),
        decreases a@.len() - i,
    {
        assert(a@.skip(i as int).drop_first() =~= a@.skip(i + 1));
        assert(b@.skip(i as int).drop_first() =~= b@.skip(i + 1));
        assert(a@.take(i + 1) =~= a@.take(i as int).push(a@[i as int]));
        assert(b@.take(i + 1) =~= b@.take(i as int).push(b@[i as int]));
        i = i + 1;
    }
    if i == a.len() && i == b.len() {
        assert(a@ =~= a@.take(i as int));
        assert(b@ =~= b@.take(i as int));
        ByteOrder::Same
    } else if i == a.len() {
        assert(a@.skip(i as int).len() == 0);
        proof {
            if a@ == b@ {
            }
        }
        ByteOrder::Before
    } else if i == b.len() {
        assert(b@.skip(i as int).len() == 0);
        ByteOrder::After
    } else if a[i] < b[i] {
        assert(a@.skip(i as int)[0] == a@[i as int]);
        assert(b@.skip(i as int)[0] == b@[i as int]);
        ByteOrder::Before
    } else {
        assert(a@.skip(i as int)[0] == a@[i as int]);
        assert(b@.skip(i as int)[0] == b@[i as int]);
        ByteOrder::After
    }
}

} // verus!

verus! {

/// The bytes `s[from..to]` as a vector.
pub fn byte_range(s: &[u8], from: usize, to: usize) -> (r: Vec<u8>)
    requires
        from <= to <= s@.len(),
    ensures
        r@ == s@.subrange(from as int, to as int),
{
    let mut r: Vec<u8> = Vec::new();
    let mut i = from;
    while i < to
        invariant
            from <= i <= to,
            to <= s@.len(),
            r@ == s@.subrange(from as int, i as int),
        decreases to - i,
    {
        r.push(s[i]);
        assert(r@ =~= s@.subrange(from as int, i + 1));
        i = i + 1;
    }
    r
}

} // verus!

verus! {

/// Whether two texts are the same.
pub fn same_text(a: &str, b: &str) -> (r: bool)
    ensures
        r == (a@ == b@),
{
    match compare_bytes(a.as_bytes(), b.as_bytes()) {
        ByteOrder::Same => {
            proof {
                vstd::utf8::encode_utf8_decode_utf8(a@);
                vstd::utf8::encode_utf8_decode_utf8(b@);
            }
            true
        },
        _ => false,
    }
}

} // verus!
