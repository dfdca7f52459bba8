//! JSON codec for the wire protocol.
//!
//! The wire format is JSON text, held here as UTF-8 bytes.  The encoder emits
//! one canonical compact form; the decoder accepts exactly the grammar given
//! by the `spec_decode_*` functions below: the canonical form plus the usual
//! string escapes, insignificant whitespace between tokens, and the object
//! members in any order.  Any frame outside that grammar is reported as a
//! decode failure, which the session layer routes to the plaintext fallback
//! path.

use vstd::prelude::*;
use crate::envelope::{MsgKind, Envelope, EnvelopeView, ChatMessage, ChatMessageView};

verus! {

// ---------------------------------------------------------------------------
// Byte constants
// ---------------------------------------------------------------------------

pub const QUOTE: u8 = 34;
pub const BSLASH: u8 = 92;
pub const SLASH: u8 = 47;
pub const LBRACE: u8 = 123;
pub const RBRACE: u8 = 125;
pub const LBRACK: u8 = 91;
pub const RBRACK: u8 = 93;
pub const COMMA: u8 = 44;
pub const DIGIT0: u8 = 48;
pub const LOWER_U: u8 = 117;

// ---------------------------------------------------------------------------
// String escaping
// ---------------------------------------------------------------------------

/// Lowercase hex digit for a value below 16.
pub open spec fn hex_digit(n: u8) -> u8 {
    if n < 10 {
        (48 + n) as u8
    } else {
        (87 + n) as u8
    }
}

pub open spec fn is_hex(b: u8) -> bool {
    (48 <= b && b <= 57) || (97 <= b && b <= 102) || (65 <= b && b <= 70)
}

pub open spec fn hex_val(b: u8) -> u8 {
    if 48 <= b && b <= 57 {
        (b - 48) as u8
    } else if 97 <= b && b <= 102 {
        (b - 87) as u8
    } else if 65 <= b && b <= 70 {
        (b - 55) as u8
    } else {
        0u8
    }
}

/// How one byte is written inside a JSON string: quote and backslash get a
/// backslash escape, control bytes a `\u00xx` escape, everything else stands
/// as itself.
pub open spec fn esc_byte(b: u8) -> Seq<u8> {
    if b == QUOTE {
        seq![BSLASH, QUOTE]
    } else if b == BSLASH {
        seq![BSLASH, BSLASH]
    } else if b < 32 {
        seq![BSLASH, LOWER_U, DIGIT0, DIGIT0, hex_digit(b / 16), hex_digit(b % 16)]
    } else {
        seq![b]
    }
}

/// The escaped form of a whole string body.
pub open spec fn esc(s: Seq<u8>) -> Seq<u8>
    decreases s.len(),
{
    if s.len() == 0 {
        Seq::empty()
    } else {
        esc_byte(s[0]) + esc(s.skip(1))
    }
}

pub proof fn lemma_esc_singleton(b: u8)
    ensures
        esc(seq![b]) == esc_byte(b),
{
    assert(seq![b].skip(1) =~= Seq::<u8>::empty());
    assert(esc(Seq::<u8>::empty()) == Seq::<u8>::empty());
    assert(seq![b][0] == b);
    assert(esc(seq![b]) == esc_byte(b) + esc(Seq::<u8>::empty()));
    assert(esc_byte(b) + Seq::<u8>::empty() =~= esc_byte(b));
}

pub proof fn lemma_esc_concat(a: Seq<u8>, b: Seq<u8>)
    ensures
        esc(a + b) == esc(a) + esc(b),
    decreases a.len(),
{
    if a.len() == 0 {
        assert(a + b =~= b);
        assert(esc(a) + esc(b) =~= esc(b));
    } else {
        assert((a + b).skip(1) =~= a.skip(1) + b);
        assert((a + b)[0] == a[0]);
        assert((a + b).len() > 0);
        lemma_esc_concat(a.skip(1), b);
        assert(esc_byte(a[0]) + (esc(a.skip(1)) + esc(b)) =~= (esc_byte(a[0]) + esc(a.skip(1)))
            + esc(b));
    }
}

fn hex_digit_exec(n: u8) -> (r: u8)
    requires
        n < 16,
    ensures
        r == hex_digit(n),
{
    if n < 10 {
        48 + n
    } else {
        87 + n
    }
}

/// Appends the escaped form of `s` to `out`.
pub fn push_escaped(out: &mut Vec<u8>, s: &Vec<u8>)
    ensures
        final(out)@ == old(out)@ + esc(s@),
{
    let mut i: usize = 0;
    while i < s.len()
        invariant
            i <= s@.len(),
            out@ == old(out)@ + esc(s@.take(i as int)),
        decreases s@.len() - i,
    {
        let b = s[i];
        proof {
            assert(s@.take(i + 1) =~= s@.take(i as int) + seq![s@[i as int]]);
            lemma_esc_concat(s@.take(i as int), seq![s@[i as int]]);
            lemma_esc_singleton(b);
        }
        if b == QUOTE {
            out.push(BSLASH);
            out.push(QUOTE);
        } else if b == BSLASH {
            out.push(BSLASH);
            out.push(BSLASH);
        } else if b < 32 {
            out.push(BSLASH);
            out.push(LOWER_U);
            out.push(DIGIT0);
            out.push(DIGIT0);
            out.push(hex_digit_exec(b / 16));
            out.push(hex_digit_exec(b % 16));
        } else {
            out.push(b);
        }
        proof {
            assert(out@ =~= old(out)@ + esc(s@.take(i + 1)));
        }
        i += 1;
    }
    proof {
        assert(s@.take(s@.len() as int) =~= s@);
    }
}

// ---------------------------------------------------------------------------
// String parsing
// ---------------------------------------------------------------------------

/// The byte written by a single-letter escape code, if that code is valid.
pub open spec fn unescape_code(e: u8) -> Option<u8> {
    if e == QUOTE {
        Some(QUOTE)
    } else if e == BSLASH {
        Some(BSLASH)
    } else if e == SLASH {
        Some(SLASH)
    } else if e == 110 {  // n
        Some(10u8)
    } else if e == 114 {  // r
        Some(13u8)
    } else if e == 116 {  // t
        Some(9u8)
    } else if e == 98 {  // b
        Some(8u8)
    } else if e == 102 {  // f
        Some(12u8)
    } else {
        None
    }
}

/// Parses a JSON string body: `s` starts just after the opening quote, and on
/// success the result is the decoded bytes together with what follows the
/// closing quote.  `\u` escapes are accepted for code points below 128 only
/// (the encoder never emits larger ones); a larger one makes the frame
/// undecodable, which the session layer treats as plaintext.
pub open spec fn parse_string_body(s: Seq<u8>) -> Option<(Seq<u8>, Seq<u8>)>
    decreases s.len(),
{
    if s.len() == 0 {
        None
    } else if s[0] == QUOTE {
        Some((Seq::empty(), s.skip(1)))
    } else if s[0] == BSLASH {
        if s.len() < 2 {
            None
        } else if s[1] == LOWER_U {
            if s.len() < 6 {
                None
            } else if s[2] == DIGIT0 && s[3] == DIGIT0 && is_hex(s[4]) && is_hex(s[5]) && hex_val(
                s[4],
            ) < 8 {
                match parse_string_body(s.skip(6)) {
                    Some(p) => Some(
                        (seq![(hex_val(s[4]) * 16 + hex_val(s[5])) as u8] + p.0, p.1),
                    ),
                    None => None,
                }
            } else {
                None
            }
        } else {
            match unescape_code(s[1]) {
                Some(b) => match parse_string_body(s.skip(2)) {
                    Some(p) => Some((seq![b] + p.0, p.1)),
                    None => None,
                },
                None => None,
            }
        }
    } else if s[0] < 32 {
        None
    } else {
        match parse_string_body(s.skip(1)) {
            Some(p) => Some((seq![s[0]] + p.0, p.1)),
            None => None,
        }
    }
}

fn is_hex_exec(b: u8) -> (r: bool)
    ensures
        r == is_hex(b),
{
    (48 <= b && b <= 57) || (97 <= b && b <= 102) || (65 <= b && b <= 70)
}

fn hex_val_exec(b: u8) -> (r: u8)
    ensures
        r == hex_val(b),
{
    if 48 <= b && b <= 57 {
        b - 48
    } else if 97 <= b && b <= 102 {
        b - 87
    } else if 65 <= b && b <= 70 {
        b - 55
    } else {
        0u8
    }
}

fn unescape_code_exec(e: u8) -> (r: Option<u8>)
    ensures
        r == unescape_code(e),
{
    if e == QUOTE {
        Some(QUOTE)
    } else if e == BSLASH {
        Some(BSLASH)
    } else if e == SLASH {
        Some(SLASH)
    } else if e == 110 {
        Some(10u8)
    } else if e == 114 {
        Some(13u8)
    } else if e == 116 {
        Some(9u8)
    } else if e == 98 {
        Some(8u8)
    } else if e == 102 {
        Some(12u8)
    } else {
        None
    }
}

/// Executable mirror of [`parse_string_body`] over `v` from index `i`,
/// appending the decoded bytes to `out` and returning the index just past the
/// closing quote.
pub fn parse_string_body_exec(v: &Vec<u8>, i: usize, out: &mut Vec<u8>) -> (r: Option<usize>)
    requires
        i <= v@.len(),
    ensures
        ({
            let p = parse_string_body(v@.skip(i as int));
            match r {
                Some(j) => p is Some && i <= j <= v@.len() && final(out)@ == old(out)@ + (p->0).0
                    && v@.skip(j as int) == (p->0).1,
                None => p is None,
            }
        }),
    decreases v@.len() - i,
{
    let ghost s = v@.skip(i as int);
    if i == v.len() {
        proof {
            assert(s =~= Seq::<u8>::empty());
        }
        return None;
    }
    let b = v[i];
    proof {
        assert(s[0] == v@[i as int]);
        assert(s.len() == v@.len() - i);
    }
    if b == QUOTE {
        proof {
            assert(s.skip(1) =~= v@.skip(i + 1));
            assert(old(out)@ + Seq::<u8>::empty() =~= old(out)@);
        }
        return Some(i + 1);
    }
    if b == BSLASH {
        if v.len() - i < 2 {
            return None;
        }
        let e = v[i + 1];
        proof {
            assert(s[1] == v@[i + 1]);
        }
        if e == LOWER_U {
            if v.len() - i < 6 {
                return None;
            }
            proof {
                assert(s[2] == v@[i + 2]);
                assert(s[3] == v@[i + 3]);
                assert(s[4] == v@[i + 4]);
                assert(s[5] == v@[i + 5]);
            }
            let h1 = v[i + 2];
            let h2 = v[i + 3];
            let h3 = v[i + 4];
            let h4 = v[i + 5];
            if !(h1 == DIGIT0 && h2 == DIGIT0 && is_hex_exec(h3) && is_hex_exec(h4)
                && hex_val_exec(h3) < 8) {
                return None;
            }
            let c = hex_val_exec(h3) * 16 + hex_val_exec(h4);
            out.push(c);
            proof {
                assert(s.skip(6) =~= v@.skip(i + 6));
            }
            let r = parse_string_body_exec(v, i + 6, out);
            match r {
                Some(j) => {
                    proof {
                        let p6 = parse_string_body(v@.skip(i + 6));
                        assert(out@ =~= old(out)@ + (seq![c] + (p6->0).0));
                    }
                    return Some(j);
                },
                None => {
                    return None;
                },
            }
        }
        let code = unescape_code_exec(e);
        match code {
            Some(c) => {
                out.push(c);
                proof {
                    assert(s.skip(2) =~= v@.skip(i + 2));
                }
                let r = parse_string_body_exec(v, i + 2, out);
                match r {
                    Some(j) => {
                        proof {
                            let p2 = parse_string_body(v@.skip(i + 2));
                            assert(out@ =~= old(out)@ + (seq![c] + (p2->0).0));
                        }
                        return Some(j);
                    },
                    None => {
                        return None;
                    },
                }
            },
            None => {
                return None;
            },
        }
    }
    if b < 32 {
        return None;
    }
    out.push(b);
    proof {
        assert(s.skip(1) =~= v@.skip(i + 1));
    }
    let r = parse_string_body_exec(v, i + 1, out);
    match r {
        Some(j) => {
            proof {
                let p1 = parse_string_body(v@.skip(i + 1));
                assert(out@ =~= old(out)@ + (seq![b] + (p1->0).0));
            }
            Some(j)
        },
        None => None,
    }
}

/// A string body round-trips: parsing the escaped form followed by the
/// closing quote and any tail yields the original bytes and that tail.
pub proof fn lemma_string_round_trip(s: Seq<u8>, rest: Seq<u8>)
    ensures
        parse_string_body(esc(s) + seq![QUOTE] + rest) == Some((s, rest)),
    decreases s.len(),
{
    let input = esc(s) + seq![QUOTE] + rest;
    if s.len() == 0 {
        assert(input =~= seq![QUOTE] + rest);
        assert(input[0] == QUOTE);
        assert(input.skip(1) =~= rest);
    } else {
        let b = s[0];
        let t = s.skip(1);
        let tail = esc(t) + seq![QUOTE] + rest;
        assert(esc(s) == esc_byte(b) + esc(t));
        assert(input =~= esc_byte(b) + tail);
        lemma_string_round_trip(t, rest);
        if b == QUOTE {
            assert(input[0] == BSLASH);
            assert(input[1] == QUOTE);
            assert(input.len() >= 2);
            assert(input.skip(2) =~= tail);
            assert(seq![b] + t =~= s);
        } else if b == BSLASH {
            assert(input[0] == BSLASH);
            assert(input[1] == BSLASH);
            assert(input.skip(2) =~= tail);
            assert(seq![b] + t =~= s);
        } else if b < 32 {
            assert(input[0] == BSLASH);
            assert(input[1] == LOWER_U);
            assert(input[2] == DIGIT0);
            assert(input[3] == DIGIT0);
            assert(input[4] == hex_digit(b / 16));
            assert(input[5] == hex_digit(b % 16));
            assert(b / 16 < 2);
            lemma_hex_digit_val(b / 16);
            lemma_hex_digit_val(b % 16);
            assert(hex_val(input[4]) < 8);
            assert((hex_val(input[4]) * 16 + hex_val(input[5])) as u8 == b) by {
                assert(hex_val(input[4]) == b / 16);
                assert(hex_val(input[5]) == b % 16);
            }
            assert(input.skip(6) =~= tail);
            assert(seq![b] + t =~= s);
        } else {
            assert(input[0] == b);
            assert(input[0] != QUOTE && input[0] != BSLASH && !(input[0] < 32));
            assert(input.skip(1) =~= tail);
            assert(seq![b] + t =~= s);
        }
    }
}

/// `hex_digit` and `hex_val` invert each other below 16.
pub proof fn lemma_hex_digit_val(n: u8)
    requires
        n < 16,
    ensures
        is_hex(hex_digit(n)),
        hex_val(hex_digit(n)) == n,
{
}

// ---------------------------------------------------------------------------
// Decimal numbers
// ---------------------------------------------------------------------------

pub open spec fn is_digit(b: u8) -> bool {
    48 <= b && b <= 57
}

/// Decimal digits of `n`, most significant first, no leading zeros.
pub open spec fn dec_str(n: nat) -> Seq<u8>
    decreases n,
{
    if n < 10 {
        seq![(48 + n) as u8]
    } else {
        dec_str(n / 10) + seq![(48 + (n % 10)) as u8]
    }
}

/// Value of a run of decimal digits.
pub open spec fn dec_val(ds: Seq<u8>) -> int
    decreases ds.len(),
{
    if ds.len() == 0 {
        0
    } else {
        dec_val(ds.take(ds.len() - 1)) * 10 + (ds[ds.len() - 1] - 48)
    }
}

/// Splits `s` into its longest digit prefix and the remainder.
pub open spec fn take_digits(s: Seq<u8>) -> (Seq<u8>, Seq<u8>)
    decreases s.len(),
{
    if s.len() == 0 || !is_digit(s[0]) {
        (Seq::empty(), s)
    } else {
        let p = take_digits(s.skip(1));
        (seq![s[0]] + p.0, p.1)
    }
}

pub proof fn lemma_dec_str_digits(n: nat)
    ensures
        dec_str(n).len() >= 1,
        forall|i: int| 0 <= i < dec_str(n).len() ==> is_digit(#[trigger] dec_str(n)[i]),
    decreases n,
{
    if n >= 10 {
        lemma_dec_str_digits(n / 10);
        assert forall|i: int| 0 <= i < dec_str(n).len() implies is_digit(#[trigger] dec_str(n)[i]) by {
            if i < dec_str(n / 10).len() {
                assert(dec_str(n)[i] == dec_str(n / 10)[i]);
            } else {
                assert(dec_str(n)[i] == (48 + (n % 10)) as u8);
            }
        }
    }
}

pub proof fn lemma_dec_val_dec_str(n: nat)
    ensures
        dec_val(dec_str(n)) == n,
    decreases n,
{
    if n < 10 {
        let ds = dec_str(n);
        assert(ds.take(0) =~= Seq::<u8>::empty());
        assert(dec_val(Seq::<u8>::empty()) == 0);
        assert(ds[0] == (48 + n) as u8);
        assert(dec_val(ds) == dec_val(ds.take(0)) * 10 + (ds[0] - 48));
    } else {
        lemma_dec_val_dec_str(n / 10);
        let ds = dec_str(n);
        assert(ds.take(ds.len() - 1) =~= dec_str(n / 10));
        assert(ds[ds.len() - 1] == (48 + (n % 10)) as u8);
        vstd::arithmetic::div_mod::lemma_fundamental_div_mod(n as int, 10);
    }
}

pub proof fn lemma_take_digits_concat(ds: Seq<u8>, rest: Seq<u8>)
    requires
        forall|k: int| 0 <= k < ds.len() ==> is_digit(#[trigger] ds[k]),
        rest.len() == 0 || !is_digit(rest[0]),
    ensures
        take_digits(ds + rest) == (ds, rest),
    decreases ds.len(),
{
    if ds.len() == 0 {
        assert(ds + rest =~= rest);
        if rest.len() != 0 {
            assert(!is_digit((ds + rest)[0]));
        }
        assert(take_digits(ds + rest) == (Seq::<u8>::empty(), rest));
        assert(Seq::<u8>::empty() =~= ds);
    } else {
        assert((ds + rest)[0] == ds[0]);
        assert((ds + rest).skip(1) =~= ds.skip(1) + rest);
        assert(forall|k: int| 0 <= k < ds.skip(1).len() ==> is_digit(#[trigger] ds.skip(1)[k]));
        lemma_take_digits_concat(ds.skip(1), rest);
        assert(seq![ds[0]] + ds.skip(1) =~= ds);
    }
}

pub proof fn lemma_dec_val_nonneg(ds: Seq<u8>)
    requires
        forall|k: int| 0 <= k < ds.len() ==> is_digit(#[trigger] ds[k]),
    ensures
        dec_val(ds) >= 0,
    decreases ds.len(),
{
    if ds.len() > 0 {
        let head = ds.take(ds.len() - 1);
        assert(forall|k: int| 0 <= k < head.len() ==> is_digit(#[trigger] head[k]));
        lemma_dec_val_nonneg(head);
    }
}

/// A digit run's value only grows as more digits are appended.
pub proof fn lemma_dec_val_mono(ds: Seq<u8>, k: int)
    requires
        0 <= k <= ds.len(),
        forall|m: int| 0 <= m < ds.len() ==> is_digit(#[trigger] ds[m]),
    ensures
        dec_val(ds.take(k)) <= dec_val(ds),
    decreases ds.len() - k,
{
    if k == ds.len() {
        assert(ds.take(k) =~= ds);
    } else {
        let head = ds.take(ds.len() - 1);
        assert(forall|m: int| 0 <= m < head.len() ==> is_digit(#[trigger] head[m]));
        lemma_dec_val_nonneg(head);
        assert(head.take(k) =~= ds.take(k));
        lemma_dec_val_mono(head, k);
        assert(dec_val(ds) == dec_val(head) * 10 + (ds[ds.len() - 1] - 48));
        assert(dec_val(head) * 10 >= dec_val(head));
    }
}

/// Decimal digits of `n`, as bytes.
pub fn u64_to_dec(n: u64) -> (r: Vec<u8>)
    ensures
        r@ == dec_str(n as nat),
    decreases n,
{
    if n < 10 {
        let mut v: Vec<u8> = Vec::new();
        v.push(48 + n as u8);
        proof {
            assert(v@ =~= dec_str(n as nat));
        }
        v
    } else {
        let mut v = u64_to_dec(n / 10);
        v.push(48 + (n % 10) as u8);
        proof {
            assert((n / 10) as nat == (n as nat) / 10);
            assert((n % 10) as nat == (n as nat) % 10);
            assert(v@ =~= dec_str(n as nat));
        }
        v
    }
}

/// Reads the digit run at `i` as a `u64`; `None` if there is no digit or the
/// value exceeds `u64::MAX`.
pub fn parse_u64_exec(v: &Vec<u8>, i: usize) -> (r: Option<(u64, usize)>)
    requires
        i <= v@.len(),
    ensures
        ({
            let p = take_digits(v@.skip(i as int));
            match r {
                Some(nj) => p.0.len() >= 1 && dec_val(p.0) == nj.0 && i <= nj.1 <= v@.len()
                    && v@.skip(nj.1 as int) == p.1,
                None => p.0.len() == 0 || dec_val(p.0) > u64::MAX,
            }
        }),
{
    let ghost s = v@.skip(i as int);
    let mut j: usize = i;
    let mut acc: u64 = 0;
    let mut over: bool = false;
    let ghost mut jo: int = i as int;
    loop
        invariant
            i <= j <= v@.len(),
            forall|m: int| i <= m < j ==> is_digit(#[trigger] v@[m]),
            take_digits(v@.skip(i as int)) == (
                v@.subrange(i as int, j as int) + take_digits(v@.skip(j as int)).0,
                take_digits(v@.skip(j as int)).1,
            ),
            !over ==> acc == dec_val(v@.subrange(i as int, j as int)),
            over ==> i <= jo <= j && dec_val(v@.subrange(i as int, jo)) > u64::MAX,
        ensures
            i <= j <= v@.len(),
            forall|m: int| i <= m < j ==> is_digit(#[trigger] v@[m]),
            take_digits(v@.skip(i as int)) == (
                v@.subrange(i as int, j as int) + take_digits(v@.skip(j as int)).0,
                take_digits(v@.skip(j as int)).1,
            ),
            !over ==> acc == dec_val(v@.subrange(i as int, j as int)),
            over ==> i <= jo <= j && dec_val(v@.subrange(i as int, jo)) > u64::MAX,
            j == v@.len() || !is_digit(v@[j as int]),
        decreases v@.len() - j,
    {
        if j == v.len() {
            break;
        }
        let b = v[j];
        if !(48 <= b && b <= 57) {
            break;
        }
        proof {
            let sj = v@.skip(j as int);
            assert(sj[0] == v@[j as int]);
            assert(sj.skip(1) =~= v@.skip(j + 1));
            assert(take_digits(sj) == (
                seq![v@[j as int]] + take_digits(v@.skip(j + 1)).0,
                take_digits(v@.skip(j + 1)).1,
            ));
            assert(v@.subrange(i as int, j as int) + (seq![v@[j as int]] + take_digits(
                v@.skip(j + 1),
            ).0) =~= v@.subrange(i as int, j + 1) + take_digits(v@.skip(j + 1)).0);
            let pre = v@.subrange(i as int, j + 1);
            assert(pre.take(pre.len() - 1) =~= v@.subrange(i as int, j as int));
            assert(pre[pre.len() - 1] == v@[j as int]);
        }
        let d = b - 48;
        if !over {
            if acc > (u64::MAX - d as u64) / 10 {
                over = true;
                proof {
                    jo = j + 1;
                    vstd::arithmetic::div_mod::lemma_fundamental_div_mod(
                        (u64::MAX - d) as int,
                        10,
                    );
                    assert(acc * 10 + d > u64::MAX);
                    assert(dec_val(v@.subrange(i as int, j + 1)) == acc * 10 + d);
                }
            } else {
                proof {
                    vstd::arithmetic::div_mod::lemma_fundamental_div_mod(
                        (u64::MAX - d) as int,
                        10,
                    );
                    assert(acc * 10 + d <= u64::MAX);
                }
                acc = acc * 10 + d as u64;
            }
        }
        j += 1;
    }
    proof {
        assert(take_digits(v@.skip(j as int)) == (Seq::<u8>::empty(), v@.skip(j as int)));
        assert(v@.subrange(i as int, j as int) + Seq::<u8>::empty() =~= v@.subrange(
            i as int,
            j as int,
        ));
    }
    if over {
        proof {
            lemma_dec_val_mono(v@.subrange(i as int, j as int), jo - i);
            assert(v@.subrange(i as int, j as int).take(jo - i) =~= v@.subrange(i as int, jo));
        }
        return None;
    }
    if j == i {
        return None;
    }
    Some((acc, j))
}

// ---------------------------------------------------------------------------
// Fixed literals and prefix matching
// ---------------------------------------------------------------------------

/// The remainder of `s` after the literal prefix `p`, if `p` is a prefix.
pub open spec fn after(p: Seq<u8>, s: Seq<u8>) -> Option<Seq<u8>> {
    if p.len() <= s.len() && s.take(p.len() as int) == p {
        Some(s.skip(p.len() as int))
    } else {
        None
    }
}

pub proof fn lemma_after_concat(p: Seq<u8>, rest: Seq<u8>)
    ensures
        after(p, p + rest) == Some(rest),
{
    assert((p + rest).take(p.len() as int) =~= p);
    assert((p + rest).skip(p.len() as int) =~= rest);
}

/// Consumes the literal `lit` at index `i` of `v`, if present.
pub fn eat(v: &Vec<u8>, i: usize, lit: &Vec<u8>) -> (r: Option<usize>)
    requires
        i <= v@.len(),
    ensures
        match r {
            Some(j) => after(lit@, v@.skip(i as int)) == Some(v@.skip(j as int)) && i <= j
                <= v@.len() && j - i == lit@.len(),
            None => after(lit@, v@.skip(i as int)) is None,
        },
{
    let ghost s = v@.skip(i as int);
    if v.len() - i < lit.len() {
        return None;
    }
    let mut k: usize = 0;
    while k < lit.len()
        invariant
            0 <= k <= lit@.len(),
            i + lit@.len() <= v@.len() <= usize::MAX,
            forall|m: int| 0 <= m < k ==> v@[i + m] == lit@[m],
        decreases lit@.len() - k,
    {
        if v[i + k] != lit[k] {
            proof {
                if after(lit@, s) is Some {
                    assert(s.take(lit@.len() as int)[k as int] == lit@[k as int]);
                    assert(s.take(lit@.len() as int)[k as int] == s[k as int]);
                    assert(v@.skip(i as int)[k as int] == v@[i + k]);
                }
            }
            return None;
        }
        k += 1;
    }
    proof {
        assert(s.take(lit@.len() as int) =~= lit@);
        assert(s.skip(lit@.len() as int) =~= v@.skip(i + lit@.len()));
    }
    Some(i + lit.len())
}

/// Appends all of `src` to `out`.
pub fn push_all(out: &mut Vec<u8>, src: &Vec<u8>)
    ensures
        final(out)@ == old(out)@ + src@,
{
    let mut k: usize = 0;
    while k < src.len()
        invariant
            0 <= k <= src@.len(),
            out@ == old(out)@ + src@.take(k as int),
        decreases src@.len() - k,
    {
        out.push(src[k]);
        proof {
            assert(old(out)@ + src@.take(k as int) + seq![src@[k as int]] =~= old(out)@
                + src@.take(k + 1));
        }
        k += 1;
    }
    proof {
        assert(src@.take(src@.len() as int) =~= src@);
    }
}

// ---------------------------------------------------------------------------
// The envelope grammar's fixed literals
// ---------------------------------------------------------------------------

/// `{"messageType":"`
pub open spec fn lit_head() -> Seq<u8> {
    seq![LBRACE, QUOTE, 109, 101, 115, 115, 97, 103, 101, 84, 121, 112, 101, QUOTE, 58, QUOTE]
}

/// `users"`
pub open spec fn lit_users() -> Seq<u8> {
    seq![117, 115, 101, 114, 115, QUOTE]
}

/// `register"`
pub open spec fn lit_register() -> Seq<u8> {
    seq![114, 101, 103, 105, 115, 116, 101, 114, QUOTE]
}

/// `message"`
pub open spec fn lit_message() -> Seq<u8> {
    seq![109, 101, 115, 115, 97, 103, 101, QUOTE]
}

/// `,"data":"`
pub open spec fn lit_data() -> Seq<u8> {
    seq![COMMA, QUOTE, 100, 97, 116, 97, QUOTE, 58, QUOTE]
}

/// `,"dataArray":[`
pub open spec fn lit_array() -> Seq<u8> {
    seq![COMMA, QUOTE, 100, 97, 116, 97, 65, 114, 114, 97, 121, QUOTE, 58, LBRACK]
}

/// `{"from":"`
pub open spec fn lit_from() -> Seq<u8> {
    seq![LBRACE, QUOTE, 102, 114, 111, 109, QUOTE, 58, QUOTE]
}

/// `,"message":"` (follows the closing quote of the `from` string)
pub open spec fn lit_mid() -> Seq<u8> {
    seq![COMMA, QUOTE, 109, 101, 115, 115, 97, 103, 101, QUOTE, 58, QUOTE]
}

/// `,"time":` (follows the closing quote of the `message` string)
pub open spec fn lit_tim() -> Seq<u8> {
    seq![COMMA, QUOTE, 116, 105, 109, 101, QUOTE, 58]
}

/// The kind word with its closing quote.
pub open spec fn kind_lit(k: MsgKind) -> Seq<u8> {
    match k {
        MsgKind::Users => lit_users(),
        MsgKind::Register => lit_register(),
        MsgKind::Message => lit_message(),
    }
}

fn lit_head_vec() -> (v: Vec<u8>)
    ensures
        v@ == lit_head(),
{
    let v: Vec<u8> = vec![
        LBRACE, QUOTE, 109, 101, 115, 115, 97, 103, 101, 84, 121, 112, 101, QUOTE, 58, QUOTE,
    ];
    proof {
        assert(v@ =~= lit_head());
    }
    v
}

fn lit_users_vec() -> (v: Vec<u8>)
    ensures
        v@ == lit_users(),
{
    let v: Vec<u8> = vec![117, 115, 101, 114, 115, QUOTE];
    proof {
        assert(v@ =~= lit_users());
    }
    v
}

fn lit_register_vec() -> (v: Vec<u8>)
    ensures
        v@ == lit_register(),
{
    let v: Vec<u8> = vec![114, 101, 103, 105, 115, 116, 101, 114, QUOTE];
    proof {
        assert(v@ =~= lit_register());
    }
    v
}

fn lit_message_vec() -> (v: Vec<u8>)
    ensures
        v@ == lit_message(),
{
    let v: Vec<u8> = vec![109, 101, 115, 115, 97, 103, 101, QUOTE];
    proof {
        assert(v@ =~= lit_message());
    }
    v
}

fn lit_data_vec() -> (v: Vec<u8>)
    ensures
        v@ == lit_data(),
{
    let v: Vec<u8> = vec![COMMA, QUOTE, 100, 97, 116, 97, QUOTE, 58, QUOTE];
    proof {
        assert(v@ =~= lit_data());
    }
    v
}

fn lit_array_vec() -> (v: Vec<u8>)
    ensures
        v@ == lit_array(),
{
    let v: Vec<u8> = vec![COMMA, QUOTE, 100, 97, 116, 97, 65, 114, 114, 97, 121, QUOTE, 58, LBRACK];
    proof {
        assert(v@ =~= lit_array());
    }
    v
}

fn lit_from_vec() -> (v: Vec<u8>)
    ensures
        v@ == lit_from(),
{
    let v: Vec<u8> = vec![LBRACE, QUOTE, 102, 114, 111, 109, QUOTE, 58, QUOTE];
    proof {
        assert(v@ =~= lit_from());
    }
    v
}

fn lit_mid_vec() -> (v: Vec<u8>)
    ensures
        v@ == lit_mid(),
{
    let v: Vec<u8> = vec![COMMA, QUOTE, 109, 101, 115, 115, 97, 103, 101, QUOTE, 58, QUOTE];
    proof {
        assert(v@ =~= lit_mid());
    }
    v
}

fn lit_tim_vec() -> (v: Vec<u8>)
    ensures
        v@ == lit_tim(),
{
    let v: Vec<u8> = vec![COMMA, QUOTE, 116, 105, 109, 101, QUOTE, 58];
    proof {
        assert(v@ =~= lit_tim());
    }
    v
}

// ---------------------------------------------------------------------------
// Envelope encoding
// ---------------------------------------------------------------------------

/// The body of a JSON array of strings, without the brackets.
pub open spec fn encode_items(a: Seq<Seq<u8>>) -> Seq<u8>
    decreases a.len(),
{
    if a.len() == 0 {
        Seq::empty()
    } else if a.len() == 1 {
        seq![QUOTE] + esc(a[0]) + seq![QUOTE]
    } else {
        seq![QUOTE] + esc(a[0]) + seq![QUOTE] + seq![COMMA] + encode_items(a.skip(1))
    }
}

/// The `,"data":"..."` member, or nothing.
pub open spec fn data_part(d: Option<Seq<u8>>) -> Seq<u8> {
    match d {
        Some(d) => lit_data() + esc(d) + seq![QUOTE],
        None => Seq::empty(),
    }
}

/// The `,"dataArray":[...]` member, or nothing.
pub open spec fn array_part(a: Option<Seq<Seq<u8>>>) -> Seq<u8> {
    match a {
        Some(a) => lit_array() + encode_items(a) + seq![RBRACK],
        None => Seq::empty(),
    }
}

/// The canonical wire form of an envelope.
pub open spec fn spec_encode_envelope(e: EnvelopeView) -> Seq<u8> {
    lit_head() + kind_lit(e.kind) + data_part(e.data) + array_part(e.data_array) + seq![RBRACE]
}

/// The canonical wire form of a chat message.
pub open spec fn spec_encode_chat(c: ChatMessageView) -> Seq<u8> {
    lit_from() + esc(c.from) + seq![QUOTE] + lit_mid() + esc(c.message) + seq![QUOTE] + lit_tim()
        + dec_str(c.time as nat) + seq![RBRACE]
}

fn push_items(out: &mut Vec<u8>, a: &Vec<Vec<u8>>, i: usize)
    requires
        i <= a@.len(),
    ensures
        final(out)@ == old(out)@ + encode_items(a.deep_view().skip(i as int)),
    decreases a@.len() - i,
{
    let ghost s = a.deep_view().skip(i as int);
    if i == a.len() {
        proof {
            assert(s =~= Seq::<Seq<u8>>::empty());
            assert(out@ =~= out@ + encode_items(s));
        }
        return ;
    }
    proof {
        assert(s[0] == a.deep_view()[i as int]);
        assert(a.deep_view()[i as int] == a@[i as int]@);
        assert(s.len() == a@.len() - i);
    }
    out.push(QUOTE);
    push_escaped(out, &a[i]);
    out.push(QUOTE);
    if i + 1 < a.len() {
        out.push(COMMA);
        proof {
            assert(s.skip(1) =~= a.deep_view().skip(i + 1));
        }
        push_items(out, a, i + 1);
        proof {
            assert(out@ =~= old(out)@ + encode_items(s));
        }
    } else {
        proof {
            assert(s.len() == 1);
            assert(out@ =~= old(out)@ + encode_items(s));
        }
    }
}

/// Encodes an envelope into its canonical wire bytes.
pub fn encode_envelope(e: &Envelope) -> (r: Vec<u8>)
    ensures
        r@ == spec_encode_envelope(e@),
{
    let mut out: Vec<u8> = Vec::new();
    let head = lit_head_vec();
    push_all(&mut out, &head);
    match e.kind {
        MsgKind::Users => {
            let l = lit_users_vec();
            push_all(&mut out, &l);
        },
        MsgKind::Register => {
            let l = lit_register_vec();
            push_all(&mut out, &l);
        },
        MsgKind::Message => {
            let l = lit_message_vec();
            push_all(&mut out, &l);
        },
    }
    proof {
        assert(out@ =~= lit_head() + kind_lit(e@.kind));
    }
    match &e.data {
        Some(d) => {
            let l = lit_data_vec();
            push_all(&mut out, &l);
            push_escaped(&mut out, d);
            out.push(QUOTE);
            proof {
                assert(e@.data == Some(d@));
                assert(out@ =~= lit_head() + kind_lit(e@.kind) + data_part(e@.data));
            }
        },
        None => {
            proof {
                assert(e@.data is None);
                assert(out@ =~= lit_head() + kind_lit(e@.kind) + data_part(e@.data));
            }
        },
    }
    let ghost g2 = lit_head() + kind_lit(e@.kind) + data_part(e@.data);
    match &e.data_array {
        Some(a) => {
            let l = lit_array_vec();
            push_all(&mut out, &l);
            proof {
                assert(a.deep_view().skip(0) =~= a.deep_view());
            }
            push_items(&mut out, a, 0);
            out.push(RBRACK);
            proof {
                assert(e@.data_array == Some(a.deep_view()));
                assert(out@ =~= g2 + array_part(e@.data_array));
            }
        },
        None => {
            proof {
                assert(e@.data_array is None);
                assert(out@ =~= g2 + array_part(e@.data_array));
            }
        },
    }
    out.push(RBRACE);
    proof {
        assert(out@ =~= spec_encode_envelope(e@));
    }
    out
}

/// Encodes a chat message into its canonical wire bytes.
pub fn encode_chat(c: &ChatMessage) -> (r: Vec<u8>)
    ensures
        r@ == spec_encode_chat(c@),
{
    let mut out: Vec<u8> = Vec::new();
    let l1 = lit_from_vec();
    push_all(&mut out, &l1);
    push_escaped(&mut out, &c.from);
    out.push(QUOTE);
    let l2 = lit_mid_vec();
    push_all(&mut out, &l2);
    push_escaped(&mut out, &c.message);
    out.push(QUOTE);
    let l3 = lit_tim_vec();
    push_all(&mut out, &l3);
    let digits = u64_to_dec(c.time);
    push_all(&mut out, &digits);
    out.push(RBRACE);
    proof {
        assert(out@ =~= spec_encode_chat(c@));
    }
    out
}

// ---------------------------------------------------------------------------
// Envelope decoding
// ---------------------------------------------------------------------------
//
// The decoder is deliberately more liberal than the encoder: it accepts
// insignificant whitespace between tokens and the object members in any
// order, each at most once.  Member names and the kind word must stand
// literally (no escapes inside them), and `\u` escapes in string values
// reach only code points below 128; anything outside the grammar is a decode
// failure, which the session layer routes to the plaintext fallback.

pub const COLON: u8 = 58;

/// JSON insignificant whitespace.
pub open spec fn is_ws(b: u8) -> bool {
    b == 32 || b == 9 || b == 10 || b == 13
}

/// `s` without its leading whitespace.
pub open spec fn skip_ws(s: Seq<u8>) -> Seq<u8>
    decreases s.len(),
{
    if s.len() > 0 && is_ws(s[0]) {
        skip_ws(s.skip(1))
    } else {
        s
    }
}

/// Skipping whitespace does nothing when none leads.
pub proof fn lemma_skip_ws_id(s: Seq<u8>)
    requires
        s.len() == 0 || !is_ws(s[0]),
    ensures
        skip_ws(s) == s,
{
}

/// Index just past the whitespace run starting at `i`.
fn skip_ws_exec(v: &Vec<u8>, i: usize) -> (j: usize)
    requires
        i <= v@.len(),
    ensures
        i <= j <= v@.len(),
        v@.skip(j as int) == skip_ws(v@.skip(i as int)),
{
    let mut j = i;
    loop
        invariant
            i <= j <= v@.len(),
            skip_ws(v@.skip(i as int)) == skip_ws(v@.skip(j as int)),
        ensures
            i <= j <= v@.len(),
            skip_ws(v@.skip(i as int)) == skip_ws(v@.skip(j as int)),
            j == v@.len() || !is_ws(v@[j as int]),
        decreases v@.len() - j,
    {
        if j == v.len() {
            break;
        }
        let b = v[j];
        if !(b == 32 || b == 9 || b == 10 || b == 13) {
            proof {
                assert(v@.skip(j as int)[0] == v@[j as int]);
            }
            break;
        }
        proof {
            assert(v@.skip(j as int)[0] == v@[j as int]);
            assert(v@.skip(j as int).skip(1) =~= v@.skip(j + 1));
        }
        j += 1;
    }
    proof {
        if j == v.len() {
            assert(v@.skip(j as int).len() == 0);
        } else {
            assert(v@.skip(j as int)[0] == v@[j as int]);
        }
        lemma_skip_ws_id(v@.skip(j as int));
    }
    j
}

/// Expects optional whitespace, a colon, optional whitespace; lands on the
/// member's value.
fn eat_colon_ws(v: &Vec<u8>, i: usize) -> (r: Option<usize>)
    requires
        i <= v@.len(),
    ensures
        ({
            let t = skip_ws(v@.skip(i as int));
            match r {
                Some(j) => t.len() >= 1 && t[0] == COLON && i <= j <= v@.len() && v@.skip(
                    j as int,
                ) == skip_ws(t.skip(1)),
                None => t.len() == 0 || t[0] != COLON,
            }
        }),
{
    let t = skip_ws_exec(v, i);
    if t == v.len() {
        return None;
    }
    proof {
        assert(v@.skip(t as int)[0] == v@[t as int]);
    }
    if v[t] != COLON {
        return None;
    }
    proof {
        assert(v@.skip(t as int).skip(1) =~= v@.skip(t + 1));
    }
    Some(skip_ws_exec(v, t + 1))
}

// The member names, with their quotes.

/// `"messageType"`
pub open spec fn key_mt() -> Seq<u8> {
    seq![QUOTE, 109, 101, 115, 115, 97, 103, 101, 84, 121, 112, 101, QUOTE]
}

/// `"data"`
pub open spec fn key_data() -> Seq<u8> {
    seq![QUOTE, 100, 97, 116, 97, QUOTE]
}

/// `"dataArray"`
pub open spec fn key_arr() -> Seq<u8> {
    seq![QUOTE, 100, 97, 116, 97, 65, 114, 114, 97, 121, QUOTE]
}

/// `"from"`
pub open spec fn key_from() -> Seq<u8> {
    seq![QUOTE, 102, 114, 111, 109, QUOTE]
}

/// `"message"`
pub open spec fn key_msg() -> Seq<u8> {
    seq![QUOTE, 109, 101, 115, 115, 97, 103, 101, QUOTE]
}

/// `"time"`
pub open spec fn key_time() -> Seq<u8> {
    seq![QUOTE, 116, 105, 109, 101, QUOTE]
}

fn key_mt_vec() -> (v: Vec<u8>)
    ensures
        v@ == key_mt(),
{
    let v: Vec<u8> = vec![QUOTE, 109, 101, 115, 115, 97, 103, 101, 84, 121, 112, 101, QUOTE];
    proof {
        assert(v@ =~= key_mt());
    }
    v
}

fn key_data_vec() -> (v: Vec<u8>)
    ensures
        v@ == key_data(),
{
    let v: Vec<u8> = vec![QUOTE, 100, 97, 116, 97, QUOTE];
    proof {
        assert(v@ =~= key_data());
    }
    v
}

fn key_arr_vec() -> (v: Vec<u8>)
    ensures
        v@ == key_arr(),
{
    let v: Vec<u8> = vec![QUOTE, 100, 97, 116, 97, 65, 114, 114, 97, 121, QUOTE];
    proof {
        assert(v@ =~= key_arr());
    }
    v
}

fn key_from_vec() -> (v: Vec<u8>)
    ensures
        v@ == key_from(),
{
    let v: Vec<u8> = vec![QUOTE, 102, 114, 111, 109, QUOTE];
    proof {
        assert(v@ =~= key_from());
    }
    v
}

fn key_msg_vec() -> (v: Vec<u8>)
    ensures
        v@ == key_msg(),
{
    let v: Vec<u8> = vec![QUOTE, 109, 101, 115, 115, 97, 103, 101, QUOTE];
    proof {
        assert(v@ =~= key_msg());
    }
    v
}

fn key_time_vec() -> (v: Vec<u8>)
    ensures
        v@ == key_time(),
{
    let v: Vec<u8> = vec![QUOTE, 116, 105, 109, 101, QUOTE];
    proof {
        assert(v@ =~= key_time());
    }
    v
}

/// The kind word as a quoted string value.
pub open spec fn parse_kind(s: Seq<u8>) -> Option<(MsgKind, Seq<u8>)> {
    if s.len() >= 1 && s[0] == QUOTE {
        let t = s.skip(1);
        if after(lit_users(), t) is Some {
            Some((MsgKind::Users, after(lit_users(), t)->0))
        } else if after(lit_register(), t) is Some {
            Some((MsgKind::Register, after(lit_register(), t)->0))
        } else if after(lit_message(), t) is Some {
            Some((MsgKind::Message, after(lit_message(), t)->0))
        } else {
            None
        }
    } else {
        None
    }
}

fn parse_kind_exec(v: &Vec<u8>, i: usize) -> (r: Option<(MsgKind, usize)>)
    requires
        i <= v@.len(),
    ensures
        ({
            let p = parse_kind(v@.skip(i as int));
            match r {
                Some(kj) => p is Some && (p->0).0 == kj.0 && i <= kj.1 <= v@.len() && v@.skip(
                    kj.1 as int,
                ) == (p->0).1,
                None => p is None,
            }
        }),
{
    if i == v.len() {
        return None;
    }
    proof {
        assert(v@.skip(i as int)[0] == v@[i as int]);
    }
    if v[i] != QUOTE {
        return None;
    }
    proof {
        assert(v@.skip(i as int).skip(1) =~= v@.skip(i + 1));
    }
    let lu = lit_users_vec();
    if let Some(j) = eat(v, i + 1, &lu) {
        return Some((MsgKind::Users, j));
    }
    let lr = lit_register_vec();
    if let Some(j) = eat(v, i + 1, &lr) {
        return Some((MsgKind::Register, j));
    }
    let lm = lit_message_vec();
    if let Some(j) = eat(v, i + 1, &lm) {
        return Some((MsgKind::Message, j));
    }
    None
}

/// Parses the items of a JSON array of strings; `s` starts after the first
/// item's opening area, and the result is what follows the closing bracket.
pub open spec fn parse_items(s: Seq<u8>) -> Option<(Seq<Seq<u8>>, Seq<u8>)>
    decreases s.len(),
{
    let t = skip_ws(s);
    if t.len() == 0 {
        None
    } else if t[0] != QUOTE {
        None
    } else {
        match parse_string_body(t.skip(1)) {
            Some(p) => {
                let u = skip_ws(p.1);
                if u.len() >= 1 && u[0] == RBRACK {
                    Some((seq![p.0], u.skip(1)))
                } else if u.len() >= 1 && u[0] == COMMA && u.skip(1).len() < s.len() {
                    match parse_items(u.skip(1)) {
                        Some(q) => Some((seq![p.0] + q.0, q.1)),
                        None => None,
                    }
                } else {
                    None
                }
            },
            None => None,
        }
    }
}

/// Parses a JSON array of strings; `s` starts just after the opening bracket.
pub open spec fn parse_array(s: Seq<u8>) -> Option<(Seq<Seq<u8>>, Seq<u8>)> {
    let t = skip_ws(s);
    if t.len() >= 1 && t[0] == RBRACK {
        Some((Seq::empty(), t.skip(1)))
    } else {
        parse_items(s)
    }
}

/// One envelope member at a time, with `(kind, data, dataArray)` accumulated
/// so far; `s` stands before a member name, duplicates are refused, and
/// `messageType` is required by the closing brace.
pub open spec fn parse_env_members(
    s: Seq<u8>,
    k: Option<MsgKind>,
    d: Option<Seq<u8>>,
    a: Option<Seq<Seq<u8>>>,
) -> Option<(EnvelopeView, Seq<u8>)>
    decreases s.len(), 1int,
{
    let t = skip_ws(s);
    let kv: Option<(Option<MsgKind>, Option<Seq<u8>>, Option<Seq<Seq<u8>>>, Seq<u8>)> = if after(
        key_mt(),
        t,
    ) is Some {
        if k is Some {
            None
        } else {
            let r = skip_ws(after(key_mt(), t)->0);
            if r.len() >= 1 && r[0] == COLON {
                match parse_kind(skip_ws(r.skip(1))) {
                    Some(p) => Some((Some(p.0), d, a, p.1)),
                    None => None,
                }
            } else {
                None
            }
        }
    } else if after(key_data(), t) is Some {
        if d is Some {
            None
        } else {
            let r = skip_ws(after(key_data(), t)->0);
            if r.len() >= 1 && r[0] == COLON {
                let w = skip_ws(r.skip(1));
                if w.len() >= 1 && w[0] == QUOTE {
                    match parse_string_body(w.skip(1)) {
                        Some(p) => Some((k, Some(p.0), a, p.1)),
                        None => None,
                    }
                } else {
                    None
                }
            } else {
                None
            }
        }
    } else if after(key_arr(), t) is Some {
        if a is Some {
            None
        } else {
            let r = skip_ws(after(key_arr(), t)->0);
            if r.len() >= 1 && r[0] == COLON {
                let w = skip_ws(r.skip(1));
                if w.len() >= 1 && w[0] == LBRACK {
                    match parse_array(w.skip(1)) {
                        Some(p) => Some((k, d, Some(p.0), p.1)),
                        None => None,
                    }
                } else {
                    None
                }
            } else {
                None
            }
        }
    } else {
        None
    };
    match kv {
        None => None,
        Some((k2, d2, a2, rest)) => {
            if rest.len() < s.len() {
                parse_env_sep(rest, k2, d2, a2)
            } else {
                None
            }
        },
    }
}

/// After a member's value: either the closing brace, or a comma and another
/// member.
pub open spec fn parse_env_sep(
    s: Seq<u8>,
    k: Option<MsgKind>,
    d: Option<Seq<u8>>,
    a: Option<Seq<Seq<u8>>>,
) -> Option<(EnvelopeView, Seq<u8>)>
    decreases s.len(), 0int,
{
    let u = skip_ws(s);
    if u.len() >= 1 && u[0] == RBRACE {
        match k {
            Some(kind) => Some((EnvelopeView { kind, data: d, data_array: a }, u.skip(1))),
            None => None,
        }
    } else if u.len() >= 1 && u[0] == COMMA && u.skip(1).len() < s.len() {
        parse_env_members(u.skip(1), k, d, a)
    } else {
        None
    }
}

/// The envelope grammar over a whole frame.
pub open spec fn spec_decode_envelope(s: Seq<u8>) -> Option<EnvelopeView> {
    let t = skip_ws(s);
    if t.len() >= 1 && t[0] == LBRACE {
        match parse_env_members(t.skip(1), None, None, None) {
            Some(p) => if skip_ws(p.1).len() == 0 {
                Some(p.0)
            } else {
                None
            },
            None => None,
        }
    } else {
        None
    }
}

/// One chat-message member at a time: `from`, `message` and `time`, in any
/// order, each exactly once.
pub open spec fn parse_chat_members(
    s: Seq<u8>,
    f: Option<Seq<u8>>,
    m: Option<Seq<u8>>,
    tv: Option<u64>,
) -> Option<(ChatMessageView, Seq<u8>)>
    decreases s.len(), 1int,
{
    let t = skip_ws(s);
    let kv: Option<(Option<Seq<u8>>, Option<Seq<u8>>, Option<u64>, Seq<u8>)> = if after(
        key_from(),
        t,
    ) is Some {
        if f is Some {
            None
        } else {
            let r = skip_ws(after(key_from(), t)->0);
            if r.len() >= 1 && r[0] == COLON {
                let w = skip_ws(r.skip(1));
                if w.len() >= 1 && w[0] == QUOTE {
                    match parse_string_body(w.skip(1)) {
                        Some(p) => Some((Some(p.0), m, tv, p.1)),
                        None => None,
                    }
                } else {
                    None
                }
            } else {
                None
            }
        }
    } else if after(key_msg(), t) is Some {
        if m is Some {
            None
        } else {
            let r = skip_ws(after(key_msg(), t)->0);
            if r.len() >= 1 && r[0] == COLON {
                let w = skip_ws(r.skip(1));
                if w.len() >= 1 && w[0] == QUOTE {
                    match parse_string_body(w.skip(1)) {
                        Some(p) => Some((f, Some(p.0), tv, p.1)),
                        None => None,
                    }
                } else {
                    None
                }
            } else {
                None
            }
        }
    } else if after(key_time(), t) is Some {
        if tv is Some {
            None
        } else {
            let r = skip_ws(after(key_time(), t)->0);
            if r.len() >= 1 && r[0] == COLON {
                let w = skip_ws(r.skip(1));
                let dd = take_digits(w);
                if dd.0.len() >= 1 && 0 <= dec_val(dd.0) <= u64::MAX {
                    Some((f, m, Some(dec_val(dd.0) as u64), dd.1))
                } else {
                    None
                }
            } else {
                None
            }
        }
    } else {
        None
    };
    match kv {
        None => None,
        Some((f2, m2, t2, rest)) => {
            if rest.len() < s.len() {
                parse_chat_sep(rest, f2, m2, t2)
            } else {
                None
            }
        },
    }
}

/// After a chat member's value: the closing brace (all three members must be
/// in) or a comma and another member.
pub open spec fn parse_chat_sep(
    s: Seq<u8>,
    f: Option<Seq<u8>>,
    m: Option<Seq<u8>>,
    tv: Option<u64>,
) -> Option<(ChatMessageView, Seq<u8>)>
    decreases s.len(), 0int,
{
    let u = skip_ws(s);
    if u.len() >= 1 && u[0] == RBRACE {
        match (f, m, tv) {
            (Some(from), Some(message), Some(time)) => Some(
                (ChatMessageView { from, message, time }, u.skip(1)),
            ),
            _ => None,
        }
    } else if u.len() >= 1 && u[0] == COMMA && u.skip(1).len() < s.len() {
        parse_chat_members(u.skip(1), f, m, tv)
    } else {
        None
    }
}

/// The chat-message grammar over a whole value.
pub open spec fn spec_decode_chat(s: Seq<u8>) -> Option<ChatMessageView> {
    let t = skip_ws(s);
    if t.len() >= 1 && t[0] == LBRACE {
        match parse_chat_members(t.skip(1), None, None, None) {
            Some(p) => if skip_ws(p.1).len() == 0 {
                Some(p.0)
            } else {
                None
            },
            None => None,
        }
    } else {
        None
    }
}

#[verifier::rlimit(100)]
fn parse_items_exec(v: &Vec<u8>, i: usize, out: &mut Vec<Vec<u8>>) -> (r: Option<usize>)
    requires
        i <= v@.len(),
    ensures
        ({
            let p = parse_items(v@.skip(i as int));
            match r {
                Some(j) => p is Some && i <= j <= v@.len() && final(out).deep_view() == old(
                    out,
                ).deep_view() + (p->0).0 && v@.skip(j as int) == (p->0).1,
                None => p is None,
            }
        }),
    decreases v@.len() - i,
{
    let t = skip_ws_exec(v, i);
    if t == v.len() {
        return None;
    }
    proof {
        assert(v@.skip(t as int)[0] == v@[t as int]);
    }
    if v[t] != QUOTE {
        return None;
    }
    proof {
        assert(v@.skip(t as int).skip(1) =~= v@.skip(t + 1));
    }
    let mut d: Vec<u8> = Vec::new();
    let j = match parse_string_body_exec(v, t + 1, &mut d) {
        Some(j) => j,
        None => {
            return None;
        },
    };
    let ghost p = parse_string_body(v@.skip(t + 1))->0;
    let u = skip_ws_exec(v, j);
    if u == v.len() {
        proof {
            assert(skip_ws(p.1).len() == 0);
        }
        return None;
    }
    proof {
        assert(v@.skip(u as int)[0] == v@[u as int]);
    }
    let c = v[u];
    if c == RBRACK {
        out.push(d);
        proof {
            assert(v@.skip(u as int).skip(1) =~= v@.skip(u + 1));
            assert(out.deep_view() =~~= old(out).deep_view() + seq![d@]);
        }
        return Some(u + 1);
    }
    if c == COMMA {
        proof {
            assert(v@.skip(u as int).skip(1) =~= v@.skip(u + 1));
            assert(v@.skip(u + 1).len() < v@.skip(i as int).len());
        }
        out.push(d);
        proof {
            assert(out.deep_view() =~~= old(out).deep_view() + seq![d@]);
        }
        let r2 = parse_items_exec(v, u + 1, out);
        match r2 {
            Some(j2) => {
                proof {
                    let q = parse_items(v@.skip(u + 1))->0;
                    assert(out.deep_view() =~~= old(out).deep_view() + (seq![d@] + q.0));
                }
                return Some(j2);
            },
            None => {
                return None;
            },
        }
    }
    None
}

#[verifier::rlimit(100)]
fn parse_array_exec(v: &Vec<u8>, i: usize, out: &mut Vec<Vec<u8>>) -> (r: Option<usize>)
    requires
        i <= v@.len(),
    ensures
        ({
            let p = parse_array(v@.skip(i as int));
            match r {
                Some(j) => p is Some && i <= j <= v@.len() && final(out).deep_view() == old(
                    out,
                ).deep_view() + (p->0).0 && v@.skip(j as int) == (p->0).1,
                None => p is None,
            }
        }),
{
    let t = skip_ws_exec(v, i);
    if t < v.len() {
        proof {
            assert(v@.skip(t as int)[0] == v@[t as int]);
        }
        if v[t] == RBRACK {
            proof {
                assert(v@.skip(t as int).skip(1) =~= v@.skip(t + 1));
                assert(out.deep_view() + Seq::<Seq<u8>>::empty() =~= out.deep_view());
            }
            return Some(t + 1);
        }
    }
    parse_items_exec(v, i, out)
}

/// Decodes a wire frame as an envelope, if it fits the envelope grammar.
#[verifier::rlimit(100)]
pub fn decode_envelope(v: &Vec<u8>) -> (r: Option<Envelope>)
    ensures
        ({
            let s = spec_decode_envelope(v@);
            match r {
                Some(env) => s == Some(env@),
                None => s is None,
            }
        }),
{
    proof {
        assert(v@.skip(0) =~= v@);
    }
    let t0 = skip_ws_exec(v, 0);
    if t0 == v.len() {
        return None;
    }
    proof {
        assert(v@.skip(t0 as int)[0] == v@[t0 as int]);
    }
    if v[t0] != LBRACE {
        return None;
    }
    proof {
        assert(v@.skip(t0 as int).skip(1) =~= v@.skip(t0 + 1));
    }
    let kmt = key_mt_vec();
    let kdt = key_data_vec();
    let kar = key_arr_vec();
    let mut i = t0 + 1;
    let mut kind: Option<MsgKind> = None;
    let mut data: Option<Vec<u8>> = None;
    let mut arr: Option<Vec<Vec<u8>>> = None;
    let ghost target = parse_env_members(v@.skip(t0 + 1), None, None, None);
    loop
        invariant
            i <= v@.len(),
            kmt@ == key_mt(),
            kdt@ == key_data(),
            kar@ == key_arr(),
            parse_env_members(v@.skip(i as int), kind, data.deep_view(), arr.deep_view())
                == target,
            spec_decode_envelope(v@) == (match target {
                Some(p) => if skip_ws(p.1).len() == 0 {
                    Some(p.0)
                } else {
                    None
                },
                None => None,
            }),
        decreases v@.len() - i,
    {
        let ghost s_spec = v@.skip(i as int);
        let t = skip_ws_exec(v, i);
        let inext: usize = if let Some(rk) = eat(v, t, &kmt) {
            if kind.is_some() {
                return None;
            }
            let r3 = match eat_colon_ws(v, rk) {
                Some(j) => j,
                None => {
                    return None;
                },
            };
            match parse_kind_exec(v, r3) {
                Some(kj) => {
                    kind = Some(kj.0);
                    kj.1
                },
                None => {
                    return None;
                },
            }
        } else if let Some(rk) = eat(v, t, &kdt) {
            if data.is_some() {
                return None;
            }
            let r3 = match eat_colon_ws(v, rk) {
                Some(j) => j,
                None => {
                    return None;
                },
            };
            if r3 == v.len() {
                return None;
            }
            proof {
                assert(v@.skip(r3 as int)[0] == v@[r3 as int]);
            }
            if v[r3] != QUOTE {
                return None;
            }
            proof {
                assert(v@.skip(r3 as int).skip(1) =~= v@.skip(r3 + 1));
            }
            let mut d: Vec<u8> = Vec::new();
            match parse_string_body_exec(v, r3 + 1, &mut d) {
                Some(j) => {
                    let ghost dv = d@;
                    proof {
                        assert(Seq::<u8>::empty() + (parse_string_body(v@.skip(r3 + 1))->0).0
                            =~= (parse_string_body(v@.skip(r3 + 1))->0).0);
                    }
                    data = Some(d);
                    proof {
                        assert(data.deep_view() == Some(dv));
                    }
                    j
                },
                None => {
                    return None;
                },
            }
        } else if let Some(rk) = eat(v, t, &kar) {
            if arr.is_some() {
                return None;
            }
            let r3 = match eat_colon_ws(v, rk) {
                Some(j) => j,
                None => {
                    return None;
                },
            };
            if r3 == v.len() {
                return None;
            }
            proof {
                assert(v@.skip(r3 as int)[0] == v@[r3 as int]);
            }
            if v[r3] != LBRACK {
                return None;
            }
            proof {
                assert(v@.skip(r3 as int).skip(1) =~= v@.skip(r3 + 1));
            }
            let mut items: Vec<Vec<u8>> = Vec::new();
            match parse_array_exec(v, r3 + 1, &mut items) {
                Some(j) => {
                    let ghost av = items.deep_view();
                    proof {
                        assert(Seq::<Seq<u8>>::empty() + (parse_array(v@.skip(r3 + 1))->0).0
                            =~~= (parse_array(v@.skip(r3 + 1))->0).0);
                        assert(av == (parse_array(v@.skip(r3 + 1))->0).0);
                    }
                    arr = Some(items);
                    proof {
                        assert(arr.deep_view() == Some(av));
                    }
                    j
                },
                None => {
                    return None;
                },
            }
        } else {
            return None;
        };
        proof {
            assert(v@.skip(inext as int).len() < s_spec.len());
            assert(parse_env_sep(v@.skip(inext as int), kind, data.deep_view(), arr.deep_view())
                == target);
        }
        let u = skip_ws_exec(v, inext);
        if u == v.len() {
            return None;
        }
        proof {
            assert(v@.skip(u as int)[0] == v@[u as int]);
        }
        let c = v[u];
        if c == RBRACE {
            proof {
                assert(v@.skip(u as int).skip(1) =~= v@.skip(u + 1));
            }
            match kind {
                Some(kd) => {
                    let e = skip_ws_exec(v, u + 1);
                    if e != v.len() {
                        return None;
                    }
                    proof {
                        assert(v@.skip(e as int).len() == 0);
                    }
                    let env = Envelope { kind: kd, data, data_array: arr };
                    proof {
                        assert(spec_decode_envelope(v@) == Some(env@));
                    }
                    return Some(env);
                },
                None => {
                    return None;
                },
            }
        }
        if c != COMMA {
            return None;
        }
        proof {
            assert(v@.skip(u as int).skip(1) =~= v@.skip(u + 1));
            assert(v@.skip(u + 1).len() < v@.skip(inext as int).len());
        }
        i = u + 1;
    }
}

/// Decodes the inner chat message, if it fits the chat grammar.
#[verifier::rlimit(100)]
pub fn decode_chat(v: &Vec<u8>) -> (r: Option<ChatMessage>)
    ensures
        ({
            let s = spec_decode_chat(v@);
            match r {
                Some(c) => s == Some(c@),
                None => s is None,
            }
        }),
{
    proof {
        assert(v@.skip(0) =~= v@);
    }
    let t0 = skip_ws_exec(v, 0);
    if t0 == v.len() {
        return None;
    }
    proof {
        assert(v@.skip(t0 as int)[0] == v@[t0 as int]);
    }
    if v[t0] != LBRACE {
        return None;
    }
    proof {
        assert(v@.skip(t0 as int).skip(1) =~= v@.skip(t0 + 1));
    }
    let kfr = key_from_vec();
    let kms = key_msg_vec();
    let kti = key_time_vec();
    let mut i = t0 + 1;
    let mut from: Option<Vec<u8>> = None;
    let mut message: Option<Vec<u8>> = None;
    let mut time: Option<u64> = None;
    let ghost target = parse_chat_members(v@.skip(t0 + 1), None, None, None);
    loop
        invariant
            i <= v@.len(),
            kfr@ == key_from(),
            kms@ == key_msg(),
            kti@ == key_time(),
            parse_chat_members(v@.skip(i as int), from.deep_view(), message.deep_view(), time)
                == target,
            spec_decode_chat(v@) == (match target {
                Some(p) => if skip_ws(p.1).len() == 0 {
                    Some(p.0)
                } else {
                    None
                },
                None => None,
            }),
        decreases v@.len() - i,
    {
        let ghost s_spec = v@.skip(i as int);
        let t = skip_ws_exec(v, i);
        let inext: usize = if let Some(rk) = eat(v, t, &kfr) {
            if from.is_some() {
                return None;
            }
            let r3 = match eat_colon_ws(v, rk) {
                Some(j) => j,
                None => {
                    return None;
                },
            };
            if r3 == v.len() {
                return None;
            }
            proof {
                assert(v@.skip(r3 as int)[0] == v@[r3 as int]);
            }
            if v[r3] != QUOTE {
                return None;
            }
            proof {
                assert(v@.skip(r3 as int).skip(1) =~= v@.skip(r3 + 1));
            }
            let mut d: Vec<u8> = Vec::new();
            match parse_string_body_exec(v, r3 + 1, &mut d) {
                Some(j) => {
                    let ghost dv = d@;
                    proof {
                        assert(Seq::<u8>::empty() + (parse_string_body(v@.skip(r3 + 1))->0).0
                            =~= (parse_string_body(v@.skip(r3 + 1))->0).0);
                    }
                    from = Some(d);
                    proof {
                        assert(from.deep_view() == Some(dv));
                    }
                    j
                },
                None => {
                    return None;
                },
            }
        } else if let Some(rk) = eat(v, t, &kms) {
            if message.is_some() {
                return None;
            }
            let r3 = match eat_colon_ws(v, rk) {
                Some(j) => j,
                None => {
                    return None;
                },
            };
            if r3 == v.len() {
                return None;
            }
            proof {
                assert(v@.skip(r3 as int)[0] == v@[r3 as int]);
            }
            if v[r3] != QUOTE {
                return None;
            }
            proof {
                assert(v@.skip(r3 as int).skip(1) =~= v@.skip(r3 + 1));
            }
            let mut d: Vec<u8> = Vec::new();
            match parse_string_body_exec(v, r3 + 1, &mut d) {
                Some(j) => {
                    let ghost dv = d@;
                    proof {
                        assert(Seq::<u8>::empty() + (parse_string_body(v@.skip(r3 + 1))->0).0
                            =~= (parse_string_body(v@.skip(r3 + 1))->0).0);
                    }
                    message = Some(d);
                    proof {
                        assert(message.deep_view() == Some(dv));
                    }
                    j
                },
                None => {
                    return None;
                },
            }
        } else if let Some(rk) = eat(v, t, &kti) {
            if time.is_some() {
                return None;
            }
            let r3 = match eat_colon_ws(v, rk) {
                Some(j) => j,
                None => {
                    return None;
                },
            };
            match parse_u64_exec(v, r3) {
                Some(nj) => {
                    time = Some(nj.0);
                    nj.1
                },
                None => {
                    return None;
                },
            }
        } else {
            return None;
        };
        proof {
            assert(v@.skip(inext as int).len() < s_spec.len());
            assert(parse_chat_sep(v@.skip(inext as int), from.deep_view(), message.deep_view(),
                time) == target);
        }
        let u = skip_ws_exec(v, inext);
        if u == v.len() {
            return None;
        }
        proof {
            assert(v@.skip(u as int)[0] == v@[u as int]);
        }
        let c = v[u];
        if c == RBRACE {
            proof {
                assert(v@.skip(u as int).skip(1) =~= v@.skip(u + 1));
            }
            match (from, message, time) {
                (Some(f), Some(m), Some(tv)) => {
                    let e = skip_ws_exec(v, u + 1);
                    if e != v.len() {
                        return None;
                    }
                    proof {
                        assert(v@.skip(e as int).len() == 0);
                    }
                    let c2 = ChatMessage { from: f, message: m, time: tv };
                    proof {
                        assert(spec_decode_chat(v@) == Some(c2@));
                    }
                    return Some(c2);
                },
                _ => {
                    return None;
                },
            }
        }
        if c != COMMA {
            return None;
        }
        proof {
            assert(v@.skip(u as int).skip(1) =~= v@.skip(u + 1));
            assert(v@.skip(u + 1).len() < v@.skip(inext as int).len());
        }
        i = u + 1;
    }
}

// ---------------------------------------------------------------------------
// Round trips: the canonical encodings decode to what was encoded
// ---------------------------------------------------------------------------

/// An encoded string array's items round-trip (non-empty case).
pub proof fn lemma_items_round_trip(a: Seq<Seq<u8>>, rest: Seq<u8>)
    requires
        a.len() >= 1,
    ensures
        parse_items(encode_items(a) + seq![RBRACK] + rest) == Some((a, rest)),
    decreases a.len(),
{
    let s = encode_items(a) + seq![RBRACK] + rest;
    assert(s[0] == QUOTE);
    lemma_skip_ws_id(s);
    if a.len() == 1 {
        let tail = seq![RBRACK] + rest;
        assert(encode_items(a) == seq![QUOTE] + esc(a[0]) + seq![QUOTE]);
        assert(s.skip(1) =~= esc(a[0]) + seq![QUOTE] + tail);
        lemma_string_round_trip(a[0], tail);
        assert(tail[0] == RBRACK);
        lemma_skip_ws_id(tail);
        assert(tail.skip(1) =~= rest);
        assert(seq![a[0]] =~= a);
    } else {
        let inner = encode_items(a.skip(1)) + seq![RBRACK] + rest;
        let tail = seq![COMMA] + inner;
        assert(encode_items(a) == seq![QUOTE] + esc(a[0]) + seq![QUOTE] + seq![COMMA]
            + encode_items(a.skip(1)));
        assert(s.skip(1) =~= esc(a[0]) + seq![QUOTE] + tail);
        lemma_string_round_trip(a[0], tail);
        assert(tail[0] == COMMA);
        lemma_skip_ws_id(tail);
        assert(tail[0] != RBRACK);
        assert(tail.skip(1) =~= inner);
        assert(tail.skip(1).len() < s.len());
        lemma_items_round_trip(a.skip(1), rest);
        assert(seq![a[0]] + a.skip(1) =~= a);
    }
}

/// An encoded string array round-trips.
pub proof fn lemma_array_round_trip(a: Seq<Seq<u8>>, rest: Seq<u8>)
    ensures
        parse_array(encode_items(a) + seq![RBRACK] + rest) == Some((a, rest)),
{
    let s = encode_items(a) + seq![RBRACK] + rest;
    if a.len() == 0 {
        assert(s =~= seq![RBRACK] + rest);
        assert(s[0] == RBRACK);
        lemma_skip_ws_id(s);
        assert(s.skip(1) =~= rest);
        assert(Seq::<Seq<u8>>::empty() =~= a);
    } else {
        assert(s[0] == QUOTE);
        lemma_skip_ws_id(s);
        assert(s[0] != RBRACK);
        lemma_items_round_trip(a, rest);
    }
}

/// After the data member, the canonical `dataArray` member (or nothing) and
/// the closing brace parse back to the encoded array.
#[verifier::rlimit(100)]
proof fn lemma_env_sep_arr(k: MsgKind, d0: Option<Seq<u8>>, arr: Option<Seq<Seq<u8>>>)
    ensures
        parse_env_sep(array_part(arr) + seq![RBRACE], Some(k), d0, None) == Some(
            (EnvelopeView { kind: k, data: d0, data_array: arr }, Seq::<u8>::empty()),
        ),
{
    let s = array_part(arr) + seq![RBRACE];
    match arr {
        None => {
            assert(s =~= seq![RBRACE]);
            assert(s[0] == RBRACE);
            lemma_skip_ws_id(s);
            assert(s.skip(1) =~= Seq::<u8>::empty());
        },
        Some(a) => {
            reveal_with_fuel(parse_env_sep, 2);
            reveal_with_fuel(parse_env_members, 2);
            let r1 = seq![COLON] + (seq![LBRACK] + (encode_items(a) + seq![RBRACK] + seq![
                RBRACE,
            ]));
            let body = key_arr() + r1;
            assert(lit_array() =~= seq![COMMA] + key_arr() + seq![COLON] + seq![LBRACK]);
            assert(s =~= seq![COMMA] + body);
            assert(s[0] == COMMA);
            lemma_skip_ws_id(s);
            assert(s[0] != RBRACE);
            assert(s.skip(1) =~= body);
            assert(s.skip(1).len() < s.len());
            assert(body[0] == QUOTE);
            lemma_skip_ws_id(body);
            if after(key_mt(), body) is Some {
                assert(body.take(key_mt().len() as int)[1] == key_mt()[1]);
                assert(body.take(key_mt().len() as int)[1] == body[1]);
                assert(body[1] == key_arr()[1]);
                assert(false);
            }
            if after(key_data(), body) is Some {
                assert(body.take(key_data().len() as int)[5] == key_data()[5]);
                assert(body.take(key_data().len() as int)[5] == body[5]);
                assert(body[5] == key_arr()[5]);
                assert(false);
            }
            lemma_after_concat(key_arr(), r1);
            assert(r1[0] == COLON);
            lemma_skip_ws_id(r1);
            let r2 = seq![LBRACK] + (encode_items(a) + seq![RBRACK] + seq![RBRACE]);
            assert(r1.skip(1) =~= r2);
            lemma_skip_ws_id(r2);
            assert(r2[0] == LBRACK);
            assert(r2.skip(1) =~= encode_items(a) + seq![RBRACK] + seq![RBRACE]);
            lemma_array_round_trip(a, seq![RBRACE]);
            assert(seq![RBRACE].len() < body.len());
            assert(seq![RBRACE][0] == RBRACE);
            lemma_skip_ws_id(seq![RBRACE]);
            assert(seq![RBRACE].skip(1) =~= Seq::<u8>::empty());
        },
    }
}

/// After the kind member, the canonical `data` and `dataArray` members (each
/// or neither) and the closing brace parse back to what was encoded.
#[verifier::rlimit(100)]
proof fn lemma_env_sep_data(k: MsgKind, data: Option<Seq<u8>>, arr: Option<Seq<Seq<u8>>>)
    ensures
        parse_env_sep(data_part(data) + array_part(arr) + seq![RBRACE], Some(k), None, None)
            == Some(
            (EnvelopeView { kind: k, data, data_array: arr }, Seq::<u8>::empty()),
        ),
{
    let s = data_part(data) + array_part(arr) + seq![RBRACE];
    match data {
        None => {
            assert(s =~= array_part(arr) + seq![RBRACE]);
            lemma_env_sep_arr(k, None, arr);
        },
        Some(d) => {
            reveal_with_fuel(parse_env_sep, 2);
            reveal_with_fuel(parse_env_members, 2);
            let rest3 = array_part(arr) + seq![RBRACE];
            let r1 = seq![COLON] + (seq![QUOTE] + (esc(d) + seq![QUOTE] + rest3));
            let body = key_data() + r1;
            assert(lit_data() =~= seq![COMMA] + key_data() + seq![COLON] + seq![QUOTE]);
            assert(s =~= seq![COMMA] + body);
            assert(s[0] == COMMA);
            lemma_skip_ws_id(s);
            assert(s[0] != RBRACE);
            assert(s.skip(1) =~= body);
            assert(s.skip(1).len() < s.len());
            assert(body[0] == QUOTE);
            lemma_skip_ws_id(body);
            if after(key_mt(), body) is Some {
                assert(body.take(key_mt().len() as int)[1] == key_mt()[1]);
                assert(body.take(key_mt().len() as int)[1] == body[1]);
                assert(body[1] == key_data()[1]);
                assert(false);
            }
            lemma_after_concat(key_data(), r1);
            assert(r1[0] == COLON);
            lemma_skip_ws_id(r1);
            let r2 = seq![QUOTE] + (esc(d) + seq![QUOTE] + rest3);
            assert(r1.skip(1) =~= r2);
            lemma_skip_ws_id(r2);
            assert(r2[0] == QUOTE);
            assert(r2.skip(1) =~= esc(d) + seq![QUOTE] + rest3);
            lemma_string_round_trip(d, rest3);
            assert(rest3.len() < body.len());
            lemma_env_sep_arr(k, Some(d), arr);
        },
    }
}

/// Every envelope's canonical encoding decodes back to it.
#[verifier::rlimit(100)]
pub proof fn lemma_envelope_round_trip(e: EnvelopeView)
    ensures
        spec_decode_envelope(spec_encode_envelope(e)) == Some(e),
{
    let enc = spec_encode_envelope(e);
    let rest2 = data_part(e.data) + array_part(e.data_array) + seq![RBRACE];
    let t = kind_lit(e.kind) + rest2;
    let r2 = seq![QUOTE] + t;
    let r1 = seq![COLON] + r2;
    let kbody = key_mt() + r1;
    assert(lit_head() =~= seq![LBRACE] + key_mt() + seq![COLON] + seq![QUOTE]);
    assert(enc =~= seq![LBRACE] + kbody);
    assert(enc[0] == LBRACE);
    lemma_skip_ws_id(enc);
    assert(enc.skip(1) =~= kbody);
    assert(kbody[0] == QUOTE);
    lemma_skip_ws_id(kbody);
    lemma_after_concat(key_mt(), r1);
    assert(r1[0] == COLON);
    lemma_skip_ws_id(r1);
    assert(r1.skip(1) =~= r2);
    lemma_skip_ws_id(r2);
    assert(r2[0] == QUOTE);
    assert(r2.skip(1) =~= t);
    match e.kind {
        MsgKind::Users => {
            lemma_after_concat(lit_users(), rest2);
            assert(t =~= lit_users() + rest2);
        },
        MsgKind::Register => {
            lemma_after_concat(lit_register(), rest2);
            assert(t =~= lit_register() + rest2);
            assert(t[0] == lit_register()[0]);
            if after(lit_users(), t) is Some {
                assert(t.take(lit_users().len() as int)[0] == lit_users()[0]);
                assert(t.take(lit_users().len() as int)[0] == t[0]);
                assert(false);
            }
        },
        MsgKind::Message => {
            lemma_after_concat(lit_message(), rest2);
            assert(t =~= lit_message() + rest2);
            assert(t[0] == lit_message()[0]);
            if after(lit_users(), t) is Some {
                assert(t.take(lit_users().len() as int)[0] == lit_users()[0]);
                assert(t.take(lit_users().len() as int)[0] == t[0]);
                assert(false);
            }
            if after(lit_register(), t) is Some {
                assert(t.take(lit_register().len() as int)[0] == lit_register()[0]);
                assert(t.take(lit_register().len() as int)[0] == t[0]);
                assert(false);
            }
        },
    }
    assert(rest2.len() < kbody.len());
    lemma_env_sep_data(e.kind, e.data, e.data_array);
    lemma_skip_ws_id(Seq::<u8>::empty());
    assert((EnvelopeView { kind: e.kind, data: e.data, data_array: e.data_array }) =~= e);
}

/// After `from` and `message`, the canonical `time` member and closing brace
/// parse back to the encoded time.
#[verifier::rlimit(100)]
proof fn lemma_chat_sep_time(f0: Seq<u8>, m0: Seq<u8>, time: u64)
    ensures
        parse_chat_sep(lit_tim() + dec_str(time as nat) + seq![RBRACE], Some(f0), Some(m0), None)
            == Some((ChatMessageView { from: f0, message: m0, time }, Seq::<u8>::empty())),
{
    reveal_with_fuel(parse_chat_sep, 2);
    reveal_with_fuel(parse_chat_members, 2);
    let s = lit_tim() + dec_str(time as nat) + seq![RBRACE];
    let r1 = seq![COLON] + (dec_str(time as nat) + seq![RBRACE]);
    let body = key_time() + r1;
    assert(lit_tim() =~= seq![COMMA] + key_time() + seq![COLON]);
    assert(s =~= seq![COMMA] + body);
    assert(s[0] == COMMA);
    lemma_skip_ws_id(s);
    assert(s[0] != RBRACE);
    assert(s.skip(1) =~= body);
    assert(s.skip(1).len() < s.len());
    assert(body[0] == QUOTE);
    lemma_skip_ws_id(body);
    if after(key_from(), body) is Some {
        assert(body.take(key_from().len() as int)[1] == key_from()[1]);
        assert(body.take(key_from().len() as int)[1] == body[1]);
        assert(body[1] == key_time()[1]);
        assert(false);
    }
    if after(key_msg(), body) is Some {
        assert(body.take(key_msg().len() as int)[1] == key_msg()[1]);
        assert(body.take(key_msg().len() as int)[1] == body[1]);
        assert(body[1] == key_time()[1]);
        assert(false);
    }
    lemma_after_concat(key_time(), r1);
    assert(r1[0] == COLON);
    lemma_skip_ws_id(r1);
    let w = dec_str(time as nat) + seq![RBRACE];
    assert(r1.skip(1) =~= w);
    lemma_dec_str_digits(time as nat);
    assert(!is_ws(w[0]));
    lemma_skip_ws_id(w);
    assert(!is_digit(RBRACE));
    lemma_take_digits_concat(dec_str(time as nat), seq![RBRACE]);
    lemma_dec_val_dec_str(time as nat);
    assert(seq![RBRACE].len() < body.len());
    assert(seq![RBRACE][0] == RBRACE);
    lemma_skip_ws_id(seq![RBRACE]);
    assert(seq![RBRACE].skip(1) =~= Seq::<u8>::empty());
}

/// After `from`, the canonical `message` and `time` members and closing
/// brace parse back to what was encoded.
#[verifier::rlimit(100)]
proof fn lemma_chat_sep_msg(f0: Seq<u8>, m: Seq<u8>, time: u64)
    ensures
        parse_chat_sep(
            lit_mid() + esc(m) + seq![QUOTE] + lit_tim() + dec_str(time as nat) + seq![RBRACE],
            Some(f0),
            None,
            None,
        ) == Some((ChatMessageView { from: f0, message: m, time }, Seq::<u8>::empty())),
{
    reveal_with_fuel(parse_chat_sep, 2);
    reveal_with_fuel(parse_chat_members, 2);
    let s = lit_mid() + esc(m) + seq![QUOTE] + lit_tim() + dec_str(time as nat) + seq![RBRACE];
    let rest3 = lit_tim() + dec_str(time as nat) + seq![RBRACE];
    let r1 = seq![COLON] + (seq![QUOTE] + (esc(m) + seq![QUOTE] + rest3));
    let body = key_msg() + r1;
    assert(lit_mid() =~= seq![COMMA] + key_msg() + seq![COLON] + seq![QUOTE]);
    assert(s =~= seq![COMMA] + body);
    assert(s[0] == COMMA);
    lemma_skip_ws_id(s);
    assert(s[0] != RBRACE);
    assert(s.skip(1) =~= body);
    assert(s.skip(1).len() < s.len());
    assert(body[0] == QUOTE);
    lemma_skip_ws_id(body);
    if after(key_from(), body) is Some {
        assert(body.take(key_from().len() as int)[1] == key_from()[1]);
        assert(body.take(key_from().len() as int)[1] == body[1]);
        assert(body[1] == key_msg()[1]);
        assert(false);
    }
    lemma_after_concat(key_msg(), r1);
    assert(r1[0] == COLON);
    lemma_skip_ws_id(r1);
    let r2 = seq![QUOTE] + (esc(m) + seq![QUOTE] + rest3);
    assert(r1.skip(1) =~= r2);
    lemma_skip_ws_id(r2);
    assert(r2[0] == QUOTE);
    assert(r2.skip(1) =~= esc(m) + seq![QUOTE] + rest3);
    lemma_string_round_trip(m, rest3);
    assert(rest3.len() < body.len());
    lemma_chat_sep_time(f0, m, time);
}

/// Every chat message's canonical encoding decodes back to it.
#[verifier::rlimit(100)]
pub proof fn lemma_chat_round_trip(c: ChatMessageView)
    ensures
        spec_decode_chat(spec_encode_chat(c)) == Some(c),
{
    let enc = spec_encode_chat(c);
    let rest_m = lit_mid() + esc(c.message) + seq![QUOTE] + lit_tim() + dec_str(c.time as nat)
        + seq![RBRACE];
    let r2 = seq![QUOTE] + (esc(c.from) + seq![QUOTE] + rest_m);
    let r1 = seq![COLON] + r2;
    let body = key_from() + r1;
    assert(lit_from() =~= seq![LBRACE] + key_from() + seq![COLON] + seq![QUOTE]);
    assert(enc =~= seq![LBRACE] + body);
    assert(enc[0] == LBRACE);
    lemma_skip_ws_id(enc);
    assert(enc.skip(1) =~= body);
    assert(body[0] == QUOTE);
    lemma_skip_ws_id(body);
    lemma_after_concat(key_from(), r1);
    assert(r1[0] == COLON);
    lemma_skip_ws_id(r1);
    assert(r1.skip(1) =~= r2);
    lemma_skip_ws_id(r2);
    assert(r2[0] == QUOTE);
    assert(r2.skip(1) =~= esc(c.from) + seq![QUOTE] + rest_m);
    lemma_string_round_trip(c.from, rest_m);
    assert(rest_m.len() < body.len());
    lemma_chat_sep_msg(c.from, c.message, c.time);
    lemma_skip_ws_id(Seq::<u8>::empty());
    assert((ChatMessageView { from: c.from, message: c.message, time: c.time }) =~= c);
}

} // verus!
