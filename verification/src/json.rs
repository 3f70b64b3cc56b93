//! A strict JSON codec for the two fixed objects the core serializes: the
//! ephemeral login session and the access-token claims.
//!
//! The encoder is canonical and works on UTF-8 bytes; the decoder accepts
//! exactly what the encoder writes, so decoding inverts encoding and
//! anything else is rejected.

use vstd::prelude::*;

use crate::models::Claims;
use crate::models::ClaimsView;
use crate::models::OidcSession;
use crate::models::OidcSessionView;
use crate::roles::Role;
use crate::encoding::string_from_utf8;

verus! {

use vstd::utf8::encode_utf8;
use vstd::utf8::is_ascii_chars;
use vstd::string::StringSliceAdditionalSpecFns;

/// The lowercase hex digit of a value below 16.
pub open spec fn hex_digit(n: u8) -> u8 {
    if n < 10 {
        (48 + n) as u8
    } else {
        (87 + n) as u8
    }
}

/// The JSON escape of one UTF-8 byte: quote and backslash get a
/// backslash, control bytes become `\u00XX`, everything else stands.
/// Bytes of multi-byte characters are above the controls and stand.
pub open spec fn esc_byte(b: u8) -> Seq<u8> {
    if b == 34 {
        seq![92u8, 34u8]
    } else if b == 92 {
        seq![92u8, 92u8]
    } else if b < 32 {
        seq![92u8, 117u8, 48u8, 48u8, hex_digit((b / 16) as u8), hex_digit((b % 16) as u8)]
    } else {
        seq![b]
    }
}

/// The escape of a whole byte string.
pub open spec fn json_escaped(s: Seq<u8>) -> Seq<u8>
    decreases s.len(),
{
    if s.len() == 0 {
        Seq::empty()
    } else {
        json_escaped(s.drop_last()) + esc_byte(s.last())
    }
}

proof fn lemma_json_escaped_push(s: Seq<u8>, b: u8)
    ensures
        json_escaped(s.push(b)) == json_escaped(s) + esc_byte(b),
{
    assert(s.push(b).drop_last() =~= s);
}

/// Escaping distributes over concatenation.
proof fn lemma_json_escaped_concat(a: Seq<u8>, b: Seq<u8>)
    ensures
        json_escaped(a + b) == json_escaped(a) + json_escaped(b),
    decreases b.len(),
{
    if b.len() == 0 {
        assert(a + b =~= a);
        assert(json_escaped(a) + json_escaped(b) =~= json_escaped(a));
    } else {
        assert((a + b).drop_last() =~= a + b.drop_last());
        lemma_json_escaped_concat(a, b.drop_last());
        assert(json_escaped(a) + json_escaped(b.drop_last()) + esc_byte(b.last()) =~= json_escaped(
            a,
        ) + (json_escaped(b.drop_last()) + esc_byte(b.last())));
    }
}

/// Append the escape of `bytes` to `out`.
fn append_escaped(out: &mut Vec<u8>, bytes: &[u8])
    ensures
        final(out)@ == old(out)@ + json_escaped(bytes@),
{
    let n = bytes.len();
    let mut i: usize = 0;
    proof {
        assert(bytes@.subrange(0, 0) =~= Seq::<u8>::empty());
        assert(old(out)@ + json_escaped(Seq::<u8>::empty()) =~= old(out)@);
    }
    while i < n
        invariant
            i <= n,
            n == bytes@.len(),
            out@ == old(out)@ + json_escaped(bytes@.subrange(0, i as int)),
        decreases n - i,
    {
        let b = bytes[i];
        proof {
            assert(bytes@.subrange(0, i as int + 1) =~= bytes@.subrange(0, i as int).push(b));
            lemma_json_escaped_push(bytes@.subrange(0, i as int), b);
        }
        let ghost pre = out@;
        if b == 34 {
            out.push(92);
            out.push(34);
        } else if b == 92 {
            out.push(92);
            out.push(92);
        } else if b < 32 {
            let hi = b / 16;
            let lo = b % 16;
            out.push(92);
            out.push(117);
            out.push(48);
            out.push(48);
            out.push(if hi < 10 { 48 + hi } else { 87 + hi });
            out.push(if lo < 10 { 48 + lo } else { 87 + lo });
        } else {
            out.push(b);
        }
        proof {
            assert(out@ =~= pre + esc_byte(b));
            assert(pre + esc_byte(b) =~= old(out)@ + json_escaped(bytes@.subrange(0, i as int + 1)));
        }
        i = i + 1;
    }
    proof {
        assert(bytes@.subrange(0, n as int) =~= bytes@);
    }
}

/// If a quote-terminated escape of `f0` is what remains of `t` at offset
/// `k`, with `out` already unescaped, what follows at `k` is determined.
proof fn lemma_escape_step(t: Seq<u8>, out: Seq<u8>, f0: Seq<u8>)
    requires
        (json_escaped(f0) + seq![34u8]).is_prefix_of(t),
        out.is_prefix_of(f0),
    ensures
        json_escaped(out).len() <= json_escaped(f0).len() < t.len(),
        out.len() == f0.len() ==> out == f0 && t[json_escaped(out).len() as int] == 34,
        out.len() < f0.len() ==> {
            let k = json_escaped(out).len() as int;
            let e = esc_byte(f0[out.len() as int]);
            &&& json_escaped(f0).len() >= k + e.len()
            &&& forall|m: int| 0 <= m < e.len() ==> t[k + m] == e[m]
        },
{
    let k = json_escaped(out).len() as int;
    if out.len() == f0.len() {
        assert(out =~= f0);
        assert((json_escaped(f0) + seq![34u8])[k] == 34);
        assert(t[k] == 34);
    } else {
        let c = f0[out.len() as int];
        let rest = f0.subrange(out.len() as int + 1, f0.len() as int);
        assert(f0 =~= out + seq![c] + rest);
        lemma_json_escaped_concat(out + seq![c], rest);
        lemma_json_escaped_concat(out, seq![c]);
        assert(seq![c].drop_last() =~= Seq::<u8>::empty());
        assert(json_escaped(seq![c]) == json_escaped(Seq::<u8>::empty()) + esc_byte(c));
        assert(json_escaped(seq![c]) =~= esc_byte(c));
        let e = esc_byte(c);
        assert(json_escaped(f0) == json_escaped(out) + e + json_escaped(rest));
        assert forall|m: int| 0 <= m < e.len() implies t[k + m] == e[m] by {
            assert((json_escaped(out) + e + json_escaped(rest))[k + m] == e[m]);
            assert((json_escaped(f0) + seq![34u8])[k + m] == e[m]);
        }
        assert(e.len() >= 1);
    }
}

/// Read an escaped string body and its closing quote, starting at `start`.
/// Strict: this accepts exactly what `append_escaped` writes, followed by
/// the closing quote, and inverts it.
#[verifier::rlimit(100)]
#[verifier::spinoff_prover]
fn read_json_string(bytes: &Vec<u8>, start: usize) -> (r: Option<(Vec<u8>, usize)>)
    requires
        start <= bytes@.len(),
    ensures
        r matches Some(p) ==> start <= p.1 <= bytes@.len() && bytes@.subrange(
            start as int,
            p.1 as int,
        ) == json_escaped(p.0@) + seq![34u8],
        r matches Some(p) ==> forall|f0: Seq<u8>|
            (json_escaped(f0) + seq![34u8]).is_prefix_of(
                bytes@.subrange(start as int, bytes@.len() as int),
            ) ==> p.0@ == f0 && p.1 == start + json_escaped(f0).len() + 1,
        r is None ==> forall|f0: Seq<u8>|
            !(json_escaped(f0) + seq![34u8]).is_prefix_of(
                bytes@.subrange(start as int, bytes@.len() as int),
            ),
{
    let ghost t = bytes@.subrange(start as int, bytes@.len() as int);
    let n = bytes.len();
    let mut out: Vec<u8> = Vec::new();
    let mut i: usize = start;
    proof {
        assert(bytes@.subrange(start as int, start as int) =~= json_escaped(out@));
    }
    while i < n
        invariant
            start <= i <= n,
            n == bytes@.len(),
            t == bytes@.subrange(start as int, bytes@.len() as int),
            bytes@.subrange(start as int, i as int) == json_escaped(out@),
            i - start == json_escaped(out@).len(),
            forall|f0: Seq<u8>|
                (json_escaped(f0) + seq![34u8]).is_prefix_of(t) ==> (#[trigger] json_escaped(
                    f0,
                )).len() >= 0 && out@.is_prefix_of(f0),
        decreases n - i,
    {
        let ghost consumed = json_escaped(out@);
        proof {
            assert forall|m: int| 0 <= m < t.len() implies t[m] == bytes@[start as int + m] by {}
        }
        let b = bytes[i];
        if b == 34 {
            // end of the string body
            proof {
                assert forall|f0: Seq<u8>|
                    (json_escaped(f0) + seq![34u8]).is_prefix_of(t) implies out@ == f0 && i + 1
                    == start + json_escaped(f0).len() + 1 by {
                    lemma_escape_step(t, out@, f0);
                    if out@.len() < f0.len() {
                        let e = esc_byte(f0[out@.len() as int]);
                        assert(t[i - start] == e[0]);
                        assert(e[0] != 34);
                        assert(false);
                    }
                    assert(out@ =~= f0);
                }
                assert(bytes@.subrange(start as int, i as int + 1) =~= json_escaped(out@) + seq![
                    34u8,
                ]);
            }
            return Some((out, i + 1));
        } else if b == 92 {
            // an escape: the next byte says which
            if i + 1 >= n {
                proof {
                    assert forall|f0: Seq<u8>|
                        !(json_escaped(f0) + seq![34u8]).is_prefix_of(t) by {
                        if (json_escaped(f0) + seq![34u8]).is_prefix_of(t) {
                            lemma_escape_step(t, out@, f0);
                            if out@.len() == f0.len() {
                                assert(t[i - start] == 34);
                            } else {
                                let e = esc_byte(f0[out@.len() as int]);
                                assert(t[i - start] == e[0]);
                                assert(e[0] == 92 ==> e.len() >= 2);
                                assert(json_escaped(f0).len() + 1 <= t.len());
                                assert(i - start + e.len() <= json_escaped(f0).len());
                                assert(false);
                            }
                        }
                    }
                }
                return None;
            }
            let b2 = bytes[i + 1];
            let ghost pre = out@;
            if b2 == 34 || b2 == 92 {
                out.push(b2);
                proof {
                    lemma_json_escaped_push(pre, b2);
                    assert(esc_byte(b2) =~= seq![92u8, b2]);
                    assert(bytes@.subrange(start as int, i as int + 2) =~= consumed + seq![
                        92u8,
                        b2,
                    ]);
                    assert forall|f0: Seq<u8>|
                        (json_escaped(f0) + seq![34u8]).is_prefix_of(t) implies out@.is_prefix_of(
                        f0,
                    ) by {
                        lemma_escape_step(t, pre, f0);
                        if pre.len() == f0.len() {
                            assert(t[i - start] == 34);
                            assert(false);
                        }
                        let c = f0[pre.len() as int];
                        let e = esc_byte(c);
                        assert(t[i - start] == e[0]);
                        assert(t[i - start + 1] == e[1] || e.len() == 1);
                        assert(e[0] == 92);
                        assert(c == 34 || c == 92 || c < 32);
                        if c < 32 {
                            assert(e[1] == 117);
                            assert(false);
                        }
                        assert(c == b2);
                        assert(out@ =~= pre.push(c));
                        assert forall|m: int| 0 <= m < out@.len() implies out@[m] == f0[m] by {}
                    }
                }
                i = i + 2;
            } else if b2 == 117 {
                // \u00XX, controls only, lowercase hex
                if n - i < 6 {
                    proof {
                        assert forall|f0: Seq<u8>|
                            !(json_escaped(f0) + seq![34u8]).is_prefix_of(t) by {
                            if (json_escaped(f0) + seq![34u8]).is_prefix_of(t) {
                                lemma_escape_step(t, out@, f0);
                                if out@.len() == f0.len() {
                                    assert(t[i - start] == 34);
                                } else {
                                    let c = f0[out@.len() as int];
                                    let e = esc_byte(c);
                                    assert(t[i - start] == e[0]);
                                    assert(t[i - start + 1] == e[1] || e.len() == 1);
                                    assert(c == 34 || c == 92 || c < 32);
                                    if c < 32 {
                                        assert(e.len() == 6);
                                        assert(json_escaped(f0).len() + 1 <= t.len());
                                        assert(i - start + 6 <= json_escaped(f0).len());
                                        assert(false);
                                    }
                                    assert(e[1] == b2);
                                    assert(false);
                                }
                                assert(false);
                            }
                        }
                    }
                    return None;
                }
                let h0 = bytes[i + 2];
                let h1 = bytes[i + 3];
                let h2 = bytes[i + 4];
                let h3 = bytes[i + 5];
                let ok = h0 == 48 && h1 == 48 && (h2 == 48 || h2 == 49) && ((48 <= h3 && h3 <= 57)
                    || (97 <= h3 && h3 <= 102));
                proof {
                    assert forall|f0: Seq<u8>|
                        (json_escaped(f0) + seq![34u8]).is_prefix_of(t) implies out@.len()
                        < f0.len() && f0[out@.len() as int] < 32 by {
                        lemma_escape_step(t, out@, f0);
                        if out@.len() == f0.len() {
                            assert(t[i - start] == 34);
                            assert(false);
                        }
                        let c = f0[out@.len() as int];
                        let e = esc_byte(c);
                        assert(t[i - start] == e[0]);
                        assert(t[i - start + 1] == e[1] || e.len() == 1);
                        if c == 34 || c == 92 {
                            assert(e[1] == c);
                            assert(false);
                        }
                        if !(c < 32) {
                            assert(e[0] == c && c >= 32);
                            assert(false);
                        }
                    }
                }
                if !ok {
                    proof {
                        assert forall|f0: Seq<u8>|
                            !(json_escaped(f0) + seq![34u8]).is_prefix_of(t) by {
                            if (json_escaped(f0) + seq![34u8]).is_prefix_of(t) {
                                lemma_escape_step(t, out@, f0);
                                let c = f0[out@.len() as int];
                                let e = esc_byte(c);
                                assert(forall|m: int|
                                    0 <= m < 6 ==> t[i - start + m] == #[trigger] e[m]);
                                assert(h0 == 48 && h1 == 48);
                                assert(h2 == hex_digit((c / 16) as u8));
                                assert(h3 == hex_digit((c % 16) as u8));
                                assert(c / 16 < 2);
                                assert(c % 16 < 16);
                                assert(false);
                            }
                        }
                    }
                    return None;
                }
                let hi: u8 = h2 - 48;
                let lo: u8 = if h3 <= 57 {
                    h3 - 48
                } else {
                    h3 - 87
                };
                let v: u8 = hi * 16 + lo;
                let ghost pre2 = out@;
                out.push(v);
                proof {
                    lemma_json_escaped_push(pre2, v);
                    assert(v < 32);
                    assert(v / 16 == hi && v % 16 == lo) by (nonlinear_arith)
                        requires
                            hi < 2,
                            lo < 16,
                            v == hi * 16 + lo,
                    ;
                    assert(hex_digit((v / 16) as u8) == h2);
                    assert(hex_digit((v % 16) as u8) == h3);
                    assert(esc_byte(v) =~= seq![92u8, 117u8, 48u8, 48u8, h2, h3]);
                    assert(bytes@.subrange(start as int, i as int + 6) =~= consumed + seq![
                        92u8,
                        117u8,
                        48u8,
                        48u8,
                        h2,
                        h3,
                    ]);
                    assert forall|f0: Seq<u8>|
                        (json_escaped(f0) + seq![34u8]).is_prefix_of(t) implies out@.is_prefix_of(
                        f0,
                    ) by {
                        lemma_escape_step(t, pre2, f0);
                        let c = f0[pre2.len() as int];
                        let e = esc_byte(c);
                        assert(c < 32);
                        assert(forall|m: int| 0 <= m < 6 ==> t[i - start + m] == #[trigger] e[m]);
                        assert(hex_digit((c / 16) as u8) == h2);
                        assert(hex_digit((c % 16) as u8) == h3);
                        assert(c / 16 == hi && c % 16 == lo);
                        assert(c == hi * 16 + lo) by (nonlinear_arith)
                            requires
                                c / 16 == hi,
                                c % 16 == lo,
                        ;
                        assert(out@ =~= pre2.push(c));
                        assert forall|m: int| 0 <= m < out@.len() implies out@[m] == f0[m] by {}
                    }
                }
                i = i + 6;
            } else {
                proof {
                    assert forall|f0: Seq<u8>|
                        !(json_escaped(f0) + seq![34u8]).is_prefix_of(t) by {
                        if (json_escaped(f0) + seq![34u8]).is_prefix_of(t) {
                            lemma_escape_step(t, out@, f0);
                            if out@.len() == f0.len() {
                                assert(t[i - start] == 34);
                            } else {
                                let c = f0[out@.len() as int];
                                let e = esc_byte(c);
                                assert(t[i - start] == e[0]);
                                assert(t[i - start + 1] == e[1] || e.len() == 1);
                                if c == 34 || c == 92 {
                                    assert(e[1] == c);
                                } else if c < 32 {
                                    assert(e[1] == 117);
                                } else {
                                    assert(e[0] == c && c >= 32);
                                }
                            }
                            assert(false);
                        }
                    }
                }
                return None;
            }
        } else if b < 32 {
            // a bare control byte is never written by the encoder
            proof {
                assert forall|f0: Seq<u8>| !(json_escaped(f0) + seq![34u8]).is_prefix_of(t) by {
                    if (json_escaped(f0) + seq![34u8]).is_prefix_of(t) {
                        lemma_escape_step(t, out@, f0);
                        if out@.len() == f0.len() {
                            assert(t[i - start] == 34);
                        } else {
                            let c = f0[out@.len() as int];
                            let e = esc_byte(c);
                            assert(t[i - start] == e[0]);
                            assert(e[0] == 92 || e[0] >= 32);
                        }
                        assert(false);
                    }
                }
            }
            return None;
        } else {
            // an ordinary byte stands for itself
            let ghost pre = out@;
            out.push(b);
            proof {
                lemma_json_escaped_push(pre, b);
                assert(esc_byte(b) =~= seq![b]);
                assert(bytes@.subrange(start as int, i as int + 1) =~= consumed + seq![b]);
                assert forall|f0: Seq<u8>|
                    (json_escaped(f0) + seq![34u8]).is_prefix_of(t) implies out@.is_prefix_of(
                    f0,
                ) by {
                    lemma_escape_step(t, pre, f0);
                    if pre.len() == f0.len() {
                        assert(t[i - start] == 34);
                        assert(false);
                    }
                    let c = f0[pre.len() as int];
                    let e = esc_byte(c);
                    assert(t[i - start] == e[0]);
                    if c == 34 || c == 92 || c < 32 {
                        assert(e[0] == 92);
                        assert(false);
                    }
                    assert(c == b);
                    assert(out@ =~= pre.push(c));
                    assert forall|m: int| 0 <= m < out@.len() implies out@[m] == f0[m] by {}
                }
            }
            i = i + 1;
        }
    }
    // ran out of input before the closing quote
    proof {
        assert forall|f0: Seq<u8>| !(json_escaped(f0) + seq![34u8]).is_prefix_of(t) by {
            if (json_escaped(f0) + seq![34u8]).is_prefix_of(t) {
                lemma_escape_step(t, out@, f0);
            }
        }
    }
    None
}

/// A prefix agrees with the whole pointwise.
proof fn lemma_prefix_index(p: Seq<u8>, t: Seq<u8>)
    requires
        p.is_prefix_of(t),
    ensures
        t.len() >= p.len(),
        forall|m: int| 0 <= m < p.len() ==> t[m] == p[m],
{
    assert forall|m: int| 0 <= m < p.len() implies t[m] == p[m] by {
        assert(t.subrange(0, p.len() as int)[m] == t[m]);
    }
}

/// A decimal digit byte.
pub open spec fn is_digit(b: u8) -> bool {
    48 <= b <= 57
}

/// The canonical decimal of a nonnegative number.
pub open spec fn dec_u64(n: int) -> Seq<u8>
    recommends
        n >= 0,
    decreases n,
{
    if n < 10 {
        seq![(48 + if n >= 0 { n } else { 0 }) as u8]
    } else {
        dec_u64(n / 10) + seq![(48 + n % 10) as u8]
    }
}

/// The canonical decimal of a signed number.
pub open spec fn dec_i64(v: int) -> Seq<u8> {
    if v < 0 {
        seq![45u8] + dec_u64(-v)
    } else {
        dec_u64(v)
    }
}

/// The number a digit run stands for.
pub open spec fn digits_val(s: Seq<u8>) -> int
    decreases s.len(),
{
    if s.len() == 0 {
        0
    } else {
        digits_val(s.drop_last()) * 10 + (s.last() - 48)
    }
}

/// The canonical decimal is made of digits, is nonempty, and has no
/// leading zero unless it is exactly "0".
proof fn lemma_dec_digits(n: int)
    requires
        n >= 0,
    ensures
        dec_u64(n).len() >= 1,
        forall|m: int| 0 <= m < dec_u64(n).len() ==> is_digit(#[trigger] dec_u64(n)[m]),
        n >= 1 ==> dec_u64(n)[0] != 48,
        n < 10 ==> dec_u64(n).len() == 1,
        n >= 10 ==> dec_u64(n).len() >= 2,
    decreases n,
{
    if n >= 10 {
        lemma_dec_digits(n / 10);
    }
}

/// Reading the canonical decimal back gives the number.
proof fn lemma_dec_val(n: int)
    requires
        n >= 0,
    ensures
        digits_val(dec_u64(n)) == n,
    decreases n,
{
    reveal_with_fuel(digits_val, 2);
    if n < 10 {
        assert(dec_u64(n) == seq![(48 + n) as u8]);
        assert(dec_u64(n).drop_last() =~= Seq::<u8>::empty());
        assert(dec_u64(n).last() == (48 + n) as u8);
        assert(digits_val(dec_u64(n)) == digits_val(Seq::<u8>::empty()) * 10 + ((48 + n) as u8
            - 48));
    } else {
        lemma_dec_val(n / 10);
        let tail = seq![(48 + n % 10) as u8];
        assert((dec_u64(n / 10) + tail).drop_last() =~= dec_u64(n / 10));
        assert((dec_u64(n / 10) + tail).last() == (48 + n % 10) as u8);
    }
}

/// A digit run's value is nonnegative, and positive when it has no
/// leading zero.
proof fn lemma_digits_val_bounds(s: Seq<u8>)
    requires
        forall|m: int| 0 <= m < s.len() ==> is_digit(#[trigger] s[m]),
    ensures
        digits_val(s) >= 0,
        s.len() >= 1 && s[0] != 48 ==> digits_val(s) >= 1,
    decreases s.len(),
{
    reveal_with_fuel(digits_val, 2);
    if s.len() > 0 {
        assert(forall|m: int|
            0 <= m < s.drop_last().len() ==> is_digit(#[trigger] s.drop_last()[m]));
        lemma_digits_val_bounds(s.drop_last());
        if s.len() >= 2 && s[0] != 48 {
            assert(s.drop_last()[0] == s[0]);
        }
    }
}

/// The value of a digit run is monotone in its prefixes.
proof fn lemma_digits_val_prefix(s: Seq<u8>, p: Seq<u8>)
    requires
        p.is_prefix_of(s),
        forall|m: int| 0 <= m < s.len() ==> is_digit(#[trigger] s[m]),
    ensures
        digits_val(p) <= digits_val(s),
    decreases s.len(),
{
    lemma_prefix_index(p, s);
    lemma_digits_val_bounds(s);
    if p.len() < s.len() {
        assert(p.is_prefix_of(s.drop_last()));
        assert(forall|m: int|
            0 <= m < s.drop_last().len() ==> is_digit(#[trigger] s.drop_last()[m]));
        lemma_digits_val_prefix(s.drop_last(), p);
        lemma_digits_val_bounds(s.drop_last());
    } else {
        assert(p =~= s);
    }
}

/// A canonical digit run prints back to itself.
proof fn lemma_digits_canonical(s: Seq<u8>)
    requires
        s.len() >= 1,
        forall|m: int| 0 <= m < s.len() ==> is_digit(#[trigger] s[m]),
        s[0] != 48 || s.len() == 1,
    ensures
        dec_u64(digits_val(s)) == s,
    decreases s.len(),
{
    reveal_with_fuel(digits_val, 2);
    lemma_digits_val_bounds(s);
    if s.len() == 1 {
        assert(s.drop_last() =~= Seq::<u8>::empty());
        let d = s.last() - 48;
        assert(digits_val(s) == digits_val(Seq::<u8>::empty()) * 10 + d);
        assert(digits_val(s) == d);
        assert(0 <= d < 10);
        assert(dec_u64(d) == seq![(48 + d) as u8]);
        assert((48 + d) as u8 == s.last());
        assert(dec_u64(digits_val(s)) =~= s);
    } else {
        let p = s.drop_last();
        let d = (s.last() - 48) as int;
        assert(forall|m: int| 0 <= m < p.len() ==> is_digit(#[trigger] p[m]));
        assert(p[0] == s[0]);
        lemma_digits_val_bounds(p);
        let vp = digits_val(p);
        let v = digits_val(s);
        assert(v == vp * 10 + d);
        assert(vp >= 1);
        assert(v >= 10) by (nonlinear_arith)
            requires
                v == vp * 10 + d,
                vp >= 1,
                d >= 0,
        ;
        assert(v / 10 == vp && v % 10 == d) by (nonlinear_arith)
            requires
                v == vp * 10 + d,
                0 <= d < 10,
                vp >= 0,
        ;
        lemma_digits_canonical(p);
        assert(dec_u64(v) == dec_u64(vp) + seq![(48 + d) as u8]);
        assert((48 + d) as u8 == s.last());
        assert(dec_u64(vp) + seq![(48 + d) as u8] =~= s);
    }
}

/// Append the canonical decimal of `n`.
fn append_dec_u64(out: &mut Vec<u8>, n: u64)
    ensures
        final(out)@ == old(out)@ + dec_u64(n as int),
    decreases n,
{
    if n < 10 {
        out.push(48 + n as u8);
        proof {
            assert(old(out)@.push((48 + n) as u8) =~= old(out)@ + dec_u64(n as int));
        }
    } else {
        append_dec_u64(out, n / 10);
        out.push(48 + (n % 10) as u8);
        proof {
            assert((old(out)@ + dec_u64(n as int / 10)).push((48 + n as int % 10) as u8)
                =~= old(out)@ + dec_u64(n as int));
        }
    }
}

/// Append the canonical decimal of `v`.
fn append_dec_i64(out: &mut Vec<u8>, v: i64)
    ensures
        final(out)@ == old(out)@ + dec_i64(v as int),
{
    if v < 0 {
        out.push(45);
        let m: u64 = (-(v as i128)) as u64;
        let ghost before = out@;
        append_dec_u64(out, m);
        proof {
            assert(before + dec_u64(m as int) =~= old(out)@ + (seq![45u8] + dec_u64(m as int)));
        }
    } else {
        append_dec_u64(out, v as u64);
    }
}

/// A decimal of `v` standing at the head of `t`, delimited by the end of
/// the input or a byte that is no digit.
pub open spec fn dec_at_head(v: int, t: Seq<u8>) -> bool {
    &&& dec_i64(v).is_prefix_of(t)
    &&& (t.len() > dec_i64(v).len() ==> !is_digit(t[dec_i64(v).len() as int]))
}

/// When the scanner has consumed a whole digit run delimited by a
/// non-digit, any i64 decimal at the head is exactly that run.
proof fn lemma_dec_run_match(
    bytes: Seq<u8>,
    t: Seq<u8>,
    start: int,
    run_start: int,
    i: int,
    neg: bool,
    v: int,
)
    requires
        0 <= start <= run_start <= i <= bytes.len(),
        run_start < i,
        t == bytes.subrange(start, bytes.len() as int),
        neg ==> run_start == start + 1 && bytes[start] == 45,
        !neg ==> run_start == start,
        forall|m: int| run_start <= m < i ==> is_digit(#[trigger] bytes[m]),
        i < bytes.len() ==> !is_digit(bytes[i]),
        dec_at_head(v, t),
    ensures
        v < 0 <==> neg,
        bytes.subrange(run_start, i) == dec_u64(
            if v < 0 {
                -v
            } else {
                v
            },
        ),
        i - start == dec_i64(v).len(),
{
    let mag = if v < 0 {
        -v
    } else {
        v
    };
    lemma_dec_digits(mag);
    let d = dec_u64(mag);
    lemma_prefix_index(dec_i64(v), t);
    let sign_len: int = if neg {
        1int
    } else {
        0int
    };
    if v < 0 && !neg {
        assert(t[0] == dec_i64(v)[0]);
        assert(dec_i64(v)[0] == (seq![45u8] + d)[0]);
        assert(bytes[start] == 45);
        assert(is_digit(bytes[run_start]));
        assert(false);
    }
    if v >= 0 && neg {
        assert(t[0] == dec_i64(v)[0]);
        assert(dec_i64(v)[0] == d[0]);
        assert(is_digit(d[0]));
        assert(t[0] == bytes[start]);
        assert(false);
    }
    // the run reaches at least to the end of d's image
    if i < run_start + d.len() {
        let off = i - run_start;
        assert(0 <= off < d.len());
        assert(sign_len + off < dec_i64(v).len());
        assert(t.len() >= dec_i64(v).len());
        assert(i < bytes.len());
        assert(bytes[i] == t[sign_len + off]);
        assert(t[sign_len + off] == dec_i64(v)[sign_len + off]);
        assert(dec_i64(v)[sign_len + off] == d[off]);
        assert(is_digit(d[off]));
        assert(false);
    }
    // and the byte after d, if any, is no digit, so the run stops there
    if i > run_start + d.len() {
        assert(t.len() > dec_i64(v).len());
        assert(!is_digit(t[dec_i64(v).len() as int]));
        assert(t[dec_i64(v).len() as int] == bytes[start + dec_i64(v).len()]);
        assert(start + dec_i64(v).len() == run_start + d.len());
        assert(is_digit(bytes[run_start + d.len()]));
        assert(false);
    }
    assert(i == run_start + d.len());
    assert forall|m: int| 0 <= m < d.len() implies bytes.subrange(run_start, i)[m] == d[m] by {
        assert(bytes.subrange(run_start, i)[m] == bytes[run_start + m]);
        assert(bytes[run_start + m] == t[sign_len + m]);
        assert(t[sign_len + m] == dec_i64(v)[sign_len + m]);
        assert(dec_i64(v)[sign_len + m] == d[m]);
    }
    assert(bytes.subrange(run_start, i) =~= d);
}

/// When the scanner stands mid-run with a value already too large, no i64
/// decimal stands at the head.
proof fn lemma_no_dec_at_head_overflow(
    bytes: Seq<u8>,
    t: Seq<u8>,
    start: int,
    run_start: int,
    i: int,
    neg: bool,
    val: int,
)
    requires
        0 <= start <= run_start <= i < bytes.len(),
        t == bytes.subrange(start, bytes.len() as int),
        neg ==> run_start == start + 1 && bytes[start] == 45,
        !neg ==> run_start == start,
        forall|m: int| run_start <= m < i ==> is_digit(#[trigger] bytes[m]),
        is_digit(bytes[i]),
        val == digits_val(bytes.subrange(run_start, i)),
        val > 1844674407370955160,
    ensures
        forall|v: i64| !dec_at_head(v as int, t),
{
    assert forall|v: i64| !dec_at_head(v as int, t) by {
        if dec_at_head(v as int, t) {
            let mag = if (v as int) < 0 {
                -(v as int)
            } else {
                v as int
            };
            lemma_dec_digits(mag);
            let d = dec_u64(mag);
            lemma_prefix_index(dec_i64(v as int), t);
            let sign_len: int = if neg {
                1int
            } else {
                0int
            };
            if (v as int) < 0 && !neg {
                assert(t[0] == dec_i64(v as int)[0]);
                assert(dec_i64(v as int)[0] == (seq![45u8] + d)[0]);
                assert(bytes[start] == 45);
                assert(is_digit(bytes[run_start]) || i == run_start);
                assert(bytes[run_start] == 45);
                assert(false);
            }
            if (v as int) >= 0 && neg {
                assert(t[0] == dec_i64(v as int)[0]);
                assert(is_digit(d[0]));
                assert(t[0] == bytes[start]);
                assert(false);
            }
            // d reaches beyond the bytes scanned so far
            if d.len() <= i - run_start {
                assert(t.len() > dec_i64(v as int).len());
                assert(!is_digit(t[dec_i64(v as int).len() as int]));
                assert(t[dec_i64(v as int).len() as int] == bytes[run_start + d.len()]);
                assert(run_start + d.len() <= i);
                assert(is_digit(bytes[run_start + d.len()]));
                assert(false);
            }
            // so the scanned run plus the digit at i is a prefix of d,
            // whose value is bounded by an i64 magnitude
            let scanned1 = bytes.subrange(run_start, i + 1);
            assert forall|m: int| 0 <= m < scanned1.len() implies scanned1[m] == d[m] by {
                assert(scanned1[m] == bytes[run_start + m]);
                assert(bytes[run_start + m] == t[sign_len + m]);
                assert(t[sign_len + m] == dec_i64(v as int)[sign_len + m]);
                assert(dec_i64(v as int)[sign_len + m] == d[m]);
            }
            assert(scanned1.is_prefix_of(d));
            assert(forall|m: int| 0 <= m < d.len() ==> is_digit(#[trigger] d[m]));
            lemma_digits_val_prefix(d, scanned1);
            lemma_dec_val(mag);
            assert(scanned1.drop_last() =~= bytes.subrange(run_start, i));
            assert(digits_val(scanned1) == val * 10 + (bytes[i] - 48));
            assert(digits_val(scanned1) >= val * 10);
            assert(mag <= 9223372036854775808);
            assert(false);
        }
    }
}

/// Read a canonical decimal i64 starting at `start`. Strict: it accepts
/// exactly what `append_dec_i64` writes for an i64, delimited by a
/// non-digit or the end of input, and inverts it.
#[verifier::rlimit(100)]
#[verifier::spinoff_prover]
fn read_dec_i64(bytes: &Vec<u8>, start: usize) -> (r: Option<(i64, usize)>)
    requires
        start <= bytes@.len(),
    ensures
        r matches Some(p) ==> start <= p.1 <= bytes@.len() && bytes@.subrange(
            start as int,
            p.1 as int,
        ) == dec_i64(p.0 as int) && (p.1 < bytes@.len() ==> !is_digit(bytes@[p.1 as int])),
        r matches Some(p) ==> forall|v: i64|
            dec_at_head(v as int, bytes@.subrange(start as int, bytes@.len() as int)) ==> p.0 == v
                && p.1 == start + dec_i64(v as int).len(),
        r is None ==> forall|v: i64|
            !dec_at_head(v as int, bytes@.subrange(start as int, bytes@.len() as int)),
{
    let ghost t = bytes@.subrange(start as int, bytes@.len() as int);
    let n = bytes.len();
    let mut i: usize = start;
    let mut neg = false;
    if i < n && bytes[i] == 45 {
        neg = true;
        i = i + 1;
    }
    let run_start = i;
    proof {
        assert(bytes@.subrange(run_start as int, run_start as int) =~= Seq::<u8>::empty());
    }
    let mut val: u64 = 0;
    while i < n && 48 <= bytes[i] && bytes[i] <= 57
        invariant
            start <= run_start <= i <= n,
            n == bytes@.len(),
            t == bytes@.subrange(start as int, bytes@.len() as int),
            neg ==> run_start == start + 1 && bytes@[start as int] == 45,
            !neg ==> run_start == start,
            forall|m: int| run_start as int <= m < i as int ==> is_digit(#[trigger] bytes@[m]),
            val == digits_val(bytes@.subrange(run_start as int, i as int)),
            val <= 18446744073709551615,
        decreases n - i,
    {
        if val > 1844674407370955160 {
            // too long to be the decimal of an i64
            proof {
                lemma_no_dec_at_head_overflow(
                    bytes@,
                    t,
                    start as int,
                    run_start as int,
                    i as int,
                    neg,
                    val as int,
                );
            }
            return None;
        }
        let b = bytes[i];
        proof {
            assert(bytes@.subrange(run_start as int, i as int + 1) =~= bytes@.subrange(
                run_start as int,
                i as int,
            ).push(b));
            assert(bytes@.subrange(run_start as int, i as int + 1).drop_last() =~= bytes@.subrange(
                run_start as int,
                i as int,
            ));
        }
        val = val * 10 + ((b - 48) as u64);
        i = i + 1;
    }
    let run_len = i - run_start;
    let ghost run = bytes@.subrange(run_start as int, i as int);
    proof {
        assert(forall|m: int| 0 <= m < run.len() ==> is_digit(#[trigger] run[m]));
        lemma_digits_val_bounds(run);
    }
    if run_len == 0 {
        proof {
            assert forall|v: i64| !dec_at_head(v as int, t) by {
                if dec_at_head(v as int, t) {
                    let mag = if (v as int) < 0 {
                        -(v as int)
                    } else {
                        v as int
                    };
                    lemma_dec_digits(mag);
                    lemma_prefix_index(dec_i64(v as int), t);
                    if v < 0 {
                        assert(t[0] == dec_i64(v as int)[0]);
                        assert(bytes@[start as int] == 45);
                        assert(neg);
                        assert(t[1] == dec_i64(v as int)[1]);
                        assert(dec_i64(v as int)[1] == dec_u64(mag)[0]);
                        assert(is_digit(bytes@[run_start as int]));
                    } else {
                        assert(t[0] == dec_i64(v as int)[0]);
                        assert(is_digit(dec_u64(mag)[0]));
                        assert(!neg);
                        assert(is_digit(bytes@[run_start as int]));
                    }
                    assert(run_start < n);
                    assert(false);
                }
            }
        }
        return None;
    }
    if run_len > 1 && bytes[run_start] == 48 {
        proof {
            assert forall|v: i64| !dec_at_head(v as int, t) by {
                if dec_at_head(v as int, t) {
                    lemma_dec_run_match(
                        bytes@,
                        t,
                        start as int,
                        run_start as int,
                        i as int,
                        neg,
                        v as int,
                    );
                    let mag = if (v as int) < 0 {
                        -(v as int)
                    } else {
                        v as int
                    };
                    lemma_dec_digits(mag);
                    assert(run[0] == bytes@[run_start as int]);
                    assert(run[0] == dec_u64(mag)[0]);
                    assert(mag >= 1 ==> dec_u64(mag)[0] != 48);
                    assert(mag == 0 ==> dec_u64(mag).len() == 1);
                    assert(false);
                }
            }
        }
        return None;
    }
    proof {
        assert(run[0] == bytes@[run_start as int]);
        lemma_digits_canonical(run);
    }
    if neg {
        if val == 0 || val > 9223372036854775808 {
            proof {
                assert forall|v: i64| !dec_at_head(v as int, t) by {
                    if dec_at_head(v as int, t) {
                        lemma_dec_run_match(
                            bytes@,
                            t,
                            start as int,
                            run_start as int,
                            i as int,
                            neg,
                            v as int,
                        );
                        let mag = if (v as int) < 0 {
                            -(v as int)
                        } else {
                            v as int
                        };
                        lemma_dec_val(mag);
                        assert(val == mag);
                        assert(false);
                    }
                }
            }
            return None;
        }
        let out: i64 = (-(val as i128)) as i64;
        proof {
            assert(seq![45u8] + run =~= bytes@.subrange(start as int, i as int));
            assert forall|v: i64| dec_at_head(v as int, t) implies out == v && i == start + dec_i64(
                v as int,
            ).len() by {
                lemma_dec_run_match(
                    bytes@,
                    t,
                    start as int,
                    run_start as int,
                    i as int,
                    neg,
                    v as int,
                );
                let mag = if (v as int) < 0 {
                    -(v as int)
                } else {
                    v as int
                };
                lemma_dec_val(mag);
            }
        }
        return Some((out, i));
    }
    if val > 9223372036854775807 {
        proof {
            assert forall|v: i64| !dec_at_head(v as int, t) by {
                if dec_at_head(v as int, t) {
                    lemma_dec_run_match(
                        bytes@,
                        t,
                        start as int,
                        run_start as int,
                        i as int,
                        neg,
                        v as int,
                    );
                    let mag = if (v as int) < 0 {
                        -(v as int)
                    } else {
                        v as int
                    };
                    lemma_dec_val(mag);
                    assert(false);
                }
            }
        }
        return None;
    }
    let out: i64 = val as i64;
    proof {
        assert(run =~= bytes@.subrange(start as int, i as int));
        assert forall|v: i64| dec_at_head(v as int, t) implies out == v && i == start + dec_i64(
            v as int,
        ).len() by {
            lemma_dec_run_match(
                bytes@,
                t,
                start as int,
                run_start as int,
                i as int,
                neg,
                v as int,
            );
            let mag = if (v as int) < 0 {
                -(v as int)
            } else {
                v as int
            };
            lemma_dec_val(mag);
        }
    }
    Some((out, i))
}

/// The name of a role inside a token payload.
pub open spec fn role_name(r: Role) -> Seq<char> {
    match r {
        Role::Admin => "Admin"@,
        Role::Moderator => "Moderator"@,
        Role::Editor => "Editor"@,
    }
}

/// Exp and iat representable as i64, as every minted token's are.
pub open spec fn claims_in_range(c: ClaimsView) -> bool {
    i64::MIN <= c.exp <= i64::MAX && i64::MIN <= c.iat <= i64::MAX
}

/// The canonical JSON bytes of the claims object.
#[verifier::opaque]
pub open spec fn claims_json(c: ClaimsView) -> Seq<u8> {
    encode_utf8("{\"sub\":\""@) + json_escaped(encode_utf8(c.sub)) + seq![34u8] + encode_utf8(
        ",\"user_id\":\""@,
    ) + json_escaped(encode_utf8(c.user_id)) + seq![34u8] + encode_utf8(",\"email\":\""@)
        + json_escaped(encode_utf8(c.email)) + seq![34u8] + encode_utf8(",\"role\":\""@)
        + json_escaped(encode_utf8(role_name(c.role))) + seq![34u8] + encode_utf8(",\"exp\":"@)
        + dec_i64(c.exp) + encode_utf8(",\"iat\":"@) + dec_i64(c.iat) + seq![125u8]
}

/// The canonical JSON bytes of the login-session object.
#[verifier::opaque]
pub open spec fn session_json(s: OidcSessionView) -> Seq<u8> {
    encode_utf8("{\"pkce_verifier\":\""@) + json_escaped(encode_utf8(s.pkce_verifier)) + seq![34u8]
        + encode_utf8(",\"csrf_token\":\""@) + json_escaped(encode_utf8(s.csrf_token)) + seq![34u8]
        + encode_utf8(",\"nonce\":\""@) + json_escaped(encode_utf8(s.nonce)) + seq![34u8] + seq![
        125u8,
    ]
}

/// The role's name, as text.
pub fn role_str(r: Role) -> (s: &'static str)
    ensures
        s@ == role_name(r),
{
    match r {
        Role::Admin => "Admin",
        Role::Moderator => "Moderator",
        Role::Editor => "Editor",
    }
}

/// Serialize the claims canonically.
pub fn claims_to_json(c: &Claims) -> (r: Vec<u8>)
    ensures
        r@ == claims_json(c@),
{
    let mut out: Vec<u8> = Vec::new();
    out.extend_from_slice("{\"sub\":\"".as_bytes());
    append_escaped(&mut out, c.sub.as_str().as_bytes());
    out.push(34);
    out.extend_from_slice(",\"user_id\":\"".as_bytes());
    append_escaped(&mut out, c.user_id.as_str().as_bytes());
    out.push(34);
    out.extend_from_slice(",\"email\":\"".as_bytes());
    append_escaped(&mut out, c.email.as_str().as_bytes());
    out.push(34);
    out.extend_from_slice(",\"role\":\"".as_bytes());
    append_escaped(&mut out, role_str(c.role).as_bytes());
    out.push(34);
    out.extend_from_slice(",\"exp\":".as_bytes());
    append_dec_i64(&mut out, c.exp);
    out.extend_from_slice(",\"iat\":".as_bytes());
    append_dec_i64(&mut out, c.iat);
    out.push(125);
    proof {
        reveal(claims_json);
        assert(out@ =~= claims_json(c@));
    }
    out
}

/// Serialize the login session canonically.
pub fn session_to_json(s: &OidcSession) -> (r: Vec<u8>)
    ensures
        r@ == session_json(s@),
{
    let mut out: Vec<u8> = Vec::new();
    out.extend_from_slice("{\"pkce_verifier\":\"".as_bytes());
    append_escaped(&mut out, s.pkce_verifier.as_str().as_bytes());
    out.push(34);
    out.extend_from_slice(",\"csrf_token\":\"".as_bytes());
    append_escaped(&mut out, s.csrf_token.as_str().as_bytes());
    out.push(34);
    out.extend_from_slice(",\"nonce\":\"".as_bytes());
    append_escaped(&mut out, s.nonce.as_str().as_bytes());
    out.push(34);
    out.push(125);
    proof {
        reveal(session_json);
        assert(out@ =~= session_json(s@));
    }
    out
}

/// Match a fixed piece of text at `start`.
fn expect_lit(bytes: &Vec<u8>, start: usize, lit: &str) -> (r: Option<usize>)
    requires
        start <= bytes@.len(),
    ensures
        r matches Some(j) ==> start <= j <= bytes@.len() && j == start + lit.spec_bytes().len()
            && bytes@.subrange(start as int, j as int) == lit.spec_bytes(),
        r is None ==> !lit.spec_bytes().is_prefix_of(
            bytes@.subrange(start as int, bytes@.len() as int),
        ),
{
    let ghost t = bytes@.subrange(start as int, bytes@.len() as int);
    let lb = lit.as_bytes();
    let m = lb.len();
    let n = bytes.len();
    if n - start < m {
        proof {
            if lit.spec_bytes().is_prefix_of(t) {
                assert(t.len() >= m);
                assert(false);
            }
        }
        return None;
    }
    let mut k: usize = 0;
    while k < m
        invariant
            k <= m,
            m == lb@.len(),
            lb@ == lit.spec_bytes(),
            n == bytes@.len(),
            start + m <= n,
            t == bytes@.subrange(start as int, bytes@.len() as int),
            forall|w: int| 0 <= w < k as int ==> bytes@[start + w] == lb@[w],
        decreases m - k,
    {
        if bytes[start + k] != lb[k] {
            proof {
                if lit.spec_bytes().is_prefix_of(t) {
                    lemma_prefix_index(lit.spec_bytes(), t);
                    assert(t[k as int] == lb@[k as int]);
                    assert(t[k as int] == bytes@[start + k]);
                    assert(false);
                }
            }
            return None;
        }
        k = k + 1;
    }
    proof {
        assert(bytes@.subrange(start as int, start + m as int) =~= lb@);
    }
    Some(start + m)
}

/// Whether the bytes are exactly the text's UTF-8.
fn bytes_eq_str(v: &Vec<u8>, lit: &str) -> (r: bool)
    ensures
        r == (v@ == lit.spec_bytes()),
{
    let lb = lit.as_bytes();
    let m = lb.len();
    if v.len() != m {
        return false;
    }
    let mut k: usize = 0;
    while k < m
        invariant
            k <= m,
            m == lb@.len(),
            lb@ == lit.spec_bytes(),
            v@.len() == m,
            forall|w: int| 0 <= w < k as int ==> v@[w] == lb@[w],
        decreases m - k,
    {
        if v[k] != lb[k] {
            return false;
        }
        k = k + 1;
    }
    proof {
        assert(v@ =~= lb@);
    }
    true
}

/// `whole` splits after `a` into `a` then the rest.
proof fn lemma_split_concat(whole: Seq<u8>, a: Seq<u8>, b: Seq<u8>)
    requires
        whole == a + b,
    ensures
        whole.len() == a.len() + b.len(),
        a.is_prefix_of(whole),
        whole.subrange(a.len() as int, whole.len() as int) == b,
        forall|j: int|
            a.len() <= j <= whole.len() ==> #[trigger] whole.subrange(j, whole.len() as int)
                == b.subrange(j - a.len(), b.len() as int),
{
    assert(whole.subrange(0, a.len() as int) =~= a);
    assert(whole.subrange(a.len() as int, whole.len() as int) =~= b);
    assert forall|j: int|
        a.len() <= j <= whole.len() implies #[trigger] whole.subrange(j, whole.len() as int)
        == b.subrange(j - a.len(), b.len() as int) by {
        assert(whole.subrange(j, whole.len() as int) =~= b.subrange(j - a.len(), b.len() as int));
    }
}


/// Positions of the components inside the canonical claims JSON.
pub open spec fn cj_p1(c0: ClaimsView) -> int {
    encode_utf8("{\"sub\":\""@).len() as int
}

pub open spec fn cj_p2(c0: ClaimsView) -> int {
    cj_p1(c0) + json_escaped(encode_utf8(c0.sub)).len() + 1
}

pub open spec fn cj_p3(c0: ClaimsView) -> int {
    cj_p2(c0) + encode_utf8(",\"user_id\":\""@).len()
}

pub open spec fn cj_p4(c0: ClaimsView) -> int {
    cj_p3(c0) + json_escaped(encode_utf8(c0.user_id)).len() + 1
}

pub open spec fn cj_p5(c0: ClaimsView) -> int {
    cj_p4(c0) + encode_utf8(",\"email\":\""@).len()
}

pub open spec fn cj_p6(c0: ClaimsView) -> int {
    cj_p5(c0) + json_escaped(encode_utf8(c0.email)).len() + 1
}

pub open spec fn cj_p7(c0: ClaimsView) -> int {
    cj_p6(c0) + encode_utf8(",\"role\":\""@).len()
}

pub open spec fn cj_p8(c0: ClaimsView) -> int {
    cj_p7(c0) + json_escaped(encode_utf8(role_name(c0.role))).len() + 1
}

pub open spec fn cj_p9(c0: ClaimsView) -> int {
    cj_p8(c0) + encode_utf8(",\"exp\":"@).len()
}

pub open spec fn cj_p10(c0: ClaimsView) -> int {
    cj_p9(c0) + dec_i64(c0.exp).len()
}

pub open spec fn cj_p11(c0: ClaimsView) -> int {
    cj_p10(c0) + encode_utf8(",\"iat\":"@).len()
}

pub open spec fn cj_p12(c0: ClaimsView) -> int {
    cj_p11(c0) + dec_i64(c0.iat).len()
}

/// Where each component of the canonical claims JSON stands.
#[verifier::rlimit(100)]
#[verifier::spinoff_prover]
proof fn lemma_claims_layout(bytes: Seq<u8>, c0: ClaimsView)
    requires
        bytes == claims_json(c0),
    ensures
        bytes.len() == cj_p12(c0) + 1,
        encode_utf8("{\"sub\":\""@).is_prefix_of(bytes),
        (json_escaped(encode_utf8(c0.sub)) + seq![34u8]).is_prefix_of(
            bytes.subrange(cj_p1(c0), bytes.len() as int),
        ),
        encode_utf8(",\"user_id\":\""@).is_prefix_of(bytes.subrange(cj_p2(c0), bytes.len() as int)),
        (json_escaped(encode_utf8(c0.user_id)) + seq![34u8]).is_prefix_of(
            bytes.subrange(cj_p3(c0), bytes.len() as int),
        ),
        encode_utf8(",\"email\":\""@).is_prefix_of(bytes.subrange(cj_p4(c0), bytes.len() as int)),
        (json_escaped(encode_utf8(c0.email)) + seq![34u8]).is_prefix_of(
            bytes.subrange(cj_p5(c0), bytes.len() as int),
        ),
        encode_utf8(",\"role\":\""@).is_prefix_of(bytes.subrange(cj_p6(c0), bytes.len() as int)),
        (json_escaped(encode_utf8(role_name(c0.role))) + seq![34u8]).is_prefix_of(
            bytes.subrange(cj_p7(c0), bytes.len() as int),
        ),
        encode_utf8(",\"exp\":"@).is_prefix_of(bytes.subrange(cj_p8(c0), bytes.len() as int)),
        dec_at_head(c0.exp, bytes.subrange(cj_p9(c0), bytes.len() as int)),
        encode_utf8(",\"iat\":"@).is_prefix_of(bytes.subrange(cj_p10(c0), bytes.len() as int)),
        dec_at_head(c0.iat, bytes.subrange(cj_p11(c0), bytes.len() as int)),
        bytes[cj_p12(c0)] == 125,
{
    reveal(claims_json);
    let l1 = encode_utf8("{\"sub\":\""@);
    let u1 = json_escaped(encode_utf8(c0.sub)) + seq![34u8];
    let l2 = encode_utf8(",\"user_id\":\""@);
    let u2 = json_escaped(encode_utf8(c0.user_id)) + seq![34u8];
    let l3 = encode_utf8(",\"email\":\""@);
    let u3 = json_escaped(encode_utf8(c0.email)) + seq![34u8];
    let l4 = encode_utf8(",\"role\":\""@);
    let u4 = json_escaped(encode_utf8(role_name(c0.role))) + seq![34u8];
    let l5 = encode_utf8(",\"exp\":"@);
    let d5 = dec_i64(c0.exp);
    let l6 = encode_utf8(",\"iat\":"@);
    let d6 = dec_i64(c0.iat);
    let close = seq![125u8];
    let e = bytes.len() as int;
    let q = seq![34u8];

    let g0 = l1;
    let g1 = g0 + json_escaped(encode_utf8(c0.sub));
    let g2 = g1 + q;
    let g3 = g2 + l2;
    let g4 = g3 + json_escaped(encode_utf8(c0.user_id));
    let g5 = g4 + q;
    let g6 = g5 + l3;
    let g7 = g6 + json_escaped(encode_utf8(c0.email));
    let g8 = g7 + q;
    let g9 = g8 + l4;
    let g10 = g9 + json_escaped(encode_utf8(role_name(c0.role)));
    let g11 = g10 + q;
    let g12 = g11 + l5;
    let g13 = g12 + d5;
    let g14 = g13 + l6;
    let g15 = g14 + d6;
    assert(u1 =~= json_escaped(encode_utf8(c0.sub)) + q);
    assert(u2 =~= json_escaped(encode_utf8(c0.user_id)) + q);
    assert(u3 =~= json_escaped(encode_utf8(c0.email)) + q);
    assert(u4 =~= json_escaped(encode_utf8(role_name(c0.role))) + q);
    assert(bytes == g15 + close);
    lemma_split_concat(bytes, g15, close);
    assert(bytes.subrange(0, g15.len() as int) =~= g15);
    lemma_split_concat(g15, g14, d6);
    assert(bytes.subrange(0, g14.len() as int) =~= g14);
    lemma_split_concat(g14, g13, l6);
    assert(bytes.subrange(0, g13.len() as int) =~= g13);
    lemma_split_concat(g13, g12, d5);
    assert(bytes.subrange(0, g12.len() as int) =~= g12);
    lemma_split_concat(g12, g11, l5);
    assert(bytes.subrange(0, g11.len() as int) =~= g11);
    lemma_split_concat(g11, g10, q);
    assert(bytes.subrange(0, g10.len() as int) =~= g10);
    lemma_split_concat(g10, g9, json_escaped(encode_utf8(role_name(c0.role))));
    assert(bytes.subrange(0, g9.len() as int) =~= g9);
    lemma_split_concat(g9, g8, l4);
    assert(bytes.subrange(0, g8.len() as int) =~= g8);
    lemma_split_concat(g8, g7, q);
    assert(bytes.subrange(0, g7.len() as int) =~= g7);
    lemma_split_concat(g7, g6, json_escaped(encode_utf8(c0.email)));
    assert(bytes.subrange(0, g6.len() as int) =~= g6);
    lemma_split_concat(g6, g5, l3);
    assert(bytes.subrange(0, g5.len() as int) =~= g5);
    lemma_split_concat(g5, g4, q);
    assert(bytes.subrange(0, g4.len() as int) =~= g4);
    lemma_split_concat(g4, g3, json_escaped(encode_utf8(c0.user_id)));
    assert(bytes.subrange(0, g3.len() as int) =~= g3);
    lemma_split_concat(g3, g2, l2);
    assert(bytes.subrange(0, g2.len() as int) =~= g2);
    lemma_split_concat(g2, g1, q);
    assert(bytes.subrange(0, g1.len() as int) =~= g1);
    lemma_split_concat(g1, g0, json_escaped(encode_utf8(c0.sub)));
    assert(bytes.subrange(0, g0.len() as int) =~= g0);

    let p1 = l1.len() as int;
    let p2 = p1 + u1.len();
    let p3 = p2 + l2.len();
    let p4 = p3 + u2.len();
    let p5 = p4 + l3.len();
    let p6 = p5 + u3.len();
    let p7 = p6 + l4.len();
    let p8 = p7 + u4.len();
    let p9 = p8 + l5.len();
    let p10 = p9 + d5.len();
    let p11 = p10 + l6.len();
    let p12 = p11 + d6.len();

    assert(l1.is_prefix_of(bytes)) by {
        assert(bytes.subrange(0, p1) =~= g0);
    }
    assert(u1.is_prefix_of(bytes.subrange(p1, e))) by {
        assert(bytes.subrange(p1, e).subrange(0, u1.len() as int) =~= bytes.subrange(p1, p2));
        assert(bytes.subrange(p1, p2) =~= g2.subrange(p1, p2));
        assert(g2.subrange(p1, p2) =~= u1);
    }
    assert(l2.is_prefix_of(bytes.subrange(p2, e))) by {
        assert(bytes.subrange(p2, e).subrange(0, l2.len() as int) =~= bytes.subrange(p2, p3));
        assert(bytes.subrange(p2, p3) =~= g3.subrange(p2, p3));
        assert(g3.subrange(p2, p3) =~= l2);
    }
    assert(u2.is_prefix_of(bytes.subrange(p3, e))) by {
        assert(bytes.subrange(p3, e).subrange(0, u2.len() as int) =~= bytes.subrange(p3, p4));
        assert(bytes.subrange(p3, p4) =~= g5.subrange(p3, p4));
        assert(g5.subrange(p3, p4) =~= u2);
    }
    assert(l3.is_prefix_of(bytes.subrange(p4, e))) by {
        assert(bytes.subrange(p4, e).subrange(0, l3.len() as int) =~= bytes.subrange(p4, p5));
        assert(bytes.subrange(p4, p5) =~= g6.subrange(p4, p5));
        assert(g6.subrange(p4, p5) =~= l3);
    }
    assert(u3.is_prefix_of(bytes.subrange(p5, e))) by {
        assert(bytes.subrange(p5, e).subrange(0, u3.len() as int) =~= bytes.subrange(p5, p6));
        assert(bytes.subrange(p5, p6) =~= g8.subrange(p5, p6));
        assert(g8.subrange(p5, p6) =~= u3);
    }
    assert(l4.is_prefix_of(bytes.subrange(p6, e))) by {
        assert(bytes.subrange(p6, e).subrange(0, l4.len() as int) =~= bytes.subrange(p6, p7));
        assert(bytes.subrange(p6, p7) =~= g9.subrange(p6, p7));
        assert(g9.subrange(p6, p7) =~= l4);
    }
    assert(u4.is_prefix_of(bytes.subrange(p7, e))) by {
        assert(bytes.subrange(p7, e).subrange(0, u4.len() as int) =~= bytes.subrange(p7, p8));
        assert(bytes.subrange(p7, p8) =~= g11.subrange(p7, p8));
        assert(g11.subrange(p7, p8) =~= u4);
    }
    assert(l5.is_prefix_of(bytes.subrange(p8, e))) by {
        assert(bytes.subrange(p8, e).subrange(0, l5.len() as int) =~= bytes.subrange(p8, p9));
        assert(bytes.subrange(p8, p9) =~= g12.subrange(p8, p9));
        assert(g12.subrange(p8, p9) =~= l5);
    }
    assert(d5.is_prefix_of(bytes.subrange(p9, e))) by {
        assert(bytes.subrange(p9, e).subrange(0, d5.len() as int) =~= bytes.subrange(p9, p10));
        assert(bytes.subrange(p9, p10) =~= g13.subrange(p9, p10));
        assert(g13.subrange(p9, p10) =~= d5);
    }
    assert(l6.is_prefix_of(bytes.subrange(p10, e))) by {
        assert(bytes.subrange(p10, e).subrange(0, l6.len() as int) =~= bytes.subrange(p10, p11));
        assert(bytes.subrange(p10, p11) =~= g14.subrange(p10, p11));
        assert(g14.subrange(p10, p11) =~= l6);
    }
    assert(d6.is_prefix_of(bytes.subrange(p11, e))) by {
        assert(bytes.subrange(p11, e).subrange(0, d6.len() as int) =~= bytes.subrange(p11, p12));
        assert(bytes.subrange(p11, p12) =~= g15.subrange(p11, p12));
        assert(g15.subrange(p11, p12) =~= d6);
    }
    assert(bytes[p12] == 125) by {
        assert(bytes[p12] == close[0]);
    }

    // the byte after each number is no digit
    reveal_strlit(",\"iat\":");
    assert(is_ascii_chars(",\"iat\":"@));
    vstd::utf8::is_ascii_chars_encode_utf8(",\"iat\":"@);
    assert(l6[0] == 44);
    assert(dec_at_head(c0.exp, bytes.subrange(p9, e))) by {
        assert(bytes.subrange(p9, e)[d5.len() as int] == bytes[p10]);
        assert(bytes[p10] == g14.subrange(p10, p11)[0]);
        assert(bytes[p10] == l6[0]);
    }
    assert(dec_at_head(c0.iat, bytes.subrange(p11, e))) by {
        assert(bytes.subrange(p11, e)[d6.len() as int] == bytes[p12]);
    }
    assert(p1 == cj_p1(c0));
    assert(p2 == cj_p2(c0));
    assert(p3 == cj_p3(c0));
    assert(p4 == cj_p4(c0));
    assert(p5 == cj_p5(c0));
    assert(p6 == cj_p6(c0));
    assert(p7 == cj_p7(c0));
    assert(p8 == cj_p8(c0));
    assert(p9 == cj_p9(c0));
    assert(p10 == cj_p10(c0));
    assert(p11 == cj_p11(c0));
    assert(p12 == cj_p12(c0));

}


/// The leading three string fields of the canonical claims JSON.
pub open spec fn claims_head_bytes(sb: Seq<u8>, ub: Seq<u8>, eb: Seq<u8>) -> Seq<u8> {
    encode_utf8("{\"sub\":\""@) + (json_escaped(sb) + seq![34u8]) + encode_utf8(
        ",\"user_id\":\""@,
    ) + (json_escaped(ub) + seq![34u8]) + encode_utf8(",\"email\":\""@) + (json_escaped(eb) + seq![
        34u8,
    ])
}

/// Parse one quoted field introduced by `lit`, starting at `start`.
#[verifier::rlimit(100)]
#[verifier::spinoff_prover]
fn parse_field(bytes: &Vec<u8>, start: usize, lit: &str) -> (r: Option<(Vec<u8>, usize)>)
    requires
        start <= bytes@.len(),
    ensures
        r matches Some(p) ==> start <= p.1 <= bytes@.len() && bytes@.subrange(
            start as int,
            p.1 as int,
        ) == lit.spec_bytes() + (json_escaped(p.0@) + seq![34u8]),
        r matches Some(p) ==> forall|f0: Seq<u8>|
            lit.spec_bytes().is_prefix_of(bytes@.subrange(start as int, bytes@.len() as int))
                && (json_escaped(f0) + seq![34u8]).is_prefix_of(
                bytes@.subrange(start + lit.spec_bytes().len(), bytes@.len() as int),
            ) ==> p.0@ == f0 && p.1 == start + lit.spec_bytes().len() + json_escaped(f0).len() + 1,
        r is None ==> forall|f0: Seq<u8>|
            !(lit.spec_bytes().is_prefix_of(bytes@.subrange(start as int, bytes@.len() as int))
                && (json_escaped(f0) + seq![34u8]).is_prefix_of(
                bytes@.subrange(start + lit.spec_bytes().len(), bytes@.len() as int),
            )),
{
    let p = match expect_lit(bytes, start, lit) {
        Some(p) => p,
        None => {
            return None;
        },
    };
    let (f, j) = match read_json_string(bytes, p) {
        Some(t) => t,
        None => {
            return None;
        },
    };
    proof {
        let b = bytes@;
        assert(b.subrange(start as int, j as int) =~= b.subrange(start as int, p as int)
            + b.subrange(p as int, j as int));
    }
    Some((f, j))
}

/// Parse the three leading string fields of the canonical claims JSON.
#[verifier::rlimit(100)]
#[verifier::spinoff_prover]
fn parse_claims_head(bytes: &Vec<u8>) -> (r: Option<(Vec<u8>, Vec<u8>, Vec<u8>, usize)>)
    ensures
        r matches Some(t) ==> t.3 <= bytes@.len() && bytes@.subrange(0, t.3 as int)
            == claims_head_bytes(t.0@, t.1@, t.2@),
        r matches Some(t) ==> forall|c0: ClaimsView|
            bytes@ == claims_json(c0) ==> t.0@ == encode_utf8(c0.sub) && t.1@ == encode_utf8(
                c0.user_id,
            ) && t.2@ == encode_utf8(c0.email) && t.3 == cj_p6(c0),
        r is None ==> forall|c0: ClaimsView| claims_in_range(c0) ==> bytes@ != claims_json(c0),
{
    let (sub_b, p2) = match parse_field(bytes, 0, "{\"sub\":\"") {
        Some(t) => t,
        None => {
            proof {
                assert forall|c0: ClaimsView|
                    claims_in_range(c0) implies bytes@ != claims_json(c0) by {
                    if bytes@ == claims_json(c0) {
                        lemma_claims_layout(bytes@, c0);
                        assert(bytes@.subrange(0, bytes@.len() as int) =~= bytes@);
                    }
                }
            }
            return None;
        },
    };
    let (uid_b, p4) = match parse_field(bytes, p2, ",\"user_id\":\"") {
        Some(t) => t,
        None => {
            proof {
                assert forall|c0: ClaimsView|
                    claims_in_range(c0) implies bytes@ != claims_json(c0) by {
                    if bytes@ == claims_json(c0) {
                        lemma_claims_layout(bytes@, c0);
                        assert(bytes@.subrange(0, bytes@.len() as int) =~= bytes@);
                    }
                }
            }
            return None;
        },
    };
    let (email_b, p6) = match parse_field(bytes, p4, ",\"email\":\"") {
        Some(t) => t,
        None => {
            proof {
                assert forall|c0: ClaimsView|
                    claims_in_range(c0) implies bytes@ != claims_json(c0) by {
                    if bytes@ == claims_json(c0) {
                        lemma_claims_layout(bytes@, c0);
                        assert(bytes@.subrange(0, bytes@.len() as int) =~= bytes@);
                    }
                }
            }
            return None;
        },
    };
    proof {
        let b = bytes@;
        let a2 = b.subrange(0, p2 as int);
        let a4 = b.subrange(0, p4 as int);
        let a6 = b.subrange(0, p6 as int);
        assert(a2 =~= b.subrange(0, p2 as int));
        assert(a4 =~= a2 + b.subrange(p2 as int, p4 as int));
        assert(a6 =~= a4 + b.subrange(p4 as int, p6 as int));
        assert(a6 == claims_head_bytes(sub_b@, uid_b@, email_b@));
        assert forall|c0: ClaimsView| bytes@ == claims_json(c0) implies sub_b@ == encode_utf8(
            c0.sub,
        ) && uid_b@ == encode_utf8(c0.user_id) && email_b@ == encode_utf8(c0.email) && p6
            == cj_p6(c0) by {
            lemma_claims_layout(bytes@, c0);
            assert(bytes@.subrange(0, bytes@.len() as int) =~= bytes@);
        }
    }
    Some((sub_b, uid_b, email_b, p6))
}

/// Parse the canonical claims JSON; anything else is rejected. Decoding
/// inverts `claims_to_json`: the canonical JSON of any claims value (with
/// representable timestamps) parses back to exactly that value, and
/// whatever parses is the canonical JSON of the result.
#[verifier::rlimit(100)]
#[verifier::spinoff_prover]
pub fn parse_claims_json(bytes: &Vec<u8>) -> (r: Option<Claims>)
    ensures
        r matches Some(c) ==> bytes@ == claims_json(c@),
        r matches Some(c) ==> forall|c0: ClaimsView|
            claims_in_range(c0) && bytes@ == claims_json(c0) ==> c@ == c0,
        r is None ==> forall|c0: ClaimsView| claims_in_range(c0) ==> bytes@ != claims_json(c0),
{
    let e = bytes.len();
    let (sub_b, uid_b, email_b, p6) = match parse_claims_head(bytes) {
        Some(t) => t,
        None => {
            return None;
        },
    };
    let p7 = match expect_lit(bytes, p6, ",\"role\":\"") {
        Some(p) => p,
        None => {
            proof {
                assert forall|c0: ClaimsView|
                    claims_in_range(c0) implies bytes@ != claims_json(c0) by {
                    if bytes@ == claims_json(c0) {
                        lemma_claims_layout(bytes@, c0);
                    }
                }
            }
            return None;
        },
    };
    let (role_b, p8) = match read_json_string(bytes, p7) {
        Some(p) => p,
        None => {
            proof {
                assert forall|c0: ClaimsView|
                    claims_in_range(c0) implies bytes@ != claims_json(c0) by {
                    if bytes@ == claims_json(c0) {
                        lemma_claims_layout(bytes@, c0);
                    }
                }
            }
            return None;
        },
    };
    let p9 = match expect_lit(bytes, p8, ",\"exp\":") {
        Some(p) => p,
        None => {
            proof {
                assert forall|c0: ClaimsView|
                    claims_in_range(c0) implies bytes@ != claims_json(c0) by {
                    if bytes@ == claims_json(c0) {
                        lemma_claims_layout(bytes@, c0);
                    }
                }
            }
            return None;
        },
    };
    let (exp_v, p10) = match read_dec_i64(bytes, p9) {
        Some(p) => p,
        None => {
            proof {
                assert forall|c0: ClaimsView|
                    claims_in_range(c0) implies bytes@ != claims_json(c0) by {
                    if bytes@ == claims_json(c0) {
                        lemma_claims_layout(bytes@, c0);
                        assert(dec_at_head(
                            (c0.exp as i64) as int,
                            bytes@.subrange(p9 as int, e as int),
                        ));
                    }
                }
            }
            return None;
        },
    };
    let p11 = match expect_lit(bytes, p10, ",\"iat\":") {
        Some(p) => p,
        None => {
            proof {
                assert forall|c0: ClaimsView|
                    claims_in_range(c0) implies bytes@ != claims_json(c0) by {
                    if bytes@ == claims_json(c0) {
                        lemma_claims_layout(bytes@, c0);
                        assert(dec_at_head(
                            (c0.exp as i64) as int,
                            bytes@.subrange(p9 as int, e as int),
                        ));
                    }
                }
            }
            return None;
        },
    };
    let (iat_v, p12) = match read_dec_i64(bytes, p11) {
        Some(p) => p,
        None => {
            proof {
                assert forall|c0: ClaimsView|
                    claims_in_range(c0) implies bytes@ != claims_json(c0) by {
                    if bytes@ == claims_json(c0) {
                        lemma_claims_layout(bytes@, c0);
                        assert(dec_at_head(
                            (c0.exp as i64) as int,
                            bytes@.subrange(p9 as int, e as int),
                        ));
                        assert(dec_at_head(
                            (c0.iat as i64) as int,
                            bytes@.subrange(p11 as int, e as int),
                        ));
                    }
                }
            }
            return None;
        },
    };
    if !(p12 < e && p12 + 1 == e && bytes[p12] == 125) {
        proof {
            assert forall|c0: ClaimsView|
                claims_in_range(c0) implies bytes@ != claims_json(c0) by {
                if bytes@ == claims_json(c0) {
                    lemma_claims_layout(bytes@, c0);
                    assert(dec_at_head(
                        (c0.exp as i64) as int,
                        bytes@.subrange(p9 as int, e as int),
                    ));
                    assert(dec_at_head(
                        (c0.iat as i64) as int,
                        bytes@.subrange(p11 as int, e as int),
                    ));
                }
            }
        }
        return None;
    }
    // pick the role from its name
    let role: Role = if bytes_eq_str(&role_b, "Admin") {
        Role::Admin
    } else if bytes_eq_str(&role_b, "Moderator") {
        Role::Moderator
    } else if bytes_eq_str(&role_b, "Editor") {
        Role::Editor
    } else {
        proof {
            assert forall|c0: ClaimsView|
                claims_in_range(c0) implies bytes@ != claims_json(c0) by {
                if bytes@ == claims_json(c0) {
                    lemma_claims_layout(bytes@, c0);
                    assert(role_b@ == encode_utf8(role_name(c0.role)));
                }
            }
        }
        return None;
    };
    proof {
        lemma_role_names_distinct();
        assert(role_b@ == encode_utf8(role_name(role)));
    }
    let sub = match string_from_utf8(sub_b) {
        Some(s) => s,
        None => {
            proof {
                assert forall|c0: ClaimsView|
                    claims_in_range(c0) implies bytes@ != claims_json(c0) by {
                    if bytes@ == claims_json(c0) {
                        vstd::utf8::encode_utf8_valid_utf8(c0.sub);
                    }
                }
            }
            return None;
        },
    };
    let user_id = match string_from_utf8(uid_b) {
        Some(s) => s,
        None => {
            proof {
                assert forall|c0: ClaimsView|
                    claims_in_range(c0) implies bytes@ != claims_json(c0) by {
                    if bytes@ == claims_json(c0) {
                        vstd::utf8::encode_utf8_valid_utf8(c0.user_id);
                    }
                }
            }
            return None;
        },
    };
    let email = match string_from_utf8(email_b) {
        Some(s) => s,
        None => {
            proof {
                assert forall|c0: ClaimsView|
                    claims_in_range(c0) implies bytes@ != claims_json(c0) by {
                    if bytes@ == claims_json(c0) {
                        vstd::utf8::encode_utf8_valid_utf8(c0.email);
                    }
                }
            }
            return None;
        },
    };
    let c = Claims { sub, user_id, email, role, exp: exp_v, iat: iat_v };
    proof {
        // what was consumed is the canonical JSON of the result
        vstd::utf8::decode_utf8_encode_utf8(sub_b@);
        vstd::utf8::decode_utf8_encode_utf8(uid_b@);
        vstd::utf8::decode_utf8_encode_utf8(email_b@);
        let b = bytes@;
        let q = seq![34u8];
        let a6 = b.subrange(0, p6 as int);
        let a7 = b.subrange(0, p7 as int);
        let a8 = b.subrange(0, p8 as int);
        let a9 = b.subrange(0, p9 as int);
        let a10 = b.subrange(0, p10 as int);
        let a11 = b.subrange(0, p11 as int);
        let a12 = b.subrange(0, p12 as int);
        assert(a7 =~= a6 + b.subrange(p6 as int, p7 as int));
        assert(a8 =~= a7 + b.subrange(p7 as int, p8 as int));
        assert(a9 =~= a8 + b.subrange(p8 as int, p9 as int));
        assert(a10 =~= a9 + b.subrange(p9 as int, p10 as int));
        assert(a11 =~= a10 + b.subrange(p10 as int, p11 as int));
        assert(a12 =~= a11 + b.subrange(p11 as int, p12 as int));
        assert(b =~= a12 + seq![125u8]);
        vstd::seq_lib::lemma_concat_associative(
            encode_utf8("{\"sub\":\""@),
            json_escaped(sub_b@),
            q,
        );
        vstd::seq_lib::lemma_concat_associative(
            encode_utf8("{\"sub\":\""@) + json_escaped(sub_b@) + q + encode_utf8(
                ",\"user_id\":\""@,
            ),
            json_escaped(uid_b@),
            q,
        );
        vstd::seq_lib::lemma_concat_associative(
            encode_utf8("{\"sub\":\""@) + json_escaped(sub_b@) + q + encode_utf8(
                ",\"user_id\":\""@,
            ) + json_escaped(uid_b@) + q + encode_utf8(",\"email\":\""@),
            json_escaped(email_b@),
            q,
        );
        vstd::seq_lib::lemma_concat_associative(a7, json_escaped(role_b@), q);
        assert(a6 == claims_head_bytes(sub_b@, uid_b@, email_b@));
        assert(a6 == encode_utf8("{\"sub\":\""@) + json_escaped(sub_b@) + q + encode_utf8(
            ",\"user_id\":\""@,
        ) + json_escaped(uid_b@) + q + encode_utf8(",\"email\":\""@) + json_escaped(email_b@) + q);
        assert(a8 == a7 + json_escaped(encode_utf8(role_name(c.role))) + q);
        assert(b == claims_json(c@)) by {
            reveal(claims_json);
        }
        assert forall|c0: ClaimsView|
            claims_in_range(c0) && bytes@ == claims_json(c0) implies c@ == c0 by {
            lemma_claims_layout(bytes@, c0);
            assert(sub_b@ == encode_utf8(c0.sub));
            assert(uid_b@ == encode_utf8(c0.user_id));
            assert(email_b@ == encode_utf8(c0.email));
            assert(role_b@ == encode_utf8(role_name(c0.role)));
            assert(dec_at_head((c0.exp as i64) as int, bytes@.subrange(p9 as int, e as int)));
            assert(dec_at_head((c0.iat as i64) as int, bytes@.subrange(p11 as int, e as int)));
            assert(exp_v == c0.exp && iat_v == c0.iat);
            vstd::utf8::encode_utf8_decode_utf8(c0.sub);
            vstd::utf8::encode_utf8_decode_utf8(c0.user_id);
            vstd::utf8::encode_utf8_decode_utf8(c0.email);
            assert(c.sub@ == c0.sub);
            assert(c.user_id@ == c0.user_id);
            assert(c.email@ == c0.email);
            assert(encode_utf8(role_name(c.role)) == encode_utf8(role_name(c0.role)));
            assert(c.role == c0.role);
        }
    }
    Some(c)
}


/// The three role names have pairwise different lengths, so their UTF-8
/// encodings differ.
proof fn lemma_role_names_distinct()
    ensures
        forall|a: Role, b: Role|
            encode_utf8(role_name(a)) == encode_utf8(role_name(b)) ==> a == b,
{
    reveal_strlit("Admin");
    reveal_strlit("Moderator");
    reveal_strlit("Editor");
    assert(is_ascii_chars("Admin"@));
    assert(is_ascii_chars("Moderator"@));
    assert(is_ascii_chars("Editor"@));
    vstd::utf8::is_ascii_chars_encode_utf8("Admin"@);
    vstd::utf8::is_ascii_chars_encode_utf8("Moderator"@);
    vstd::utf8::is_ascii_chars_encode_utf8("Editor"@);
    assert(encode_utf8("Admin"@).len() == 5);
    assert(encode_utf8("Moderator"@).len() == 9);
    assert(encode_utf8("Editor"@).len() == 6);
    assert forall|a: Role, b: Role|
        encode_utf8(role_name(a)) == encode_utf8(role_name(b)) implies a == b by {
    }
}

/// Positions of the components inside the canonical session JSON.
pub open spec fn sj_p2(s0: OidcSessionView) -> int {
    encode_utf8("{\"pkce_verifier\":\""@).len() as int + json_escaped(encode_utf8(s0.pkce_verifier)).len()
        + 1
}

pub open spec fn sj_p4(s0: OidcSessionView) -> int {
    sj_p2(s0) + encode_utf8(",\"csrf_token\":\""@).len() + json_escaped(
        encode_utf8(s0.csrf_token),
    ).len() + 1
}

pub open spec fn sj_p6(s0: OidcSessionView) -> int {
    sj_p4(s0) + encode_utf8(",\"nonce\":\""@).len() + json_escaped(encode_utf8(s0.nonce)).len() + 1
}

/// Where each component of the canonical session JSON stands.
#[verifier::rlimit(100)]
#[verifier::spinoff_prover]
proof fn lemma_session_layout(bytes: Seq<u8>, s0: OidcSessionView)
    requires
        bytes == session_json(s0),
    ensures
        bytes.len() == sj_p6(s0) + 1,
        encode_utf8("{\"pkce_verifier\":\""@).is_prefix_of(bytes),
        (json_escaped(encode_utf8(s0.pkce_verifier)) + seq![34u8]).is_prefix_of(
            bytes.subrange(encode_utf8("{\"pkce_verifier\":\""@).len() as int, bytes.len() as int),
        ),
        encode_utf8(",\"csrf_token\":\""@).is_prefix_of(
            bytes.subrange(sj_p2(s0), bytes.len() as int),
        ),
        (json_escaped(encode_utf8(s0.csrf_token)) + seq![34u8]).is_prefix_of(
            bytes.subrange(
                sj_p2(s0) + encode_utf8(",\"csrf_token\":\""@).len(),
                bytes.len() as int,
            ),
        ),
        encode_utf8(",\"nonce\":\""@).is_prefix_of(bytes.subrange(sj_p4(s0), bytes.len() as int)),
        (json_escaped(encode_utf8(s0.nonce)) + seq![34u8]).is_prefix_of(
            bytes.subrange(sj_p4(s0) + encode_utf8(",\"nonce\":\""@).len(), bytes.len() as int),
        ),
        bytes[sj_p6(s0)] == 125,
{
    reveal(session_json);
    let l1 = encode_utf8("{\"pkce_verifier\":\""@);
    let e1 = json_escaped(encode_utf8(s0.pkce_verifier));
    let l2 = encode_utf8(",\"csrf_token\":\""@);
    let e2 = json_escaped(encode_utf8(s0.csrf_token));
    let l3 = encode_utf8(",\"nonce\":\""@);
    let e3 = json_escaped(encode_utf8(s0.nonce));
    let q = seq![34u8];
    let close = seq![125u8];
    let e = bytes.len() as int;

    let g0 = l1;
    let g1 = g0 + e1;
    let g2 = g1 + q;
    let g3 = g2 + l2;
    let g4 = g3 + e2;
    let g5 = g4 + q;
    let g6 = g5 + l3;
    let g7 = g6 + e3;
    let g8 = g7 + q;
    assert(bytes == g8 + close);
    lemma_split_concat(bytes, g8, close);
    assert(bytes.subrange(0, g8.len() as int) =~= g8);
    lemma_split_concat(g8, g7, q);
    assert(bytes.subrange(0, g7.len() as int) =~= g7);
    lemma_split_concat(g7, g6, e3);
    assert(bytes.subrange(0, g6.len() as int) =~= g6);
    lemma_split_concat(g6, g5, l3);
    assert(bytes.subrange(0, g5.len() as int) =~= g5);
    lemma_split_concat(g5, g4, q);
    assert(bytes.subrange(0, g4.len() as int) =~= g4);
    lemma_split_concat(g4, g3, e2);
    assert(bytes.subrange(0, g3.len() as int) =~= g3);
    lemma_split_concat(g3, g2, l2);
    assert(bytes.subrange(0, g2.len() as int) =~= g2);
    lemma_split_concat(g2, g1, q);
    assert(bytes.subrange(0, g1.len() as int) =~= g1);
    lemma_split_concat(g1, g0, e1);
    assert(bytes.subrange(0, g0.len() as int) =~= g0);

    let p1 = l1.len() as int;
    let p2 = p1 + e1.len() + 1;
    let p3 = p2 + l2.len();
    let p4 = p3 + e2.len() + 1;
    let p5 = p4 + l3.len();
    let p6 = p5 + e3.len() + 1;
    assert(p2 == sj_p2(s0) && p4 == sj_p4(s0) && p6 == sj_p6(s0));

    assert(l1.is_prefix_of(bytes)) by {
        assert(bytes.subrange(0, p1) =~= g0);
    }
    assert((e1 + q).is_prefix_of(bytes.subrange(p1, e))) by {
        assert(bytes.subrange(p1, e).subrange(0, e1.len() as int + 1) =~= bytes.subrange(p1, p2));
        assert(bytes.subrange(p1, p2) =~= g2.subrange(p1, p2));
        assert(g2.subrange(p1, p2) =~= e1 + q);
    }
    assert(l2.is_prefix_of(bytes.subrange(p2, e))) by {
        assert(bytes.subrange(p2, e).subrange(0, l2.len() as int) =~= bytes.subrange(p2, p3));
        assert(bytes.subrange(p2, p3) =~= g3.subrange(p2, p3));
        assert(g3.subrange(p2, p3) =~= l2);
    }
    assert((e2 + q).is_prefix_of(bytes.subrange(p3, e))) by {
        assert(bytes.subrange(p3, e).subrange(0, e2.len() as int + 1) =~= bytes.subrange(p3, p4));
        assert(bytes.subrange(p3, p4) =~= g5.subrange(p3, p4));
        assert(g5.subrange(p3, p4) =~= e2 + q);
    }
    assert(l3.is_prefix_of(bytes.subrange(p4, e))) by {
        assert(bytes.subrange(p4, e).subrange(0, l3.len() as int) =~= bytes.subrange(p4, p5));
        assert(bytes.subrange(p4, p5) =~= g6.subrange(p4, p5));
        assert(g6.subrange(p4, p5) =~= l3);
    }
    assert((e3 + q).is_prefix_of(bytes.subrange(p5, e))) by {
        assert(bytes.subrange(p5, e).subrange(0, e3.len() as int + 1) =~= bytes.subrange(p5, p6));
        assert(bytes.subrange(p5, p6) =~= g8.subrange(p5, p6));
        assert(g8.subrange(p5, p6) =~= e3 + q);
    }
    assert(bytes[p6] == 125) by {
        assert(bytes[p6] == close[0]);
    }
}

/// The three fields of the canonical session JSON, in front of the
/// closing brace.
pub open spec fn session_head_bytes(pk: Seq<u8>, cs: Seq<u8>, no: Seq<u8>) -> Seq<u8> {
    encode_utf8("{\"pkce_verifier\":\""@) + (json_escaped(pk) + seq![34u8]) + encode_utf8(
        ",\"csrf_token\":\""@,
    ) + (json_escaped(cs) + seq![34u8]) + encode_utf8(",\"nonce\":\""@) + (json_escaped(no) + seq![
        34u8,
    ])
}

/// Parse the three string fields of the canonical session JSON.
#[verifier::rlimit(100)]
#[verifier::spinoff_prover]
fn parse_session_head(bytes: &Vec<u8>) -> (r: Option<(Vec<u8>, Vec<u8>, Vec<u8>, usize)>)
    ensures
        r matches Some(t) ==> t.3 <= bytes@.len() && bytes@.subrange(0, t.3 as int)
            == session_head_bytes(t.0@, t.1@, t.2@),
        r matches Some(t) ==> forall|s0: OidcSessionView|
            bytes@ == session_json(s0) ==> t.0@ == encode_utf8(s0.pkce_verifier) && t.1@
                == encode_utf8(s0.csrf_token) && t.2@ == encode_utf8(s0.nonce) && t.3 == sj_p6(s0),
        r is None ==> forall|s0: OidcSessionView| bytes@ != session_json(s0),
{
    let e = bytes.len();
    let (pk_b, p2) = match parse_field(bytes, 0, "{\"pkce_verifier\":\"") {
        Some(t) => t,
        None => {
            proof {
                assert forall|s0: OidcSessionView| bytes@ != session_json(s0) by {
                    if bytes@ == session_json(s0) {
                        lemma_session_layout(bytes@, s0);
                        assert(bytes@.subrange(0, e as int) =~= bytes@);
                    }
                }
            }
            return None;
        },
    };
    let (cs_b, p4) = match parse_field(bytes, p2, ",\"csrf_token\":\"") {
        Some(t) => t,
        None => {
            proof {
                assert forall|s0: OidcSessionView| bytes@ != session_json(s0) by {
                    if bytes@ == session_json(s0) {
                        lemma_session_layout(bytes@, s0);
                        assert(bytes@.subrange(0, e as int) =~= bytes@);
                    }
                }
            }
            return None;
        },
    };
    let (no_b, p6) = match parse_field(bytes, p4, ",\"nonce\":\"") {
        Some(t) => t,
        None => {
            proof {
                assert forall|s0: OidcSessionView| bytes@ != session_json(s0) by {
                    if bytes@ == session_json(s0) {
                        lemma_session_layout(bytes@, s0);
                        assert(bytes@.subrange(0, e as int) =~= bytes@);
                    }
                }
            }
            return None;
        },
    };
    proof {
        let b = bytes@;
        let a2 = b.subrange(0, p2 as int);
        let a4 = b.subrange(0, p4 as int);
        let a6 = b.subrange(0, p6 as int);
        assert(a4 =~= a2 + b.subrange(p2 as int, p4 as int));
        assert(a6 =~= a4 + b.subrange(p4 as int, p6 as int));
        assert(a6 == session_head_bytes(pk_b@, cs_b@, no_b@));
        assert forall|s0: OidcSessionView| bytes@ == session_json(s0) implies pk_b@ == encode_utf8(
            s0.pkce_verifier,
        ) && cs_b@ == encode_utf8(s0.csrf_token) && no_b@ == encode_utf8(s0.nonce) && p6 == sj_p6(
            s0,
        ) by {
            lemma_session_layout(bytes@, s0);
            assert(bytes@.subrange(0, bytes@.len() as int) =~= bytes@);
        }
    }
    Some((pk_b, cs_b, no_b, p6))
}

/// Parse the canonical session JSON; anything else is rejected. Decoding
/// inverts `session_to_json`.
#[verifier::rlimit(100)]
#[verifier::spinoff_prover]
pub fn parse_session_json(bytes: &Vec<u8>) -> (r: Option<OidcSession>)
    ensures
        r matches Some(s) ==> bytes@ == session_json(s@),
        r matches Some(s) ==> forall|s0: OidcSessionView| bytes@ == session_json(s0) ==> s@ == s0,
        r is None ==> forall|s0: OidcSessionView| bytes@ != session_json(s0),
{
    let e = bytes.len();
    let (pk_b, cs_b, no_b, p6) = match parse_session_head(bytes) {
        Some(t) => t,
        None => {
            return None;
        },
    };
    if !(p6 < e && p6 + 1 == e && bytes[p6] == 125) {
        proof {
            assert forall|s0: OidcSessionView| bytes@ != session_json(s0) by {
                if bytes@ == session_json(s0) {
                    lemma_session_layout(bytes@, s0);
                }
            }
        }
        return None;
    }
    let pkce_verifier = match string_from_utf8(pk_b) {
        Some(s) => s,
        None => {
            proof {
                assert forall|s0: OidcSessionView| bytes@ != session_json(s0) by {
                    if bytes@ == session_json(s0) {
                        vstd::utf8::encode_utf8_valid_utf8(s0.pkce_verifier);
                    }
                }
            }
            return None;
        },
    };
    let csrf_token = match string_from_utf8(cs_b) {
        Some(s) => s,
        None => {
            proof {
                assert forall|s0: OidcSessionView| bytes@ != session_json(s0) by {
                    if bytes@ == session_json(s0) {
                        vstd::utf8::encode_utf8_valid_utf8(s0.csrf_token);
                    }
                }
            }
            return None;
        },
    };
    let nonce = match string_from_utf8(no_b) {
        Some(s) => s,
        None => {
            proof {
                assert forall|s0: OidcSessionView| bytes@ != session_json(s0) by {
                    if bytes@ == session_json(s0) {
                        vstd::utf8::encode_utf8_valid_utf8(s0.nonce);
                    }
                }
            }
            return None;
        },
    };
    let out = OidcSession { pkce_verifier, csrf_token, nonce };
    proof {
        vstd::utf8::decode_utf8_encode_utf8(pk_b@);
        vstd::utf8::decode_utf8_encode_utf8(cs_b@);
        vstd::utf8::decode_utf8_encode_utf8(no_b@);
        let b = bytes@;
        let a6 = b.subrange(0, p6 as int);
        assert(b =~= a6 + seq![125u8]);
        assert(b == session_json(out@)) by {
            reveal(session_json);
        }
        assert forall|s0: OidcSessionView| bytes@ == session_json(s0) implies out@ == s0 by {
            vstd::utf8::encode_utf8_decode_utf8(s0.pkce_verifier);
            vstd::utf8::encode_utf8_decode_utf8(s0.csrf_token);
            vstd::utf8::encode_utf8_decode_utf8(s0.nonce);
        }
    }
    Some(out)
}

} // verus!
