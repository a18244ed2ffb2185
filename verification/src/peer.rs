//! Peer addresses: the network endpoint of one node's sync listener, as an
//! IPv4 host and port, with its canonical text form `a.b.c.d:port`.
//!
//! Rendering and parsing are exact inverses: parsing accepts precisely the
//! canonical renders (decimal components, no leading zeros, no padding),
//! and returns the address whose render the input is.

use vstd::prelude::*;

use crate::utf8::check_utf8;
use crate::utf8::is_valid_utf8;
use crate::utf8::lemma_ascii_is_valid_utf8;

verus! {

/// A network endpoint identifying one node's sync listener.
#[derive(Clone, Copy, Debug, PartialEq, Eq, Structural)]
pub struct PeerAddress {
    pub a: u8,
    pub b: u8,
    pub c: u8,
    pub d: u8,
    pub port: u16,
}

/// Why a peer registration body was rejected.
#[derive(Clone, Copy, Debug, PartialEq, Eq, Structural)]
pub enum AddressError {
    /// The bytes are not valid UTF-8 text.
    NotUtf8,
    /// The text does not spell a socket address.
    NotAnAddress,
}

/// An ASCII decimal digit.
pub open spec fn is_digit(b: u8) -> bool {
    0x30 <= b <= 0x39
}

/// The shortest ASCII decimal spelling of a number: no leading zeros.
pub open spec fn dec_rep(n: int) -> Seq<u8>
    decreases n,
{
    if n < 10 {
        seq![(0x30 + n) as u8]
    } else {
        dec_rep(n / 10).push((0x30 + n % 10) as u8)
    }
}

/// The number spelled by a sequence of ASCII decimal digits.
pub open spec fn dec_val(s: Seq<u8>) -> int
    decreases s.len(),
{
    if s.len() == 0 {
        0
    } else {
        10 * dec_val(s.drop_last()) + (s.last() - 0x30)
    }
}

/// Powers of ten.
pub open spec fn pow10(k: nat) -> int
    decreases k,
{
    if k == 0 {
        1
    } else {
        10 * pow10((k - 1) as nat)
    }
}

/// A decimal spelling consists of digits, is never empty, and never starts
/// with a superfluous zero.
pub proof fn lemma_dec_rep_digits(n: int)
    requires
        0 <= n,
    ensures
        dec_rep(n).len() >= 1,
        forall|i: int| 0 <= i < dec_rep(n).len() ==> is_digit(#[trigger] dec_rep(n)[i]),
        dec_rep(n)[0] == 0x30 ==> n == 0,
    decreases n,
{
    if n >= 10 {
        lemma_dec_rep_digits(n / 10);
        assert forall|i: int| 0 <= i < dec_rep(n).len() implies is_digit(
            #[trigger] dec_rep(n)[i],
        ) by {
            if i < dec_rep(n / 10).len() {
                assert(dec_rep(n)[i] == dec_rep(n / 10)[i]);
            }
        }
        assert(n / 10 >= 1);
    }
}

/// Reading a decimal spelling back gives the number it spells.
pub proof fn lemma_dec_val_of_rep(n: int)
    requires
        0 <= n,
    ensures
        dec_val(dec_rep(n)) == n,
    decreases n,
{
    if n < 10 {
        assert(dec_rep(n).drop_last() =~= Seq::<u8>::empty());
        assert(dec_val(Seq::<u8>::empty()) == 0);
        assert(dec_rep(n).last() == (0x30 + n) as u8);
    } else {
        lemma_dec_val_of_rep(n / 10);
        assert(dec_rep(n).drop_last() =~= dec_rep(n / 10));
    }
}

/// A digit string of width `k` spells a number below the `k`-th power of ten.
pub proof fn lemma_dec_val_bound(s: Seq<u8>)
    requires
        forall|i: int| 0 <= i < s.len() ==> is_digit(#[trigger] s[i]),
    ensures
        0 <= dec_val(s) < pow10(s.len()),
    decreases s.len(),
{
    if s.len() > 0 {
        lemma_dec_val_bound(s.drop_last());
    }
}

/// A number below the `k`-th power of ten is spelled in at most `k` digits.
pub proof fn lemma_dec_rep_len(n: int, k: nat)
    requires
        0 <= n < pow10(k),
        1 <= k,
    ensures
        dec_rep(n).len() <= k,
    decreases k,
{
    if n >= 10 {
        assert(pow10(k) == 10 * pow10((k - 1) as nat));
        lemma_dec_rep_len(n / 10, (k - 1) as nat);
    }
}

/// The canonical text form of a peer address: `a.b.c.d:port` in shortest
/// decimal, as bytes.
pub open spec fn spec_render_addr(p: PeerAddress) -> Seq<u8> {
    dec_rep(p.a as int) + seq![0x2Eu8] + dec_rep(p.b as int) + seq![0x2Eu8] + dec_rep(
        p.c as int,
    ) + seq![0x2Eu8] + dec_rep(p.d as int) + seq![0x3Au8] + dec_rep(p.port as int)
}

/// Appends the shortest decimal spelling of a number.
fn push_dec(out: &mut Vec<u8>, n: u16)
    ensures
        final(out)@ == old(out)@ + dec_rep(n as int),
    decreases n,
{
    if n < 10 {
        out.push(0x30 + n as u8);
        assert(out@ =~= old(out)@ + dec_rep(n as int));
    } else {
        push_dec(out, n / 10);
        out.push(0x30 + (n % 10) as u8);
        assert(out@ =~= old(out)@ + dec_rep(n as int));
    }
}

/// A maximal digit run that starts a decimal spelling followed by a
/// non-digit covers exactly that spelling.
proof fn lemma_digit_run(bytes: Seq<u8>, from: int, pos: int, n: int, tail: Seq<u8>)
    requires
        0 <= from <= pos <= bytes.len(),
        forall|k: int| from <= k < pos ==> is_digit(#[trigger] bytes[k]),
        pos == bytes.len() || !is_digit(bytes[pos]),
        0 <= n,
        bytes.skip(from) == dec_rep(n) + tail,
        tail.len() == 0 || !is_digit(tail[0]),
    ensures
        pos - from == dec_rep(n).len(),
        bytes.subrange(from, pos) == dec_rep(n),
{
    lemma_dec_rep_digits(n);
    let rep = dec_rep(n);
    let l = rep.len() as int;
    assert(bytes.skip(from).len() == bytes.len() - from);
    assert((rep + tail).len() == l + tail.len());
    assert(bytes.len() - from == l + tail.len());
    if pos - from < l {
        assert(bytes[pos] == bytes.skip(from)[pos - from]);
        assert((rep + tail)[pos - from] == rep[pos - from]);
        assert(is_digit(bytes[pos]));
        assert(false);
    }
    if pos - from > l {
        if tail.len() == 0 {
            assert(false);
        } else {
            assert(bytes[from + l] == bytes.skip(from)[l]);
            assert((rep + tail)[l] == tail[0]);
            assert(is_digit(bytes[from + l]));
            assert(false);
        }
    }
    assert(bytes.subrange(from, pos) =~= rep) by {
        assert forall|i: int| 0 <= i < pos - from implies bytes.subrange(from, pos)[i]
            == rep[i] by {
            assert(bytes.subrange(from, pos)[i] == bytes[from + i]);
            assert(bytes[from + i] == bytes.skip(from)[i]);
            assert((rep + tail)[i] == rep[i]);
        }
    }
}

/// Powers of ten are positive.
proof fn lemma_pow10_pos(k: nat)
    ensures
        1 <= pow10(k),
    decreases k,
{
    if k > 0 {
        lemma_pow10_pos((k - 1) as nat);
    }
}

/// Powers of ten do not shrink as the exponent grows.
proof fn lemma_pow10_mono(k1: nat, k2: nat)
    requires
        k1 <= k2,
    ensures
        pow10(k1) <= pow10(k2),
        1 <= pow10(k1),
    decreases k2,
{
    lemma_pow10_pos(k1);
    if k1 < k2 {
        lemma_pow10_mono(k1, (k2 - 1) as nat);
        lemma_pow10_pos((k2 - 1) as nat);
    }
}

/// Scans the maximal decimal digit run at `from`, of at most five digits,
/// and returns its value and the position after it. Wherever the input at
/// `from` starts with the spelling of a number up to 65535 followed by a
/// non-digit, the scan returns exactly that number and that boundary.
fn scan_dec(bytes: &Vec<u8>, from: usize) -> (r: Option<(u32, usize)>)
    requires
        from <= bytes@.len(),
    ensures
        forall|n: int, tail: Seq<u8>|
            (0 <= n <= 65535 && bytes@.skip(from as int) == #[trigger] (dec_rep(n) + tail) && (
            tail.len() == 0 || !is_digit(tail[0]))) ==> r == Some(
                (n as u32, (from + dec_rep(n).len()) as usize),
            ),
        r matches Some(t) ==> from < t.1 <= bytes@.len() && t.0 == dec_val(
            bytes@.subrange(from as int, t.1 as int),
        ),
{
    let len: usize = bytes.len();
    let mut pos: usize = from;
    while pos < len && bytes[pos] >= 0x30 && bytes[pos] <= 0x39
        invariant
            from <= pos <= len,
            len == bytes@.len(),
            forall|k: int| from <= k < pos ==> is_digit(#[trigger] bytes@[k]),
        decreases len - pos,
    {
        pos = pos + 1;
    }
    if pos == from || pos - from > 5 {
        proof {
            assert forall|n: int, tail: Seq<u8>|
                !(0 <= n <= 65535 && bytes@.skip(from as int) == #[trigger] (dec_rep(n) + tail)
                    && (tail.len() == 0 || !is_digit(tail[0]))) by {
                if 0 <= n <= 65535 && bytes@.skip(from as int) == dec_rep(n) + tail && (tail.len()
                    == 0 || !is_digit(tail[0])) {
                    lemma_digit_run(bytes@, from as int, pos as int, n, tail);
                    assert(pow10(5) == 100000) by {
                        reveal_with_fuel(pow10, 6);
                    };
                    lemma_dec_rep_len(n, 5);
                    assert(false);
                }
            }
        }
        return None;
    }
    let mut value: u32 = 0;
    let mut j: usize = from;
    while j < pos
        invariant
            from <= j <= pos <= len,
            len == bytes@.len(),
            pos - from <= 5,
            forall|k: int| from <= k < pos ==> is_digit(#[trigger] bytes@[k]),
            value == dec_val(bytes@.subrange(from as int, j as int)),
            value < 100000,
        decreases pos - j,
    {
        proof {
            lemma_dec_val_bound(bytes@.subrange(from as int, j + 1));
            assert(pow10(5) == 100000) by {
                reveal_with_fuel(pow10, 6);
            };
            lemma_pow10_mono((j + 1 - from) as nat, 5);
            assert(bytes@.subrange(from as int, j + 1).drop_last() =~= bytes@.subrange(
                from as int,
                j as int,
            ));
            assert(bytes@.subrange(from as int, j + 1).last() == bytes@[j as int]);
        }
        let d = bytes[j];
        value = value * 10 + ((d - 0x30) as u32);
        j = j + 1;
    }
    proof {
        assert forall|n: int, tail: Seq<u8>|
            (0 <= n <= 65535 && bytes@.skip(from as int) == #[trigger] (dec_rep(n) + tail) && (
            tail.len() == 0 || !is_digit(tail[0]))) implies Some((value, pos)) == Some(
                (n as u32, (from + dec_rep(n).len()) as usize),
            ) by {
            lemma_digit_run(bytes@, from as int, pos as int, n, tail);
            lemma_dec_val_of_rep(n);
            assert(bytes@.subrange(from as int, pos as int) == dec_rep(n));
            assert(value == n);
        }
    }
    Some((value, pos))
}

/// How a render decomposes: each decimal component, with its trailing
/// separator, begins where the previous one ended.
#[verifier::rlimit(100)]
#[verifier::spinoff_prover]
proof fn lemma_render_structure(s: Seq<u8>, p: PeerAddress)
    requires
        s == spec_render_addr(p),
    ensures
        ({
            let la = dec_rep(p.a as int).len() as int;
            let lb = dec_rep(p.b as int).len() as int;
            let lc = dec_rep(p.c as int).len() as int;
            let ld = dec_rep(p.d as int).len() as int;
            let lp = dec_rep(p.port as int).len() as int;
            &&& s.len() == la + lb + lc + ld + lp + 4
            &&& s.skip(0) == dec_rep(p.a as int) + (seq![0x2Eu8] + s.skip(la + 1))
            &&& s.skip(la + 1) == dec_rep(p.b as int) + (seq![0x2Eu8] + s.skip(la + lb + 2))
            &&& s.skip(la + lb + 2) == dec_rep(p.c as int) + (seq![0x2Eu8] + s.skip(
                la + lb + lc + 3,
            ))
            &&& s.skip(la + lb + lc + 3) == dec_rep(p.d as int) + (seq![0x3Au8] + s.skip(
                la + lb + lc + ld + 4,
            ))
            &&& s.skip(la + lb + lc + ld + 4) == dec_rep(p.port as int) + Seq::<u8>::empty()
        }),
{
    let da = dec_rep(p.a as int);
    let db = dec_rep(p.b as int);
    let dc = dec_rep(p.c as int);
    let dd = dec_rep(p.d as int);
    let dp = dec_rep(p.port as int);
    let la = da.len() as int;
    let lb = db.len() as int;
    let lc = dc.len() as int;
    let ld = dd.len() as int;
    let t5 = dp + Seq::<u8>::empty();
    let t4 = dd + (seq![0x3Au8] + t5);
    let t3 = dc + (seq![0x2Eu8] + t4);
    let t2 = db + (seq![0x2Eu8] + t3);
    let t1 = da + (seq![0x2Eu8] + t2);
    assert(s =~= t1);
    assert(s.skip(0) =~= s);
    lemma_skip_of_add(da, seq![0x2Eu8] + t2);
    assert(s.skip(la) == seq![0x2Eu8] + t2);
    assert(s.skip(la + 1) =~= s.skip(la).skip(1));
    lemma_skip_of_add(seq![0x2Eu8], t2);
    assert(s.skip(la + 1) == t2);
    lemma_skip_of_add(db, seq![0x2Eu8] + t3);
    assert(s.skip(la + 1).skip(lb) == seq![0x2Eu8] + t3);
    assert(s.skip(la + 1 + lb) =~= s.skip(la + 1).skip(lb));
    assert(s.skip(la + lb + 2) =~= s.skip(la + 1 + lb).skip(1));
    lemma_skip_of_add(seq![0x2Eu8], t3);
    assert(s.skip(la + lb + 2) == t3);
    lemma_skip_of_add(dc, seq![0x2Eu8] + t4);
    assert(s.skip(la + lb + 2).skip(lc) == seq![0x2Eu8] + t4);
    assert(s.skip(la + lb + 2 + lc) =~= s.skip(la + lb + 2).skip(lc));
    assert(s.skip(la + lb + lc + 3) =~= s.skip(la + lb + 2 + lc).skip(1));
    lemma_skip_of_add(seq![0x2Eu8], t4);
    assert(s.skip(la + lb + lc + 3) == t4);
    lemma_skip_of_add(dd, seq![0x3Au8] + t5);
    assert(s.skip(la + lb + lc + 3).skip(ld) == seq![0x3Au8] + t5);
    assert(s.skip(la + lb + lc + 3 + ld) =~= s.skip(la + lb + lc + 3).skip(ld));
    assert(s.skip(la + lb + lc + ld + 4) =~= s.skip(la + lb + lc + 3 + ld).skip(1));
    lemma_skip_of_add(seq![0x3Au8], t5);
    assert(s.skip(la + lb + lc + ld + 4) == t5);
}

/// Dropping the left part of a concatenation leaves the right part.
proof fn lemma_skip_of_add(x: Seq<u8>, y: Seq<u8>)
    ensures
        (x + y).skip(x.len() as int) == y,
{
    assert((x + y).skip(x.len() as int) =~= y);
}

/// Scans one decimal component and the separator after it, returning the
/// component's value and the position right past the separator. Wherever
/// the input at `from` starts with the spelling of a number up to 65535
/// followed by the separator, the scan returns exactly that number and
/// that boundary.
fn scan_component(bytes: &Vec<u8>, from: usize, sep: u8) -> (r: Option<(u32, usize)>)
    requires
        from <= bytes@.len(),
        !is_digit(sep),
    ensures
        forall|n: int, rest: Seq<u8>|
            (0 <= n <= 65535 && bytes@.skip(from as int) == #[trigger] (dec_rep(n) + (seq![sep]
                + rest))) ==> r == Some((n as u32, (from + dec_rep(n).len() + 1) as usize)),
        r matches Some(t) ==> from < t.1 <= bytes@.len(),
{
    let len: usize = bytes.len();
    let s = scan_dec(bytes, from);
    if s.is_none() {
        proof {
            assert forall|n: int, rest: Seq<u8>|
                !(0 <= n <= 65535 && bytes@.skip(from as int) == #[trigger] (dec_rep(n) + (seq![
                    sep,
                ] + rest))) by {
                if 0 <= n <= 65535 && bytes@.skip(from as int) == dec_rep(n) + (seq![sep]
                    + rest) {
                    assert((seq![sep] + rest)[0] == sep);
                    assert(false);
                }
            }
        }
        return None;
    }
    let (v, q) = s.unwrap();
    if q == len || bytes[q] != sep {
        proof {
            assert forall|n: int, rest: Seq<u8>|
                !(0 <= n <= 65535 && bytes@.skip(from as int) == #[trigger] (dec_rep(n) + (seq![
                    sep,
                ] + rest))) by {
                if 0 <= n <= 65535 && bytes@.skip(from as int) == dec_rep(n) + (seq![sep]
                    + rest) {
                    let l = dec_rep(n).len() as int;
                    assert((seq![sep] + rest)[0] == sep);
                    assert(bytes@.skip(from as int).len() == bytes@.len() - from);
                    assert((dec_rep(n) + (seq![sep] + rest)).len() == l + 1 + rest.len());
                    assert(from + l < bytes@.len());
                    assert(q == from + l);
                    assert(bytes@[q as int] == bytes@.skip(from as int)[l]);
                    assert((dec_rep(n) + (seq![sep] + rest))[l] == sep);
                    assert(false);
                }
            }
        }
        return None;
    }
    proof {
        assert forall|n: int, rest: Seq<u8>|
            (0 <= n <= 65535 && bytes@.skip(from as int) == #[trigger] (dec_rep(n) + (seq![sep]
                + rest))) implies Some((v, (q + 1) as usize)) == Some(
                (n as u32, (from + dec_rep(n).len() + 1) as usize),
            ) by {
            assert((seq![sep] + rest)[0] == sep);
            assert(bytes@.skip(from as int).len() == bytes@.len() - from);
            assert((dec_rep(n) + (seq![sep] + rest)).len() == dec_rep(n).len() + 1 + rest.len());
            assert(from + dec_rep(n).len() < bytes@.len());
            assert(v == n as u32 && q == from + dec_rep(n).len());
        }
    }
    Some((v, q + 1))
}

/// Parses the overall shape `digits.digits.digits.digits:digits`
/// leniently: zero padding and out-of-range components are left to the
/// caller's canonicality check. On any canonical render the parse
/// recovers exactly the rendered address.
#[verifier::rlimit(100)]
#[verifier::spinoff_prover]
fn raw_parse(bytes: &Vec<u8>) -> (r: Option<PeerAddress>)
    ensures
        forall|p: PeerAddress| bytes@ == spec_render_addr(p) ==> r == Some(p),
{
    let len: usize = bytes.len();
    let s1 = scan_component(bytes, 0, 0x2E);
    if s1.is_none() {
        proof {
            assert forall|p: PeerAddress| bytes@ != spec_render_addr(p) by {
                if bytes@ == spec_render_addr(p) {
                    lemma_render_structure(bytes@, p);
                    let la = dec_rep(p.a as int).len() as int;
                    assert(bytes@.skip(0) == dec_rep(p.a as int) + (seq![0x2Eu8] + bytes@.skip(
                        la + 1,
                    )));
                    assert(false);
                }
            }
        }
        return None;
    }
    let (va, q1) = s1.unwrap();
    let s2 = scan_component(bytes, q1, 0x2E);
    if s2.is_none() {
        proof {
            assert forall|p: PeerAddress| bytes@ != spec_render_addr(p) by {
                if bytes@ == spec_render_addr(p) {
                    lemma_render_structure(bytes@, p);
                    let la = dec_rep(p.a as int).len() as int;
                    let lb = dec_rep(p.b as int).len() as int;
                    assert(bytes@.skip(0) == dec_rep(p.a as int) + (seq![0x2Eu8] + bytes@.skip(
                        la + 1,
                    )));
                    assert(q1 == la + 1);
                    assert(bytes@.skip(la + 1) == dec_rep(p.b as int) + (seq![0x2Eu8]
                        + bytes@.skip(la + lb + 2)));
                    assert(false);
                }
            }
        }
        return None;
    }
    let (vb, q2) = s2.unwrap();
    let s3 = scan_component(bytes, q2, 0x2E);
    if s3.is_none() {
        proof {
            assert forall|p: PeerAddress| bytes@ != spec_render_addr(p) by {
                if bytes@ == spec_render_addr(p) {
                    lemma_render_structure(bytes@, p);
                    let la = dec_rep(p.a as int).len() as int;
                    let lb = dec_rep(p.b as int).len() as int;
                    let lc = dec_rep(p.c as int).len() as int;
                    assert(bytes@.skip(0) == dec_rep(p.a as int) + (seq![0x2Eu8] + bytes@.skip(
                        la + 1,
                    )));
                    assert(q1 == la + 1);
                    assert(bytes@.skip(la + 1) == dec_rep(p.b as int) + (seq![0x2Eu8]
                        + bytes@.skip(la + lb + 2)));
                    assert(q2 == la + lb + 2);
                    assert(bytes@.skip(la + lb + 2) == dec_rep(p.c as int) + (seq![0x2Eu8]
                        + bytes@.skip(la + lb + lc + 3)));
                    assert(false);
                }
            }
        }
        return None;
    }
    let (vc, q3) = s3.unwrap();
    let s4 = scan_component(bytes, q3, 0x3A);
    if s4.is_none() {
        proof {
            assert forall|p: PeerAddress| bytes@ != spec_render_addr(p) by {
                if bytes@ == spec_render_addr(p) {
                    lemma_render_structure(bytes@, p);
                    let la = dec_rep(p.a as int).len() as int;
                    let lb = dec_rep(p.b as int).len() as int;
                    let lc = dec_rep(p.c as int).len() as int;
                    let ld = dec_rep(p.d as int).len() as int;
                    assert(bytes@.skip(0) == dec_rep(p.a as int) + (seq![0x2Eu8] + bytes@.skip(
                        la + 1,
                    )));
                    assert(q1 == la + 1);
                    assert(bytes@.skip(la + 1) == dec_rep(p.b as int) + (seq![0x2Eu8]
                        + bytes@.skip(la + lb + 2)));
                    assert(q2 == la + lb + 2);
                    assert(bytes@.skip(la + lb + 2) == dec_rep(p.c as int) + (seq![0x2Eu8]
                        + bytes@.skip(la + lb + lc + 3)));
                    assert(q3 == la + lb + lc + 3);
                    assert(bytes@.skip(la + lb + lc + 3) == dec_rep(p.d as int) + (seq![0x3Au8]
                        + bytes@.skip(la + lb + lc + ld + 4)));
                    assert(false);
                }
            }
        }
        return None;
    }
    let (vd, q4) = s4.unwrap();
    let s5 = scan_dec(bytes, q4);
    if s5.is_none() {
        proof {
            assert forall|p: PeerAddress| bytes@ != spec_render_addr(p) by {
                if bytes@ == spec_render_addr(p) {
                    lemma_render_structure(bytes@, p);
                    let la = dec_rep(p.a as int).len() as int;
                    let lb = dec_rep(p.b as int).len() as int;
                    let lc = dec_rep(p.c as int).len() as int;
                    let ld = dec_rep(p.d as int).len() as int;
                    assert(bytes@.skip(0) == dec_rep(p.a as int) + (seq![0x2Eu8] + bytes@.skip(
                        la + 1,
                    )));
                    assert(q1 == la + 1);
                    assert(bytes@.skip(la + 1) == dec_rep(p.b as int) + (seq![0x2Eu8]
                        + bytes@.skip(la + lb + 2)));
                    assert(q2 == la + lb + 2);
                    assert(bytes@.skip(la + lb + 2) == dec_rep(p.c as int) + (seq![0x2Eu8]
                        + bytes@.skip(la + lb + lc + 3)));
                    assert(q3 == la + lb + lc + 3);
                    assert(bytes@.skip(la + lb + lc + 3) == dec_rep(p.d as int) + (seq![0x3Au8]
                        + bytes@.skip(la + lb + lc + ld + 4)));
                    assert(q4 == la + lb + lc + ld + 4);
                    assert(bytes@.skip(la + lb + lc + ld + 4) == dec_rep(p.port as int)
                        + Seq::<u8>::empty());
                    assert(false);
                }
            }
        }
        return None;
    }
    let (vp, q5) = s5.unwrap();
    if q5 != len || va > 255 || vb > 255 || vc > 255 || vd > 255 || vp > 65535 {
        proof {
            assert forall|p: PeerAddress| bytes@ != spec_render_addr(p) by {
                if bytes@ == spec_render_addr(p) {
                    lemma_render_structure(bytes@, p);
                    let la = dec_rep(p.a as int).len() as int;
                    let lb = dec_rep(p.b as int).len() as int;
                    let lc = dec_rep(p.c as int).len() as int;
                    let ld = dec_rep(p.d as int).len() as int;
                    let lp = dec_rep(p.port as int).len() as int;
                    assert(bytes@.skip(0) == dec_rep(p.a as int) + (seq![0x2Eu8] + bytes@.skip(
                        la + 1,
                    )));
                    assert(q1 == la + 1);
                    assert(bytes@.skip(la + 1) == dec_rep(p.b as int) + (seq![0x2Eu8]
                        + bytes@.skip(la + lb + 2)));
                    assert(q2 == la + lb + 2);
                    assert(bytes@.skip(la + lb + 2) == dec_rep(p.c as int) + (seq![0x2Eu8]
                        + bytes@.skip(la + lb + lc + 3)));
                    assert(q3 == la + lb + lc + 3);
                    assert(bytes@.skip(la + lb + lc + 3) == dec_rep(p.d as int) + (seq![0x3Au8]
                        + bytes@.skip(la + lb + lc + ld + 4)));
                    assert(q4 == la + lb + lc + ld + 4);
                    assert(bytes@.skip(la + lb + lc + ld + 4) == dec_rep(p.port as int)
                        + Seq::<u8>::empty());
                    assert(q5 == la + lb + lc + ld + 4 + lp);
                    assert(va == p.a as u32 && vb == p.b as u32 && vc == p.c as u32 && vd == p.d
                        as u32 && vp == p.port as u32);
                    assert(false);
                }
            }
        }
        return None;
    }
    let found = PeerAddress {
        a: va as u8,
        b: vb as u8,
        c: vc as u8,
        d: vd as u8,
        port: vp as u16,
    };
    proof {
        assert forall|p: PeerAddress| bytes@ == spec_render_addr(p) implies Some(found) == Some(
            p,
        ) by {
            lemma_render_structure(bytes@, p);
            let la = dec_rep(p.a as int).len() as int;
            let lb = dec_rep(p.b as int).len() as int;
            let lc = dec_rep(p.c as int).len() as int;
            let ld = dec_rep(p.d as int).len() as int;
            assert(bytes@.skip(0) == dec_rep(p.a as int) + (seq![0x2Eu8] + bytes@.skip(la + 1)));
            assert(q1 == la + 1 && va == p.a as u32);
            assert(bytes@.skip(la + 1) == dec_rep(p.b as int) + (seq![0x2Eu8] + bytes@.skip(
                la + lb + 2,
            )));
            assert(q2 == la + lb + 2 && vb == p.b as u32);
            assert(bytes@.skip(la + lb + 2) == dec_rep(p.c as int) + (seq![0x2Eu8] + bytes@.skip(
                la + lb + lc + 3,
            )));
            assert(q3 == la + lb + lc + 3 && vc == p.c as u32);
            assert(bytes@.skip(la + lb + lc + 3) == dec_rep(p.d as int) + (seq![0x3Au8]
                + bytes@.skip(la + lb + lc + ld + 4)));
            assert(q4 == la + lb + lc + ld + 4 && vd == p.d as u32);
            assert(bytes@.skip(la + lb + lc + ld + 4) == dec_rep(p.port as int)
                + Seq::<u8>::empty());
            assert(vp == p.port as u32);
            assert(found == p);
        }
    }
    Some(found)
}

/// Parses a peer address from a registration body. Accepts exactly the
/// canonical renders: valid UTF-8, shape `a.b.c.d:port`, shortest decimal
/// components in range. Tells bytes that are not UTF-8 text apart from
/// text that is not an address.
pub fn parse_peer_address(bytes: &Vec<u8>) -> (r: Result<PeerAddress, AddressError>)
    ensures
        r matches Ok(p) ==> bytes@ == spec_render_addr(p),
        forall|p: PeerAddress| bytes@ == spec_render_addr(p) ==> r == Ok::<
            PeerAddress,
            AddressError,
        >(p),
        r == Err::<PeerAddress, AddressError>(AddressError::NotUtf8) <==> !is_valid_utf8(bytes@),
{
    if !check_utf8(bytes) {
        proof {
            assert forall|p: PeerAddress| bytes@ != spec_render_addr(p) by {
                if bytes@ == spec_render_addr(p) {
                    lemma_render_charset(p);
                    lemma_ascii_is_valid_utf8(bytes@);
                    assert(false);
                }
            }
        }
        return Err(AddressError::NotUtf8);
    }
    let parsed = raw_parse(bytes);
    let candidate = match parsed {
        Some(c) => c,
        None => {
            return Err(AddressError::NotAnAddress);
        },
    };
    let rendered = render_peer_address(&candidate);
    if bytes_eq(&rendered, bytes) {
        Ok(candidate)
    } else {
        Err(AddressError::NotAnAddress)
    }
}

/// Compares two byte strings for equality.
pub fn bytes_eq(x: &Vec<u8>, y: &Vec<u8>) -> (r: bool)
    ensures
        r == (x@ == y@),
{
    if x.len() != y.len() {
        return false;
    }
    let mut i: usize = 0;
    while i < x.len()
        invariant
            i <= x@.len(),
            x@.len() == y@.len(),
            forall|k: int| 0 <= k < i ==> x@[k] == y@[k],
        decreases x@.len() - i,
    {
        if x[i] != y[i] {
            return false;
        }
        i = i + 1;
    }
    proof {
        assert(x@ =~= y@);
    }
    true
}

/// A canonical render holds only decimal digits, dots and one colon, so
/// in particular only ASCII bytes.
pub proof fn lemma_render_charset(p: PeerAddress)
    ensures
        forall|i: int| 0 <= i < spec_render_addr(p).len() ==> (is_digit(
            #[trigger] spec_render_addr(p)[i],
        ) || spec_render_addr(p)[i] == 0x2E || spec_render_addr(p)[i] == 0x3A),
        forall|i: int| 0 <= i < spec_render_addr(p).len() ==> #[trigger] spec_render_addr(p)[i]
            < 0x80,
{
    lemma_dec_rep_digits(p.a as int);
    lemma_dec_rep_digits(p.b as int);
    lemma_dec_rep_digits(p.c as int);
    lemma_dec_rep_digits(p.d as int);
    lemma_dec_rep_digits(p.port as int);
    let s = spec_render_addr(p);
    let da = dec_rep(p.a as int);
    let db = dec_rep(p.b as int);
    let dc = dec_rep(p.c as int);
    let dd = dec_rep(p.d as int);
    let dp = dec_rep(p.port as int);
    assert forall|i: int| 0 <= i < s.len() implies (is_digit(#[trigger] s[i]) || s[i] == 0x2E
        || s[i] == 0x3A) by {
        assert(s =~= da + seq![0x2Eu8] + db + seq![0x2Eu8] + dc + seq![0x2Eu8] + dd + seq![
            0x3Au8,
        ] + dp);
    }
}

/// Renders a peer address in its canonical text form.
pub fn render_peer_address(p: &PeerAddress) -> (r: Vec<u8>)
    ensures
        r@ == spec_render_addr(*p),
{
    let mut out: Vec<u8> = Vec::new();
    push_dec(&mut out, p.a as u16);
    out.push(0x2E);
    push_dec(&mut out, p.b as u16);
    out.push(0x2E);
    push_dec(&mut out, p.c as u16);
    out.push(0x2E);
    push_dec(&mut out, p.d as u16);
    out.push(0x3A);
    push_dec(&mut out, p.port);
    assert(out@ =~= spec_render_addr(*p));
    out
}


/// One peer address as a JSON string: the render between double quotes.
pub open spec fn spec_quoted(p: PeerAddress) -> Seq<u8> {
    seq![0x22u8] + (spec_render_addr(p) + seq![0x22u8])
}

/// The comma-separated JSON items of a peer list, without the brackets.
pub open spec fn spec_render_items(ps: Seq<PeerAddress>) -> Seq<u8>
    decreases ps.len(),
{
    if ps.len() == 0 {
        Seq::empty()
    } else if ps.len() == 1 {
        spec_quoted(ps[0])
    } else {
        spec_quoted(ps[0]) + (seq![0x2Cu8] + spec_render_items(ps.skip(1)))
    }
}

/// A peer list as a JSON array of address strings.
pub open spec fn spec_render_peer_list(ps: Seq<PeerAddress>) -> Seq<u8> {
    seq![0x5Bu8] + (spec_render_items(ps) + seq![0x5Du8])
}

proof fn lemma_render_items_push(ps: Seq<PeerAddress>, p: PeerAddress)
    ensures
        spec_render_items(ps.push(p)) == (if ps.len() == 0 {
            spec_quoted(p)
        } else {
            spec_render_items(ps) + (seq![0x2Cu8] + spec_quoted(p))
        }),
    decreases ps.len(),
{
    if ps.len() == 0 {
        assert(ps.push(p)[0] == p);
    } else if ps.len() == 1 {
        assert(ps.push(p).skip(1) =~= seq![p]);
        assert(spec_render_items(seq![p]) == spec_quoted(p));
        assert(spec_render_items(ps.push(p)) =~= spec_render_items(ps) + (seq![0x2Cu8]
            + spec_quoted(p)));
    } else {
        assert(ps.push(p).skip(1) =~= ps.skip(1).push(p));
        lemma_render_items_push(ps.skip(1), p);
        assert(spec_render_items(ps.push(p)) =~= spec_render_items(ps) + (seq![0x2Cu8]
            + spec_quoted(p)));
    }
}

/// Renders the full peer set as a JSON array of address strings, in order.
pub fn render_peer_list(peers: &Vec<PeerAddress>) -> (r: Vec<u8>)
    ensures
        r@ == spec_render_peer_list(peers@),
{
    let mut out: Vec<u8> = Vec::new();
    out.push(0x5B);
    proof {
        assert(out@ =~= seq![0x5Bu8] + spec_render_items(peers@.take(0)));
    }
    let mut i: usize = 0;
    while i < peers.len()
        invariant
            i <= peers@.len(),
            out@ == seq![0x5Bu8] + spec_render_items(peers@.take(i as int)),
        decreases peers@.len() - i,
    {
        if i > 0 {
            out.push(0x2C);
        }
        out.push(0x22);
        let addr = render_peer_address(&peers[i]);
        out.extend_from_slice(addr.as_slice());
        out.push(0x22);
        proof {
            lemma_render_items_push(peers@.take(i as int), peers@[i as int]);
            assert(peers@.take(i + 1) =~= peers@.take(i as int).push(peers@[i as int]));
            assert(out@ =~= seq![0x5Bu8] + spec_render_items(peers@.take(i + 1)));
        }
        i = i + 1;
    }
    out.push(0x5D);
    proof {
        assert(peers@.take(peers@.len() as int) =~= peers@);
        assert(out@ =~= spec_render_peer_list(peers@));
    }
    out
}

/// Scans one quoted address at `from` and returns it with the position
/// right past the closing quote. Wherever the input at `from` starts with
/// a quoted canonical render, the scan returns exactly that address and
/// that boundary.
#[verifier::rlimit(100)]
#[verifier::spinoff_prover]
fn scan_quoted(bytes: &Vec<u8>, from: usize) -> (r: Option<(PeerAddress, usize)>)
    requires
        from <= bytes@.len(),
    ensures
        forall|p: PeerAddress, rest: Seq<u8>|
            bytes@.skip(from as int) == #[trigger] (spec_quoted(p) + rest) ==> r == Some(
                (p, (from + spec_quoted(p).len()) as usize),
            ),
        r matches Some(t) ==> from + 2 <= t.1 <= bytes@.len() && bytes@.skip(from as int)
            == spec_quoted(t.0) + bytes@.skip(t.1 as int),
{
    let len: usize = bytes.len();
    if from == len || bytes[from] != 0x22 {
        proof {
            assert forall|p: PeerAddress, rest: Seq<u8>|
                bytes@.skip(from as int) != spec_quoted(p) + rest by {
                if bytes@.skip(from as int) == spec_quoted(p) + rest {
                    assert(bytes@.skip(from as int).len() == bytes@.len() - from);
                    assert((spec_quoted(p) + rest)[0] == 0x22);
                    assert(bytes@[from as int] == bytes@.skip(from as int)[0]);
                    assert(false);
                }
            }
        }
        return None;
    }
    let mut j: usize = from + 1;
    while j < len && bytes[j] != 0x22
        invariant
            from + 1 <= j <= len,
            len == bytes@.len(),
            forall|k: int| from + 1 <= k < j ==> bytes@[k] != 0x22,
        decreases len - j,
    {
        j = j + 1;
    }
    if j == len {
        proof {
            assert forall|p: PeerAddress, rest: Seq<u8>|
                bytes@.skip(from as int) != spec_quoted(p) + rest by {
                if bytes@.skip(from as int) == spec_quoted(p) + rest {
                    let l = spec_render_addr(p).len() as int;
                    assert(bytes@.skip(from as int).len() == bytes@.len() - from);
                    assert(spec_quoted(p).len() == l + 2);
                    assert(bytes@[from + 1 + l] == bytes@.skip(from as int)[1 + l]);
                    assert((spec_quoted(p) + rest)[1 + l] == 0x22);
                    assert(false);
                }
            }
        }
        return None;
    }
    let mut inner: Vec<u8> = Vec::new();
    let mut k: usize = from + 1;
    while k < j
        invariant
            from + 1 <= k <= j <= len,
            len == bytes@.len(),
            inner@ == bytes@.subrange(from + 1, k as int),
        decreases j - k,
    {
        inner.push(bytes[k]);
        assert(inner@ =~= bytes@.subrange(from + 1, k + 1));
        k = k + 1;
    }
    let parsed = parse_peer_address(&inner);
    match parsed {
        Ok(p) => {
            proof {
                assert(bytes@.skip(from as int) =~= spec_quoted(p) + bytes@.skip(j + 1)) by {
                    assert(inner@ == spec_render_addr(p));
                    assert(bytes@[from as int] == 0x22);
                    assert(bytes@[j as int] == 0x22);
                    assert forall|i: int| 0 <= i < bytes@.len() - from implies bytes@.skip(
                        from as int,
                    )[i] == (spec_quoted(p) + bytes@.skip(j + 1))[i] by {
                        if 1 <= i < j - from {
                            assert(bytes@[from + i] == inner@[i - 1]);
                        }
                    }
                }
                assert forall|q: PeerAddress, rest: Seq<u8>|
                    bytes@.skip(from as int) == #[trigger] (spec_quoted(q) + rest) implies Some(
                    (p, (j + 1) as usize),
                ) == Some((q, (from + spec_quoted(q).len()) as usize)) by {
                    let l = spec_render_addr(q).len() as int;
                    assert(bytes@.skip(from as int).len() == bytes@.len() - from);
                    assert(spec_quoted(q).len() == l + 2);
                    if j - from < 1 + l {
                        assert(bytes@[j as int] == bytes@.skip(from as int)[j - from]);
                        assert((spec_quoted(q) + rest)[j - from] == spec_render_addr(q)[j - from
                            - 1]);
                        lemma_render_charset(q);
                        assert(false);
                    }
                    if j - from > 1 + l {
                        assert(bytes@[from + 1 + l] == bytes@.skip(from as int)[1 + l]);
                        assert((spec_quoted(q) + rest)[1 + l] == 0x22);
                        assert(false);
                    }
                    assert(inner@ =~= spec_render_addr(q)) by {
                        assert forall|i: int| 0 <= i < l implies inner@[i] == spec_render_addr(
                            q,
                        )[i] by {
                            assert(inner@[i] == bytes@[from + 1 + i]);
                            assert(bytes@[from + 1 + i] == bytes@.skip(from as int)[1 + i]);
                            assert((spec_quoted(q) + rest)[1 + i] == spec_render_addr(q)[i]);
                        }
                    }
                    assert(parsed == Ok::<PeerAddress, AddressError>(q));
                }
            }
            Some((p, j + 1))
        },
        Err(_) => {
            proof {
                assert forall|q: PeerAddress, rest: Seq<u8>|
                    bytes@.skip(from as int) != spec_quoted(q) + rest by {
                    if bytes@.skip(from as int) == spec_quoted(q) + rest {
                        let l = spec_render_addr(q).len() as int;
                        assert(bytes@.skip(from as int).len() == bytes@.len() - from);
                        assert(spec_quoted(q).len() == l + 2);
                        if j - from < 1 + l {
                            assert(bytes@[j as int] == bytes@.skip(from as int)[j - from]);
                            assert((spec_quoted(q) + rest)[j - from] == spec_render_addr(q)[j
                                - from - 1]);
                            lemma_render_charset(q);
                            assert(false);
                        }
                        if j - from > 1 + l {
                            assert(bytes@[from + 1 + l] == bytes@.skip(from as int)[1 + l]);
                            assert((spec_quoted(q) + rest)[1 + l] == 0x22);
                            assert(false);
                        }
                        assert(inner@ =~= spec_render_addr(q)) by {
                            assert forall|i: int| 0 <= i < l implies inner@[i]
                                == spec_render_addr(q)[i] by {
                                assert(inner@[i] == bytes@[from + 1 + i]);
                                assert(bytes@[from + 1 + i] == bytes@.skip(from as int)[1 + i]);
                                assert((spec_quoted(q) + rest)[1 + i] == spec_render_addr(q)[i]);
                            }
                        }
                        assert(parsed == Ok::<PeerAddress, AddressError>(q));
                        assert(false);
                    }
                }
            }
            None
        },
    }
}


/// Parses `items ]` from `from` to the very end of the input: zero or
/// more quoted addresses separated by commas, closed by the bracket.
/// Accepts exactly the canonical item renders and recovers the items.
#[verifier::rlimit(100)]
#[verifier::spinoff_prover]
fn parse_items_from(bytes: &Vec<u8>, from: usize) -> (r: Option<Vec<PeerAddress>>)
    requires
        from <= bytes@.len(),
    ensures
        r matches Some(v) ==> bytes@.skip(from as int) == spec_render_items(v@) + seq![0x5Du8],
        forall|ps: Seq<PeerAddress>|
            bytes@.skip(from as int) == #[trigger] (spec_render_items(ps) + seq![0x5Du8]) ==> (
            r matches Some(v) && v@ == ps),
    decreases bytes@.len() - from,
{
    let len: usize = bytes.len();
    if from < len && bytes[from] == 0x5D {
        if from + 1 == len {
            let empty_list: Vec<PeerAddress> = Vec::new();
            proof {
                assert(spec_render_items(Seq::<PeerAddress>::empty()) == Seq::<u8>::empty());
                assert(bytes@.skip(from as int) =~= spec_render_items(empty_list@) + seq![
                    0x5Du8,
                ]);
                assert forall|ps: Seq<PeerAddress>|
                    bytes@.skip(from as int) == #[trigger] (spec_render_items(ps) + seq![0x5Du8])
                    implies ps == empty_list@ by {
                    if ps.len() > 0 {
                        assert((spec_render_items(ps) + seq![0x5Du8])[0] == 0x22);
                        assert(bytes@.skip(from as int)[0] == bytes@[from as int]);
                        assert(false);
                    }
                    assert(ps =~= empty_list@);
                }
            }
            return Some(empty_list);
        } else {
            proof {
                assert forall|ps: Seq<PeerAddress>|
                    bytes@.skip(from as int) != spec_render_items(ps) + seq![0x5Du8] by {
                    if bytes@.skip(from as int) == spec_render_items(ps) + seq![0x5Du8] {
                        assert(bytes@.skip(from as int).len() == bytes@.len() - from);
                        if ps.len() == 0 {
                            assert(spec_render_items(ps).len() == 0);
                            assert(false);
                        } else {
                            assert((spec_render_items(ps) + seq![0x5Du8])[0] == 0x22);
                            assert(bytes@.skip(from as int)[0] == bytes@[from as int]);
                            assert(false);
                        }
                    }
                }
            }
            return None;
        }
    }
    let sq = scan_quoted(bytes, from);
    if sq.is_none() {
        proof {
            assert forall|ps: Seq<PeerAddress>|
                bytes@.skip(from as int) != spec_render_items(ps) + seq![0x5Du8] by {
                if bytes@.skip(from as int) == spec_render_items(ps) + seq![0x5Du8] {
                    assert(bytes@.skip(from as int).len() == bytes@.len() - from);
                    if ps.len() == 0 {
                        assert(spec_render_items(ps).len() == 0);
                        assert(bytes@[from as int] == bytes@.skip(from as int)[0]);
                        assert(false);
                    } else if ps.len() == 1 {
                        assert(bytes@.skip(from as int) == spec_quoted(ps[0]) + seq![0x5Du8]);
                        assert(false);
                    } else {
                        assert(bytes@.skip(from as int) =~= spec_quoted(ps[0]) + ((seq![0x2Cu8]
                            + spec_render_items(ps.skip(1))) + seq![0x5Du8]));
                        assert(false);
                    }
                }
            }
        }
        return None;
    }
    let (p0, q) = sq.unwrap();
    if q < len && bytes[q] == 0x2C {
        let rest = parse_items_from(bytes, q + 1);
        match rest {
            Some(tail_items) => {
                if tail_items.len() == 0 {
                    proof {
                        assert forall|ps: Seq<PeerAddress>|
                            bytes@.skip(from as int) != spec_render_items(ps) + seq![
                            0x5Du8,
                        ] by {
                            if bytes@.skip(from as int) == spec_render_items(ps) + seq![
                                0x5Du8,
                            ] {
                                lemma_items_pin(bytes@, from as int, ps, sq, p0, q);
                                if ps.len() == 1 {
                                    assert(bytes@[q as int] == (spec_quoted(ps[0]) + seq![
                                        0x5Du8,
                                    ])[q - from]);
                                    assert(false);
                                } else {
                                    assert(bytes@.skip(q + 1) =~= spec_render_items(ps.skip(1))
                                        + seq![0x5Du8]);
                                    assert(ps.skip(1).len() > 0);
                                    assert(false);
                                }
                            }
                        }
                    }
                    return None;
                }
                let ghost tailv = tail_items@;
                let mut all = tail_items;
                all.insert(0, p0);
                proof {
                    assert(all@ =~= seq![p0] + tailv);
                    assert(all@.skip(1) =~= tailv);
                    assert(bytes@.skip(q as int) =~= seq![0x2Cu8] + bytes@.skip(q + 1));
                    assert(spec_render_items(all@) == spec_quoted(p0) + (seq![0x2Cu8]
                        + spec_render_items(tailv))) by {
                        assert(all@[0] == p0);
                        assert(all@.len() >= 2);
                        assert(all@.skip(1) == tailv);
                    }
                    assert(bytes@.skip(q + 1) == spec_render_items(tailv) + seq![0x5Du8]);
                    assert(bytes@.skip(from as int) =~= spec_render_items(all@) + seq![0x5Du8]);
                    assert forall|ps: Seq<PeerAddress>|
                        bytes@.skip(from as int) == #[trigger] (spec_render_items(ps) + seq![
                        0x5Du8,
                    ]) implies all@ == ps by {
                        lemma_items_pin(bytes@, from as int, ps, sq, p0, q);
                        if ps.len() == 1 {
                            assert(bytes@[q as int] == (spec_quoted(ps[0]) + seq![0x5Du8])[q
                                - from]);
                            assert(false);
                        }
                        assert(bytes@.skip(q + 1) =~= spec_render_items(ps.skip(1)) + seq![
                            0x5Du8,
                        ]);
                        assert(all@.skip(1) == ps.skip(1));
                        assert(all@ =~= ps);
                    }
                }
                return Some(all);
            },
            None => {
                proof {
                    assert forall|ps: Seq<PeerAddress>|
                        bytes@.skip(from as int) != spec_render_items(ps) + seq![0x5Du8] by {
                        if bytes@.skip(from as int) == spec_render_items(ps) + seq![0x5Du8] {
                            lemma_items_pin(bytes@, from as int, ps, sq, p0, q);
                            if ps.len() == 1 {
                                assert(bytes@[q as int] == (spec_quoted(ps[0]) + seq![0x5Du8])[q
                                    - from]);
                                assert(false);
                            } else {
                                assert(bytes@.skip(q + 1) =~= spec_render_items(ps.skip(1))
                                    + seq![0x5Du8]);
                                assert(false);
                            }
                        }
                    }
                }
                return None;
            },
        }
    } else if q < len && bytes[q] == 0x5D && q + 1 == len {
        let mut single: Vec<PeerAddress> = Vec::new();
        single.push(p0);
        proof {
            assert(single@ =~= seq![p0]);
            assert(spec_render_items(single@) == spec_quoted(p0));
            assert(bytes@.skip(q as int) =~= seq![0x5Du8]);
            assert(bytes@.skip(from as int) =~= spec_render_items(single@) + seq![0x5Du8]);
            assert forall|ps: Seq<PeerAddress>|
                bytes@.skip(from as int) == #[trigger] (spec_render_items(ps) + seq![0x5Du8])
                implies single@ == ps by {
                lemma_items_pin(bytes@, from as int, ps, sq, p0, q);
                if ps.len() >= 2 {
                    assert(bytes@[q as int] == (spec_quoted(ps[0]) + ((seq![0x2Cu8]
                        + spec_render_items(ps.skip(1))) + seq![0x5Du8]))[q - from]);
                    assert(false);
                }
                assert(single@ =~= ps);
            }
        }
        return Some(single);
    } else {
        proof {
            assert forall|ps: Seq<PeerAddress>|
                bytes@.skip(from as int) != spec_render_items(ps) + seq![0x5Du8] by {
                if bytes@.skip(from as int) == spec_render_items(ps) + seq![0x5Du8] {
                    lemma_items_pin(bytes@, from as int, ps, sq, p0, q);
                    assert(bytes@.skip(from as int).len() == bytes@.len() - from);
                    if ps.len() == 1 {
                        assert(bytes@[q as int] == (spec_quoted(ps[0]) + seq![0x5Du8])[q
                            - from]);
                        assert(q + 1 == bytes@.len());
                        assert(false);
                    } else {
                        assert(bytes@[q as int] == (spec_quoted(ps[0]) + ((seq![0x2Cu8]
                            + spec_render_items(ps.skip(1))) + seq![0x5Du8]))[q - from]);
                        assert(false);
                    }
                }
            }
        }
        return None;
    }
}

/// After one quoted item of a well-formed tail, the scan boundary sits
/// right past that item, which is the list's first.
proof fn lemma_items_pin(
    s: Seq<u8>,
    from: int,
    ps: Seq<PeerAddress>,
    sq: Option<(PeerAddress, usize)>,
    p0: PeerAddress,
    q: usize,
)
    requires
        0 <= from <= s.len(),
        s.skip(from) == spec_render_items(ps) + seq![0x5Du8],
        forall|p: PeerAddress, rest: Seq<u8>|
            s.skip(from) == #[trigger] (spec_quoted(p) + rest) ==> sq == Some(
                (p, (from + spec_quoted(p).len()) as usize),
            ),
        sq == Some((p0, q)),
        s.skip(from) == spec_quoted(p0) + s.skip(q as int),
    ensures
        ps.len() >= 1,
        p0 == ps[0],
        q == from + spec_quoted(ps[0]).len(),
        ps.len() == 1 ==> s.skip(from) == spec_quoted(ps[0]) + seq![0x5Du8],
        ps.len() >= 2 ==> s.skip(from) == spec_quoted(ps[0]) + ((seq![0x2Cu8]
            + spec_render_items(ps.skip(1))) + seq![0x5Du8]),
        ps.len() >= 2 ==> s.skip(q + 1) == spec_render_items(ps.skip(1)) + seq![0x5Du8],
        q < s.len(),
{
    assert(s.skip(from).len() == s.len() - from);
    assert(spec_quoted(p0).len() == spec_render_addr(p0).len() + 2);
    assert(ps.len() >= 1) by {
        if ps.len() == 0 {
            assert(spec_render_items(ps).len() == 0);
            assert(s.skip(from).len() == 1);
            assert((spec_quoted(p0) + s.skip(q as int)).len() >= 2);
        }
    };
    if ps.len() == 1 {
        assert(s.skip(from) == spec_quoted(ps[0]) + seq![0x5Du8]);
        assert(sq == Some((ps[0], (from + spec_quoted(ps[0]).len()) as usize)));
        assert(p0 == ps[0]);
        assert(from + spec_quoted(ps[0]).len() <= s.len());
        assert(q == from + spec_quoted(ps[0]).len());
    } else {
        let tail = (seq![0x2Cu8] + spec_render_items(ps.skip(1))) + seq![0x5Du8];
        assert(s.skip(from) =~= spec_quoted(ps[0]) + tail);
        assert(sq == Some((ps[0], (from + spec_quoted(ps[0]).len()) as usize)));
        assert(p0 == ps[0]);
        assert(from + spec_quoted(ps[0]).len() <= s.len());
        assert(q == from + spec_quoted(ps[0]).len());
        lemma_skip_of_add(spec_quoted(ps[0]), tail);
        assert(s.skip(from).skip(q - from) == tail);
        assert(s.skip(q as int) =~= s.skip(from).skip(q - from));
        assert(s.skip(q + 1) =~= s.skip(q as int).skip(1));
        assert(tail.skip(1) =~= spec_render_items(ps.skip(1)) + seq![0x5Du8]);
    }
    assert(q < s.len());
}

/// Parses a peer list from a JSON array of address strings. Accepts
/// exactly the canonical renders and recovers the listed addresses in
/// order.
pub fn parse_peer_list(bytes: &Vec<u8>) -> (r: Result<Vec<PeerAddress>, crate::codec::DecodeError>)
    ensures
        r matches Ok(v) ==> bytes@ == spec_render_peer_list(v@),
        forall|ps: Seq<PeerAddress>| bytes@ == spec_render_peer_list(ps) ==> (r matches Ok(v)
            && v@ == ps),
{
    let len: usize = bytes.len();
    if len == 0 || bytes[0] != 0x5B {
        proof {
            assert forall|ps: Seq<PeerAddress>| bytes@ != spec_render_peer_list(ps) by {
                if bytes@ == spec_render_peer_list(ps) {
                    assert(bytes@[0] == 0x5B);
                    assert(false);
                }
            }
        }
        return Err(crate::codec::DecodeError::MalformedInput);
    }
    match parse_items_from(bytes, 1) {
        Some(v) => {
            proof {
                assert(bytes@ =~= seq![0x5Bu8] + bytes@.skip(1));
                assert(bytes@ =~= spec_render_peer_list(v@));
                assert forall|ps: Seq<PeerAddress>| bytes@ == spec_render_peer_list(ps) implies
                    v@ == ps by {
                    assert(bytes@.skip(1) =~= spec_render_items(ps) + seq![0x5Du8]);
                }
            }
            Ok(v)
        },
        None => {
            proof {
                assert forall|ps: Seq<PeerAddress>| bytes@ != spec_render_peer_list(ps) by {
                    if bytes@ == spec_render_peer_list(ps) {
                        assert(bytes@.skip(1) =~= spec_render_items(ps) + seq![0x5Du8]);
                        assert(false);
                    }
                }
            }
            Err(crate::codec::DecodeError::MalformedInput)
        },
    }
}

} // verus!
