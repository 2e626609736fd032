//! Frame extraction: finding the end of the first complete frame in a byte
//! buffer.
//!
//! The scan tracks brace depth, ignoring braces that occur inside string
//! values (where quotes and backslash escapes are tracked byte by byte; all
//! bytes of a multi-byte UTF-8 character are above `0x7f`, so they can never
//! be mistaken for a structural byte). A frame is complete at the byte where
//! the depth returns to zero after having been above zero.

use vstd::prelude::*;

verus! {

/// State of the frame-boundary scan.
pub struct ScanState {
    /// Nesting depth of braces outside string values.
    pub depth: nat,
    /// Whether the scan stands inside a string value.
    pub in_str: bool,
    /// Whether the previous byte was an unconsumed backslash in a string.
    pub esc: bool,
    /// Whether the depth has been above zero at some earlier byte.
    pub opened: bool,
}

pub open spec fn scan_init() -> ScanState {
    ScanState { depth: 0, in_str: false, esc: false, opened: false }
}

/// How one byte advances the scan.
pub open spec fn scan_step(st: ScanState, b: u8) -> ScanState {
    if st.in_str {
        if st.esc {
            ScanState { esc: false, ..st }
        } else if b == 0x5c {
            ScanState { esc: true, ..st }
        } else if b == 0x22 {
            ScanState { in_str: false, ..st }
        } else {
            st
        }
    } else {
        if b == 0x22 {
            ScanState { in_str: true, ..st }
        } else if b == 0x7b {
            ScanState { depth: st.depth + 1, opened: true, ..st }
        } else if b == 0x7d {
            ScanState { depth: if st.depth > 0 { (st.depth - 1) as nat } else { 0 }, ..st }
        } else {
            st
        }
    }
}

/// A frame is complete when the depth has returned to zero after having been
/// above zero.
pub open spec fn scan_done(st: ScanState) -> bool {
    st.opened && st.depth == 0
}

/// The scan state after processing all of `s` from `st`.
pub open spec fn scan_fold(st: ScanState, s: Seq<u8>) -> ScanState
    decreases s.len(),
{
    if s.len() == 0 {
        st
    } else {
        scan_fold(scan_step(st, s[0]), s.drop_first())
    }
}

/// The length of the shortest prefix of `s` that completes a frame when
/// scanned from `st`, if any prefix does.
pub open spec fn frame_end_from(st: ScanState, s: Seq<u8>) -> Option<nat>
    decreases s.len(),
{
    if s.len() == 0 {
        None
    } else {
        let st2 = scan_step(st, s[0]);
        if scan_done(st2) {
            Some(1)
        } else {
            match frame_end_from(st2, s.drop_first()) {
                Some(k) => Some((k + 1) as nat),
                None => None,
            }
        }
    }
}

/// Position just past the first complete frame in `s`.
pub open spec fn frame_split(s: Seq<u8>) -> Option<nat> {
    frame_end_from(scan_init(), s)
}

pub proof fn lemma_frame_end_bounds(st: ScanState, s: Seq<u8>)
    ensures
        frame_end_from(st, s) is Some ==> 1 <= frame_end_from(st, s).unwrap() <= s.len(),
    decreases s.len(),
{
    if s.len() > 0 {
        lemma_frame_end_bounds(scan_step(st, s[0]), s.drop_first());
    }
}

/// The first complete frame is determined by the prefix that holds it: bytes
/// arriving later never move an already-found boundary.
pub proof fn lemma_frame_end_prefix(st: ScanState, s: Seq<u8>, t: Seq<u8>, k: nat)
    requires
        frame_end_from(st, s) == Some(k),
    ensures
        frame_end_from(st, s + t) == Some(k),
    decreases s.len(),
{
    assert(s.len() > 0);
    let st2 = scan_step(st, s[0]);
    assert((s + t)[0] == s[0]);
    assert((s + t).len() > 0);
    if scan_done(st2) {
    } else {
        let rest = s.drop_first();
        match frame_end_from(st2, rest) {
            Some(k2) => {
                lemma_frame_end_prefix(st2, rest, t, k2);
                assert((s + t).drop_first() =~= rest + t);
            },
            None => {
                assert(false);
            },
        }
    }
}

/// Scanning a concatenation: if no frame completes in `a`, the scan carries
/// its state into `b`, and any boundary found there shifts by `a`'s length.
pub proof fn lemma_scan_chain(st: ScanState, a: Seq<u8>, b: Seq<u8>)
    requires
        frame_end_from(st, a) is None,
    ensures
        scan_fold(st, a + b) == scan_fold(scan_fold(st, a), b),
        frame_end_from(st, a + b) == match frame_end_from(scan_fold(st, a), b) {
            Some(k) => Some((a.len() + k) as nat),
            None => None::<nat>,
        },
    decreases a.len(),
{
    if a.len() == 0 {
        assert(a + b =~= b);
    } else {
        let st2 = scan_step(st, a[0]);
        assert((a + b)[0] == a[0]);
        assert((a + b).drop_first() =~= a.drop_first() + b);
        assert(!scan_done(st2));
        lemma_scan_chain(st2, a.drop_first(), b);
    }
}

/// UTF-8 encoding distributes over concatenation of texts.
pub proof fn lemma_encode_concat(a: Seq<char>, b: Seq<char>)
    ensures
        vstd::utf8::encode_utf8(a + b) == vstd::utf8::encode_utf8(a)
            + vstd::utf8::encode_utf8(b),
    decreases a.len(),
{
    if a.len() == 0 {
        assert(a + b =~= b);
        assert(vstd::utf8::encode_utf8(a) + vstd::utf8::encode_utf8(b) =~= vstd::utf8::encode_utf8(
            b,
        ));
    } else {
        assert((a + b)[0] == a[0]);
        assert((a + b).drop_first() =~= a.drop_first() + b);
        lemma_encode_concat(a.drop_first(), b);
        assert(vstd::utf8::encode_utf8(a + b) =~= vstd::utf8::encode_utf8(a)
            + vstd::utf8::encode_utf8(b));
    }
}

/// A run of bytes that are neither quotes nor braces leaves a scan that is
/// outside a string exactly where it was.
proof fn lemma_scan_plain_run(st: ScanState, bs: Seq<u8>)
    requires
        !st.in_str,
        !scan_done(st),
        forall|i: int|
            0 <= i < bs.len() ==> #[trigger] bs[i] != 0x22 && bs[i] != 0x7b && bs[i] != 0x7d,
    ensures
        scan_fold(st, bs) == st,
        frame_end_from(st, bs) is None,
    decreases bs.len(),
{
    if bs.len() > 0 {
        assert(scan_step(st, bs[0]) == st);
        assert(forall|i: int|
            0 <= i < bs.drop_first().len() ==> #[trigger] bs.drop_first()[i] == bs[i + 1]);
        lemma_scan_plain_run(st, bs.drop_first());
    }
}

/// A run of bytes that are neither quotes nor backslashes leaves a scan that
/// is inside a string exactly where it was.
proof fn lemma_scan_instr_run(st: ScanState, bs: Seq<u8>)
    requires
        st.in_str,
        !st.esc,
        !scan_done(st),
        forall|i: int| 0 <= i < bs.len() ==> #[trigger] bs[i] != 0x22 && bs[i] != 0x5c,
    ensures
        scan_fold(st, bs) == st,
        frame_end_from(st, bs) is None,
    decreases bs.len(),
{
    if bs.len() > 0 {
        assert(scan_step(st, bs[0]) == st);
        assert(forall|i: int|
            0 <= i < bs.drop_first().len() ==> #[trigger] bs.drop_first()[i] == bs[i + 1]);
        lemma_scan_instr_run(st, bs.drop_first());
    }
}

/// Every byte of the multi-byte UTF-8 encoding of a non-ASCII scalar has its
/// high bit set, so none can be mistaken for a structural ASCII byte.
proof fn lemma_encode_scalar_high(u: u32)
    requires
        u >= 0x80,
    ensures
        forall|i: int|
            0 <= i < vstd::utf8::encode_scalar(u).len() ==> #[trigger] vstd::utf8::encode_scalar(
                u,
            )[i] >= 0x80,
{
    assert(forall|z: u32| z >= 0x80 ==> !vstd::utf8::has_width_1_encoding(z));
    assert(forall|z: u32| (0x80u8 | ((z & 0x3F) as u8)) >= 0x80) by (bit_vector);
    assert(forall|z: u32| (0x80u8 | (((z >> 6) & 0x3F) as u8)) >= 0x80) by (bit_vector);
    assert(forall|z: u32| (0x80u8 | (((z >> 12) & 0x3F) as u8)) >= 0x80) by (bit_vector);
    assert(forall|z: u32| (0xC0u8 | (((z >> 6) & 0x1F) as u8)) >= 0x80) by (bit_vector);
    assert(forall|z: u32| (0xE0u8 | (((z >> 12) & 0x0F) as u8)) >= 0x80) by (bit_vector);
    assert(forall|z: u32| (0xF0u8 | (((z >> 18) & 0x7) as u8)) >= 0x80) by (bit_vector);
}

/// The encoded, escaped message text never disturbs a scan that stands
/// inside a string value: quotes are escaped, backslashes are doubled, and
/// multi-byte characters contribute only high bytes.
#[verifier::rlimit(100)]
proof fn lemma_scan_message(st: ScanState, m: Seq<char>)
    requires
        st.in_str,
        !st.esc,
        !scan_done(st),
    ensures
        scan_fold(st, vstd::utf8::encode_utf8(crate::codec::escape_seq(m))) == st,
        frame_end_from(st, vstd::utf8::encode_utf8(crate::codec::escape_seq(m))) is None,
    decreases m.len(),
{
    broadcast use vstd::utf8::char_is_scalar;
    broadcast use vstd::utf8::char_u32_cast;

    reveal_with_fuel(vstd::utf8::encode_utf8, 4);
    reveal_with_fuel(scan_fold, 4);
    reveal_with_fuel(frame_end_from, 4);
    let e = crate::codec::escape_seq(m);
    if m.len() == 0 {
        assert(vstd::utf8::encode_utf8(e).len() == 0);
    } else {
        let c = m[0];
        let u = crate::codec::escape_char(c);
        let e2 = crate::codec::escape_seq(m.drop_first());
        assert(e == u + e2);
        lemma_encode_concat(u, e2);
        let ub = vstd::utf8::encode_utf8(u);
        if u.len() == 2 {
            // an escape pair: backslash, then one ASCII escape letter
            assert(u[0] == '\\' && (u[1] as u32) < 0x80);
            assert(vstd::utf8::is_ascii_chars(u)) by {
                assert(('\\' as u32) < 0x80);
            }
            vstd::utf8::is_ascii_chars_encode_utf8(u);
            assert(ub =~= seq![('\\' as u8), (u[1] as u8)]);
            let st1 = scan_step(st, '\\' as u8);
            assert('\\' as u8 == 0x5c);
            assert(st1 == ScanState { esc: true, ..st });
            assert(scan_step(st1, u[1] as u8) == st);
            assert(ub.drop_first() =~= seq![(u[1] as u8)]);
            assert(seq![(u[1] as u8)].drop_first() =~= Seq::<u8>::empty());
            assert(scan_fold(st, ub) == st);
            assert(frame_end_from(st, ub) is None);
        } else {
            // a raw character: never a quote or backslash
            assert(u =~= seq![c] && c != '"' && c != '\\');
            if (c as u32) < 0x80 {
                let y: u32 = c as u32;
                assert(u.drop_first() =~= Seq::<char>::empty());
                assert(vstd::utf8::encode_scalar(y) + Seq::<u8>::empty()
                    =~= vstd::utf8::encode_scalar(y));
                assert(ub =~= vstd::utf8::encode_scalar(y));
                assert(y != 0x22 && y != 0x5c) by {
                    vstd::utf8::char_u32_cast(c, c as u32);
                    vstd::utf8::char_u32_cast('"', 0x22);
                    vstd::utf8::char_u32_cast('\\', 0x5c);
                }
                assert(vstd::utf8::leading_byte_width_1(y) == (y & 0x7F) as u8);
                assert((y & 0x7F) as u8 == y as u8 && y as u8 != 0x22u8 && y as u8 != 0x5cu8)
                    by (bit_vector)
                    requires
                        y < 0x80 && y != 0x22 && y != 0x5c,
                ;
                assert(vstd::utf8::encode_scalar(y) =~= seq![(y as u8)]);
                lemma_scan_instr_run(st, ub);
            } else {
                assert(u.drop_first() =~= Seq::<char>::empty());
                assert(vstd::utf8::encode_scalar(c as u32) + Seq::<u8>::empty()
                    =~= vstd::utf8::encode_scalar(c as u32));
                assert(ub =~= vstd::utf8::encode_scalar(c as u32));
                lemma_encode_scalar_high(c as u32);
                lemma_scan_instr_run(st, ub);
            }
        }
        lemma_scan_chain(st, ub, vstd::utf8::encode_utf8(e2));
        lemma_scan_message(st, m.drop_first());
    }
}

/// The digits of a decimal number are plain scan bytes.
proof fn lemma_scan_number(st: ScanState, v: int)
    requires
        !st.in_str,
        !scan_done(st),
    ensures
        scan_fold(st, vstd::utf8::encode_utf8(crate::codec::int_chars(v))) == st,
        frame_end_from(st, vstd::utf8::encode_utf8(crate::codec::int_chars(v))) is None,
{
    broadcast use vstd::utf8::is_ascii_chars_encode_utf8;

    let cs = crate::codec::int_chars(v);
    let bs = vstd::utf8::encode_utf8(cs);
    assert forall|i: int| 0 <= i < cs.len() implies '\0' <= #[trigger] cs[i] <= '\u{7f}'
        && cs[i] != '"' && cs[i] != '{' && cs[i] != '}' by {
        crate::codec::lemma_int_chars_shape(v, i);
    }
    assert(vstd::utf8::is_ascii_chars(cs));
    assert forall|i: int|
        0 <= i < bs.len() implies #[trigger] bs[i] != 0x22 && bs[i] != 0x7b && bs[i] != 0x7d by {
        assert(bs[i] == cs[i] as u8);
        assert((cs[i] as u32) < 0x80);
        assert('"' as u32 == 0x22 && '{' as u32 == 0x7b && '}' as u32 == 0x7d);
    }
    lemma_scan_plain_run(st, bs);
}

/// The scan finds the end of a canonical frame exactly at its last byte.
#[verifier::rlimit(100)]
pub proof fn lemma_frame_scan(r: crate::record::RecordModel)
    ensures
        frame_end_from(scan_init(), crate::codec::frame_bytes(r)) == Some(
            crate::codec::frame_bytes(r).len() as nat,
        ),
{
    reveal_strlit("{\"index\":");
    reveal_strlit(",\"timestamp\":");
    reveal_strlit(",\"message\":\"");
    reveal_strlit("\"}");
    let l1 = "{\"index\":"@;
    let l2 = ",\"timestamp\":"@;
    let l3 = ",\"message\":\""@;
    let l4 = "\"}"@;
    let d = crate::codec::dec_chars(r.index);
    let ti = crate::codec::int_chars(r.timestamp);
    let e = crate::codec::escape_seq(r.message);
    let t = crate::codec::frame_chars(r);
    lemma_encode_concat(l1 + d + l2 + ti + l3 + e, l4);
    lemma_encode_concat(l1 + d + l2 + ti + l3, e);
    lemma_encode_concat(l1 + d + l2 + ti, l3);
    lemma_encode_concat(l1 + d + l2, ti);
    lemma_encode_concat(l1 + d, l2);
    lemma_encode_concat(l1, d);
    let b1 = vstd::utf8::encode_utf8(l1);
    let bd = vstd::utf8::encode_utf8(d);
    let b2 = vstd::utf8::encode_utf8(l2);
    let bt = vstd::utf8::encode_utf8(ti);
    let b3 = vstd::utf8::encode_utf8(l3);
    let be = vstd::utf8::encode_utf8(e);
    let b4 = vstd::utf8::encode_utf8(l4);
    let whole = crate::codec::frame_bytes(r);
    assert(whole == b1 + bd + b2 + bt + b3 + be + b4);
    // concrete bytes of the four literal segments
    assert(vstd::utf8::is_ascii_chars(l1));
    assert(vstd::utf8::is_ascii_chars(l2));
    assert(vstd::utf8::is_ascii_chars(l3));
    assert(vstd::utf8::is_ascii_chars(l4));
    vstd::utf8::is_ascii_chars_encode_utf8(l1);
    vstd::utf8::is_ascii_chars_encode_utf8(l2);
    vstd::utf8::is_ascii_chars_encode_utf8(l3);
    vstd::utf8::is_ascii_chars_encode_utf8(l4);
    assert(b1 =~= seq![0x7bu8, 0x22, 0x69, 0x6e, 0x64, 0x65, 0x78, 0x22, 0x3a]);
    assert(b2 =~= seq![0x2cu8, 0x22, 0x74, 0x69, 0x6d, 0x65, 0x73, 0x74, 0x61, 0x6d, 0x70, 0x22,
        0x3a]);
    assert(b3 =~= seq![0x2cu8, 0x22, 0x6d, 0x65, 0x73, 0x73, 0x61, 0x67, 0x65, 0x22, 0x3a, 0x22]);
    assert(b4 =~= seq![0x22u8, 0x7d]);
    // the state after the opening material of the frame
    let sta = ScanState { depth: 1, in_str: false, esc: false, opened: true };
    let stb = ScanState { depth: 1, in_str: true, esc: false, opened: true };
    assert(scan_fold(scan_init(), b1) == sta && frame_end_from(scan_init(), b1) is None) by {
        reveal_with_fuel(scan_fold, 11);
        reveal_with_fuel(frame_end_from, 11);
    }
    assert(scan_fold(sta, b2) == sta && frame_end_from(sta, b2) is None) by {
        reveal_with_fuel(scan_fold, 15);
        reveal_with_fuel(frame_end_from, 15);
    }
    assert(scan_fold(sta, b3) == stb && frame_end_from(sta, b3) is None) by {
        reveal_with_fuel(scan_fold, 14);
        reveal_with_fuel(frame_end_from, 14);
    }
    assert(scan_fold(stb, b4) == ScanState { depth: 0, in_str: false, esc: false, opened: true }
        && frame_end_from(stb, b4) == Some(2nat)) by {
        reveal_with_fuel(scan_fold, 4);
        reveal_with_fuel(frame_end_from, 4);
    }
    lemma_scan_number(sta, r.index as int);
    assert(crate::codec::int_chars(r.index as int) == d);
    lemma_scan_number(sta, r.timestamp);
    lemma_scan_message(stb, r.message);
    // chain the segments left to right
    let r1 = bd + b2 + bt + b3 + be + b4;
    let r2 = b2 + bt + b3 + be + b4;
    let r3 = bt + b3 + be + b4;
    let r4 = b3 + be + b4;
    let r5 = be + b4;
    assert(whole =~= b1 + r1);
    assert(r1 =~= bd + r2);
    assert(r2 =~= b2 + r3);
    assert(r3 =~= bt + r4);
    assert(r4 =~= b3 + r5);
    lemma_scan_chain(stb, be, b4);
    assert(frame_end_from(stb, r5) == Some((be.len() + 2) as nat));
    lemma_scan_chain(sta, b3, r5);
    assert(frame_end_from(sta, r4) == Some((b3.len() + be.len() + 2) as nat));
    lemma_scan_chain(sta, bt, r4);
    assert(frame_end_from(sta, r3) == Some((bt.len() + b3.len() + be.len() + 2) as nat));
    lemma_scan_chain(sta, b2, r3);
    assert(frame_end_from(sta, r2) == Some((b2.len() + bt.len() + b3.len() + be.len() + 2) as nat));
    lemma_scan_chain(sta, bd, r2);
    assert(frame_end_from(sta, r1) == Some(
        (bd.len() + b2.len() + bt.len() + b3.len() + be.len() + 2) as nat,
    ));
    lemma_scan_chain(scan_init(), b1, r1);
    assert(frame_end_from(scan_init(), whole) == Some(
        (b1.len() + bd.len() + b2.len() + bt.len() + b3.len() + be.len() + 2) as nat,
    ));
    assert(whole.len() == b1.len() + bd.len() + b2.len() + bt.len() + b3.len() + be.len()
        + b4.len());
}

/// Finds the end of the first complete frame in `v`, if one is complete.
pub fn find_frame_end(v: &Vec<u8>) -> (r: Option<usize>)
    ensures
        ({
            match (r, frame_split(v@)) {
                (Some(x), Some(y)) => x as nat == y,
                (None, None) => true,
                _ => false,
            }
        }),
{
    let n = v.len();
    let mut j: usize = 0;
    let mut depth: usize = 0;
    let mut in_str = false;
    let mut esc = false;
    let mut opened = false;
    proof {
        assert(v@.skip(0) =~= v@);
        assert(ScanState { depth: 0nat, in_str: false, esc: false, opened: false }
            == scan_init());
    }
    loop
        invariant
            j <= n,
            n == v@.len(),
            depth <= j,
            ({
                let st = ScanState { depth: depth as nat, in_str, esc, opened };
                &&& !scan_done(st)
                &&& match frame_end_from(st, v@.skip(j as int)) {
                    Some(k) => frame_split(v@) == Some((j + k) as nat),
                    None => frame_split(v@) is None,
                }
            }),
        decreases n - j,
    {
        if j >= n {
            return None;
        }
        let ghost st = ScanState { depth: depth as nat, in_str, esc, opened };
        let b = v[j];
        proof {
            assert(v@.skip(j as int)[0] == v@[j as int]);
            assert(v@.skip(j as int).drop_first() =~= v@.skip(j as int + 1));
        }
        if in_str {
            if esc {
                esc = false;
            } else if b == 0x5c {
                esc = true;
            } else if b == 0x22 {
                in_str = false;
            }
        } else {
            if b == 0x22 {
                in_str = true;
            } else if b == 0x7b {
                depth = depth + 1;
                opened = true;
            } else if b == 0x7d {
                if depth > 0 {
                    depth = depth - 1;
                }
            }
        }
        proof {
            assert(ScanState { depth: depth as nat, in_str, esc, opened } == scan_step(
                st,
                v@[j as int],
            ));
        }
        j = j + 1;
        if opened && depth == 0 {
            proof {
                assert(scan_done(scan_step(st, v@[j as int - 1])));
                assert(frame_end_from(st, v@.skip(j as int - 1)) == Some(1nat));
            }
            return Some(j);
        }
    }
}

} // verus!
