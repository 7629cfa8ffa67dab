//! Byte-string utilities shared by the document model and the XML codec:
//! equality, validation of decimal number text, and escaping of attribute
//! values.

use vstd::prelude::*;

verus! {

pub const AMP: u8 = 38;
pub const LT: u8 = 60;
pub const GT: u8 = 62;
pub const QUOT: u8 = 34;
pub const APOS: u8 = 39;
pub const SLASH: u8 = 47;
pub const EQS: u8 = 61;
pub const NL: u8 = 10;
pub const TAB: u8 = 9;
pub const SP: u8 = 32;
pub const CR: u8 = 13;
pub const SEMI: u8 = 59;
pub const D0: u8 = 48;
pub const D9: u8 = 57;
pub const PLUS: u8 = 43;
pub const MINUS: u8 = 45;
pub const DOT: u8 = 46;
pub const U_B: u8 = 66;
pub const U_E: u8 = 69;
pub const U_I: u8 = 73;
pub const U_V: u8 = 86;
pub const L_A: u8 = 97;
pub const L_B: u8 = 98;
pub const L_E: u8 = 101;
pub const L_F: u8 = 102;
pub const L_G: u8 = 103;
pub const L_I: u8 = 105;
pub const L_L: u8 = 108;
pub const L_M: u8 = 109;
pub const L_N: u8 = 110;
pub const L_O: u8 = 111;
pub const L_P: u8 = 112;
pub const L_Q: u8 = 113;
pub const L_S: u8 = 115;
pub const L_T: u8 = 116;
pub const L_U: u8 = 117;
pub const L_W: u8 = 119;
pub const L_X: u8 = 120;
pub const L_Y: u8 = 121;

/// Compares two byte strings for equality.
pub fn bytes_eq(a: &Vec<u8>, b: &Vec<u8>) -> (r: bool)
    ensures
        r == (a@ == b@),
{
    if a.len() != b.len() {
        assert(a@ != b@) by {
            assert(a@.len() != b@.len());
        }
        return false;
    }
    let mut i: usize = 0;
    while i < a.len()
        invariant
            0 <= i <= a.len(),
            a.len() == b.len(),
            forall|j: int| 0 <= j < i ==> a@[j] == b@[j],
        decreases a.len() - i,
    {
        if a[i] != b[i] {
            return false;
        }
        i += 1;
    }
    proof {
        assert(a@ =~= b@);
    }
    true
}


/// A fresh copy of a byte string.
pub fn copy_bytes(s: &Vec<u8>) -> (r: Vec<u8>)
    ensures
        r@ == s@,
{
    let mut out: Vec<u8> = Vec::new();
    let mut i: usize = 0;
    while i < s.len()
        invariant
            0 <= i <= s@.len(),
            out@ == s@.take(i as int),
        decreases s.len() - i,
    {
        out.push(s[i]);
        proof {
            assert(s@.take(i as int).push(s@[i as int]) =~= s@.take(i as int + 1));
        }
        i += 1;
    }
    proof {
        assert(s@.take(i as int) =~= s@);
    }
    out
}

pub open spec fn is_digit(b: u8) -> bool {
    D0 <= b && b <= D9
}

/// One transition of the decimal-number automaton. States:
/// 0 start, 1 after sign, 2 integer digits (accepting), 3 dot with no
/// digits yet, 4 fraction or trailing dot (accepting), 5 after exponent
/// marker, 6 exponent sign, 7 exponent digits (accepting), 8 reject.
pub open spec fn dec_step(st: u8, b: u8) -> u8 {
    if st == 0 {
        if b == PLUS || b == MINUS { 1 } else if is_digit(b) { 2 } else if b == DOT { 3 } else { 8 }
    } else if st == 1 {
        if is_digit(b) { 2 } else if b == DOT { 3 } else { 8 }
    } else if st == 2 {
        if is_digit(b) { 2 } else if b == DOT { 4 } else if b == L_E || b == U_E { 5 } else { 8 }
    } else if st == 3 {
        if is_digit(b) { 4 } else { 8 }
    } else if st == 4 {
        if is_digit(b) { 4 } else if b == L_E || b == U_E { 5 } else { 8 }
    } else if st == 5 {
        if b == PLUS || b == MINUS { 6 } else if is_digit(b) { 7 } else { 8 }
    } else if st == 6 {
        if is_digit(b) { 7 } else { 8 }
    } else if st == 7 {
        if is_digit(b) { 7 } else { 8 }
    } else {
        8
    }
}

pub open spec fn dec_run(s: Seq<u8>, st: u8) -> u8
    decreases s.len(),
{
    if s.len() == 0 {
        st
    } else {
        dec_run(s.drop_first(), dec_step(st, s[0]))
    }
}

pub open spec fn dec_accepting(st: u8) -> bool {
    st == 2 || st == 4 || st == 7
}

/// A byte string is decimal number text when the automaton accepts it:
/// an optional sign, digits with at most one dot and at least one digit,
/// and an optional exponent part.
pub open spec fn is_decimal(s: Seq<u8>) -> bool {
    dec_accepting(dec_run(s, 0))
}

fn dec_step_exec(st: u8, b: u8) -> (r: u8)
    ensures
        r == dec_step(st, b),
{
    if st == 0 {
        if b == PLUS || b == MINUS { 1 } else if D0 <= b && b <= D9 { 2 } else if b == DOT { 3 } else { 8 }
    } else if st == 1 {
        if D0 <= b && b <= D9 { 2 } else if b == DOT { 3 } else { 8 }
    } else if st == 2 {
        if D0 <= b && b <= D9 { 2 } else if b == DOT { 4 } else if b == L_E || b == U_E { 5 } else { 8 }
    } else if st == 3 {
        if D0 <= b && b <= D9 { 4 } else { 8 }
    } else if st == 4 {
        if D0 <= b && b <= D9 { 4 } else if b == L_E || b == U_E { 5 } else { 8 }
    } else if st == 5 {
        if b == PLUS || b == MINUS { 6 } else if D0 <= b && b <= D9 { 7 } else { 8 }
    } else if st == 6 {
        if D0 <= b && b <= D9 { 7 } else { 8 }
    } else if st == 7 {
        if D0 <= b && b <= D9 { 7 } else { 8 }
    } else {
        8
    }
}

/// Checks that a byte string is decimal number text.
pub fn is_decimal_bytes(s: &Vec<u8>) -> (r: bool)
    ensures
        r == is_decimal(s@),
{
    let mut st: u8 = 0;
    let mut i: usize = 0;
    proof {
        assert(s@.skip(0) =~= s@);
    }
    while i < s.len()
        invariant
            0 <= i <= s.len(),
            dec_run(s@, 0) == dec_run(s@.skip(i as int), st),
        decreases s.len() - i,
    {
        proof {
            let t = s@.skip(i as int);
            assert(t.len() > 0);
            assert(t[0] == s@[i as int]);
            assert(t.drop_first() =~= s@.skip(i as int + 1));
        }
        st = dec_step_exec(st, s[i]);
        i += 1;
    }
    proof {
        assert(s@.skip(i as int) =~= Seq::<u8>::empty());
    }
    dec_accepting_exec(st)
}

fn dec_accepting_exec(st: u8) -> (r: bool)
    ensures
        r == dec_accepting(st),
{
    st == 2 || st == 4 || st == 7
}

// --- Escaping of attribute values ---

pub open spec fn ent_amp() -> Seq<u8> {
    seq![AMP, L_A, L_M, L_P, SEMI]
}

pub open spec fn ent_lt() -> Seq<u8> {
    seq![AMP, L_L, L_T, SEMI]
}

pub open spec fn ent_gt() -> Seq<u8> {
    seq![AMP, L_G, L_T, SEMI]
}

pub open spec fn ent_quot() -> Seq<u8> {
    seq![AMP, L_Q, L_U, L_O, L_T, SEMI]
}

pub open spec fn ent_apos() -> Seq<u8> {
    seq![AMP, L_A, L_P, L_O, L_S, SEMI]
}

/// The expansion of one byte in an attribute value.
pub open spec fn esc_byte(b: u8) -> Seq<u8> {
    if b == AMP {
        ent_amp()
    } else if b == LT {
        ent_lt()
    } else if b == GT {
        ent_gt()
    } else if b == QUOT {
        ent_quot()
    } else if b == APOS {
        ent_apos()
    } else {
        seq![b]
    }
}

/// The escaped form of an attribute value.
pub open spec fn esc(s: Seq<u8>) -> Seq<u8>
    decreases s.len(),
{
    if s.len() == 0 {
        Seq::empty()
    } else {
        esc_byte(s[0]) + esc(s.drop_first())
    }
}

pub open spec fn starts_with(s: Seq<u8>, p: Seq<u8>) -> bool {
    p.len() <= s.len() && s.take(p.len() as int) == p
}

pub open spec fn opt_cons(b: u8, r: Option<Seq<u8>>) -> Option<Seq<u8>> {
    match r {
        Some(t) => Some(seq![b] + t),
        None => None,
    }
}

/// The unescaped form of an attribute value region; `None` when an
/// ampersand begins no recognized entity.
pub open spec fn unesc(s: Seq<u8>) -> Option<Seq<u8>>
    decreases s.len(),
{
    if s.len() == 0 {
        Some(Seq::empty())
    } else if s[0] == AMP {
        if starts_with(s, ent_amp()) {
            opt_cons(AMP, unesc(s.skip(5)))
        } else if starts_with(s, ent_lt()) {
            opt_cons(LT, unesc(s.skip(4)))
        } else if starts_with(s, ent_gt()) {
            opt_cons(GT, unesc(s.skip(4)))
        } else if starts_with(s, ent_quot()) {
            opt_cons(QUOT, unesc(s.skip(6)))
        } else if starts_with(s, ent_apos()) {
            opt_cons(APOS, unesc(s.skip(6)))
        } else {
            None
        }
    } else {
        opt_cons(s[0], unesc(s.drop_first()))
    }
}

/// Escaping then unescaping gives the value back.
pub proof fn lemma_unesc_esc(s: Seq<u8>)
    ensures
        unesc(esc(s)) == Some(s),
    decreases s.len(),
{
    if s.len() == 0 {
        assert(esc(s) =~= Seq::<u8>::empty());
        assert(s =~= Seq::<u8>::empty());
    } else {
        let b = s[0];
        let t = s.drop_first();
        lemma_unesc_esc(t);
        let e = esc(s);
        assert(e == esc_byte(b) + esc(t));
        if b == AMP {
            assert(e.len() >= 5);
            assert(e[0] == AMP && e[1] == L_A && e[2] == L_M && e[3] == L_P && e[4] == SEMI);
            assert(e.take(5) =~= ent_amp());
            assert(starts_with(e, ent_amp()));
            assert(e.skip(5) =~= esc(t));
            assert(unesc(e) == opt_cons(AMP, Some(t)));
            assert(seq![AMP] + t =~= s);
        } else if b == LT {
            assert(e.len() >= 4);
            assert(e[0] == AMP && e[1] == L_L && e[2] == L_T && e[3] == SEMI);
            assert(!starts_with(e, ent_amp())) by {
                if starts_with(e, ent_amp()) {
                    assert(e.take(5)[1] == L_A);
                    assert(e.take(5)[1] == e[1]);
                }
            }
            assert(e.take(4) =~= ent_lt());
            assert(starts_with(e, ent_lt()));
            assert(e.skip(4) =~= esc(t));
            assert(unesc(e) == opt_cons(LT, Some(t)));
            assert(seq![LT] + t =~= s);
        } else if b == GT {
            assert(e.len() >= 4);
            assert(e[0] == AMP && e[1] == L_G && e[2] == L_T && e[3] == SEMI);
            assert(!starts_with(e, ent_amp())) by {
                if starts_with(e, ent_amp()) {
                    assert(e.take(5)[1] == L_A);
                    assert(e.take(5)[1] == e[1]);
                }
            }
            assert(!starts_with(e, ent_lt())) by {
                if starts_with(e, ent_lt()) {
                    assert(e.take(4)[1] == L_L);
                    assert(e.take(4)[1] == e[1]);
                }
            }
            assert(e.take(4) =~= ent_gt());
            assert(starts_with(e, ent_gt()));
            assert(e.skip(4) =~= esc(t));
            assert(unesc(e) == opt_cons(GT, Some(t)));
            assert(seq![GT] + t =~= s);
        } else if b == QUOT {
            assert(e.len() >= 6);
            assert(e[0] == AMP && e[1] == L_Q && e[2] == L_U && e[3] == L_O && e[4] == L_T
                && e[5] == SEMI);
            assert(!starts_with(e, ent_amp())) by {
                if starts_with(e, ent_amp()) {
                    assert(e.take(5)[1] == L_A);
                    assert(e.take(5)[1] == e[1]);
                }
            }
            assert(!starts_with(e, ent_lt())) by {
                if starts_with(e, ent_lt()) {
                    assert(e.take(4)[1] == L_L);
                    assert(e.take(4)[1] == e[1]);
                }
            }
            assert(!starts_with(e, ent_gt())) by {
                if starts_with(e, ent_gt()) {
                    assert(e.take(4)[1] == L_G);
                    assert(e.take(4)[1] == e[1]);
                }
            }
            assert(e.take(6) =~= ent_quot());
            assert(starts_with(e, ent_quot()));
            assert(e.skip(6) =~= esc(t));
            assert(unesc(e) == opt_cons(QUOT, Some(t)));
            assert(seq![QUOT] + t =~= s);
        } else if b == APOS {
            assert(e.len() >= 6);
            assert(e[0] == AMP && e[1] == L_A && e[2] == L_P && e[3] == L_O && e[4] == L_S
                && e[5] == SEMI);
            assert(!starts_with(e, ent_amp())) by {
                if starts_with(e, ent_amp()) {
                    assert(e.take(5)[2] == L_M);
                    assert(e.take(5)[2] == e[2]);
                }
            }
            assert(!starts_with(e, ent_lt())) by {
                if starts_with(e, ent_lt()) {
                    assert(e.take(4)[1] == L_L);
                    assert(e.take(4)[1] == e[1]);
                }
            }
            assert(!starts_with(e, ent_gt())) by {
                if starts_with(e, ent_gt()) {
                    assert(e.take(4)[1] == L_G);
                    assert(e.take(4)[1] == e[1]);
                }
            }
            assert(!starts_with(e, ent_quot())) by {
                if starts_with(e, ent_quot()) {
                    assert(e.take(6)[1] == L_Q);
                    assert(e.take(6)[1] == e[1]);
                }
            }
            assert(e.take(6) =~= ent_apos());
            assert(starts_with(e, ent_apos()));
            assert(e.skip(6) =~= esc(t));
            assert(unesc(e) == opt_cons(APOS, Some(t)));
            assert(seq![APOS] + t =~= s);
        } else {
            assert(esc_byte(b) =~= seq![b]);
            assert(e[0] == b);
            assert(e.drop_first() =~= esc(t));
            assert(unesc(e) == opt_cons(b, Some(t)));
            assert(seq![b] + t =~= s);
        }
    }
}

/// The escaped form of a value contains no double quote.
pub proof fn lemma_esc_no_quote(s: Seq<u8>)
    ensures
        forall|i: int| 0 <= i < esc(s).len() ==> esc(s)[i] != QUOT,
    decreases s.len(),
{
    if s.len() == 0 {
    } else {
        let b = s[0];
        let t = s.drop_first();
        lemma_esc_no_quote(t);
        assert(esc(s) == esc_byte(b) + esc(t));
        assert forall|i: int| 0 <= i < esc(s).len() implies esc(s)[i] != QUOT by {
            if i < esc_byte(b).len() {
                assert(esc(s)[i] == esc_byte(b)[i]);
            } else {
                assert(esc(s)[i] == esc(t)[i - esc_byte(b).len()]);
            }
        }
    }
}

/// Appending one byte appends its expansion to the escaped form.
pub proof fn lemma_esc_push(s: Seq<u8>, b: u8)
    ensures
        esc(s.push(b)) == esc(s) + esc_byte(b),
    decreases s.len(),
{
    if s.len() == 0 {
        assert(s.push(b).drop_first() =~= Seq::<u8>::empty());
        assert(s.push(b)[0] == b);
        assert(esc(s.push(b)) == esc_byte(b) + esc(s.push(b).drop_first()));
        assert(esc(Seq::<u8>::empty()) == Seq::<u8>::empty());
        assert(esc_byte(b) + Seq::<u8>::empty() =~= esc_byte(b));
        assert(esc(s) + esc_byte(b) =~= esc_byte(b));
    } else {
        lemma_esc_push(s.drop_first(), b);
        assert(s.push(b).drop_first() =~= s.drop_first().push(b));
        assert(s.push(b)[0] == s[0]);
        assert(esc(s.push(b)) == esc_byte(s[0]) + esc(s.drop_first().push(b)));
        assert(esc_byte(s[0]) + (esc(s.drop_first()) + esc_byte(b)) =~= (esc_byte(s[0]) + esc(
            s.drop_first(),
        )) + esc_byte(b));
    }
}

/// Appends the escaped form of `s` to `out`.
pub fn escape_into(out: &mut Vec<u8>, s: &Vec<u8>)
    ensures
        final(out)@ == old(out)@ + esc(s@),
{
    let mut i: usize = 0;
    proof {
        assert(s@.take(0) =~= Seq::<u8>::empty());
        assert(out@ =~= out@ + esc(s@.take(0)));
    }
    while i < s.len()
        invariant
            0 <= i <= s.len(),
            out@ == old(out)@ + esc(s@.take(i as int)),
        decreases s.len() - i,
    {
        let b = s[i];
        proof {
            lemma_esc_push(s@.take(i as int), b);
            assert(s@.take(i as int).push(b) =~= s@.take(i as int + 1));
        }
        if b == AMP {
            out.push(AMP);
            out.push(L_A);
            out.push(L_M);
            out.push(L_P);
            out.push(SEMI);
        } else if b == LT {
            out.push(AMP);
            out.push(L_L);
            out.push(L_T);
            out.push(SEMI);
        } else if b == GT {
            out.push(AMP);
            out.push(L_G);
            out.push(L_T);
            out.push(SEMI);
        } else if b == QUOT {
            out.push(AMP);
            out.push(L_Q);
            out.push(L_U);
            out.push(L_O);
            out.push(L_T);
            out.push(SEMI);
        } else if b == APOS {
            out.push(AMP);
            out.push(L_A);
            out.push(L_P);
            out.push(L_O);
            out.push(L_S);
            out.push(SEMI);
        } else {
            out.push(b);
        }
        proof {
            assert(out@ =~= old(out)@ + esc(s@.take(i as int)) + esc_byte(b));
            assert(old(out)@ + esc(s@.take(i as int)) + esc_byte(b) =~= old(out)@ + (esc(
                s@.take(i as int),
            ) + esc_byte(b)));
        }
        i += 1;
    }
    proof {
        assert(s@.take(i as int) =~= s@);
    }
}

/// Unescapes the region `s[from..to]`; `None` on an unrecognized entity.
pub fn unescape_range(s: &Vec<u8>, from: usize, to: usize) -> (r: Option<Vec<u8>>)
    requires
        from <= to <= s@.len(),
    ensures
        match r {
            Some(v) => unesc(s@.subrange(from as int, to as int)) == Some(v@),
            None => unesc(s@.subrange(from as int, to as int)) is None,
        },
{
    let region = Ghost(s@.subrange(from as int, to as int));
    let mut out: Vec<u8> = Vec::new();
    let mut i: usize = from;
    proof {
        if unesc(region@) is Some {
            assert(out@ + unesc(region@).unwrap() =~= unesc(region@).unwrap());
        }
    }
    while i < to
        invariant
            from <= i <= to <= s@.len(),
            region@ == s@.subrange(from as int, to as int),
            unesc(region@) == match unesc(s@.subrange(i as int, to as int)) {
                Some(t) => Some(out@ + t),
                None => None::<Seq<u8>>,
            },
        decreases to - i,
    {
        let rem = Ghost(s@.subrange(i as int, to as int));
        proof {
            assert(rem@.len() > 0);
            assert(rem@[0] == s@[i as int]);
        }
        let b = s[i];
        if b == AMP {
            // recognize one entity
            if to - i >= 5 && s[i + 1] == L_A && s[i + 2] == L_M && s[i + 3] == L_P && s[i + 4]
                == SEMI {
                proof {
                    assert(rem@.take(5) =~= ent_amp());
                    assert(rem@.skip(5) =~= s@.subrange(i as int + 5, to as int));
                    assert(unesc(rem@) == opt_cons(AMP, unesc(rem@.skip(5))));
                }
                let ghost out0 = out@;
                out.push(AMP);
                proof {
                    lemma_out_step(region@, s@.subrange(i as int + 5, to as int), out0, AMP);
                    assert(out@ == out0.push(AMP));
                }
                i += 5;
            } else if to - i >= 4 && s[i + 1] == L_L && s[i + 2] == L_T && s[i + 3] == SEMI {
                proof {
                    lemma_not_amp(rem@);
                    assert(rem@.take(4) =~= ent_lt());
                    assert(rem@.skip(4) =~= s@.subrange(i as int + 4, to as int));
                    assert(unesc(rem@) == opt_cons(LT, unesc(rem@.skip(4))));
                }
                let ghost out0 = out@;
                out.push(LT);
                proof {
                    lemma_out_step(region@, s@.subrange(i as int + 4, to as int), out0, LT);
                    assert(out@ == out0.push(LT));
                }
                i += 4;
            } else if to - i >= 4 && s[i + 1] == L_G && s[i + 2] == L_T && s[i + 3] == SEMI {
                proof {
                    lemma_not_amp(rem@);
                    lemma_not_lt(rem@);
                    assert(rem@.take(4) =~= ent_gt());
                    assert(rem@.skip(4) =~= s@.subrange(i as int + 4, to as int));
                    assert(unesc(rem@) == opt_cons(GT, unesc(rem@.skip(4))));
                }
                let ghost out0 = out@;
                out.push(GT);
                proof {
                    lemma_out_step(region@, s@.subrange(i as int + 4, to as int), out0, GT);
                    assert(out@ == out0.push(GT));
                }
                i += 4;
            } else if to - i >= 6 && s[i + 1] == L_Q && s[i + 2] == L_U && s[i + 3] == L_O && s[i
                + 4] == L_T && s[i + 5] == SEMI {
                proof {
                    lemma_not_amp(rem@);
                    lemma_not_lt(rem@);
                    lemma_not_gt(rem@);
                    assert(rem@.take(6) =~= ent_quot());
                    assert(rem@.skip(6) =~= s@.subrange(i as int + 6, to as int));
                    assert(unesc(rem@) == opt_cons(QUOT, unesc(rem@.skip(6))));
                }
                let ghost out0 = out@;
                out.push(QUOT);
                proof {
                    lemma_out_step(region@, s@.subrange(i as int + 6, to as int), out0, QUOT);
                    assert(out@ == out0.push(QUOT));
                }
                i += 6;
            } else if to - i >= 6 && s[i + 1] == L_A && s[i + 2] == L_P && s[i + 3] == L_O && s[i
                + 4] == L_S && s[i + 5] == SEMI {
                proof {
                    lemma_not_amp(rem@);
                    lemma_not_lt(rem@);
                    lemma_not_gt(rem@);
                    lemma_not_quot(rem@);
                    assert(rem@.take(6) =~= ent_apos());
                    assert(rem@.skip(6) =~= s@.subrange(i as int + 6, to as int));
                    assert(unesc(rem@) == opt_cons(APOS, unesc(rem@.skip(6))));
                }
                let ghost out0 = out@;
                out.push(APOS);
                proof {
                    lemma_out_step(region@, s@.subrange(i as int + 6, to as int), out0, APOS);
                    assert(out@ == out0.push(APOS));
                }
                i += 6;
            } else {
                proof {
                    lemma_no_entity(rem@);
                }
                return None;
            }
        } else {
            proof {
                assert(rem@.drop_first() =~= s@.subrange(i as int + 1, to as int));
                assert(unesc(rem@) == opt_cons(b, unesc(rem@.drop_first())));
            }
            let ghost out0 = out@;
                out.push(b);
                proof {
                    lemma_out_step(region@, s@.subrange(i as int + 1, to as int), out0, b);
                    assert(out@ == out0.push(b));
                }
            i += 1;
        }
    }
    proof {
        assert(s@.subrange(i as int, to as int) =~= Seq::<u8>::empty());
        assert(out@ + Seq::<u8>::empty() =~= out@);
    }
    Some(out)
}

proof fn lemma_out_step(region: Seq<u8>, rest: Seq<u8>, out_before: Seq<u8>, b: u8)
    requires
        unesc(region) == match unesc(rest) {
            Some(t) => Some(out_before + (seq![b] + t)),
            None => None::<Seq<u8>>,
        },
    ensures
        unesc(region) == match unesc(rest) {
            Some(t) => Some(out_before.push(b) + t),
            None => None::<Seq<u8>>,
        },
{
    match unesc(rest) {
        Some(t) => {
            assert(out_before + (seq![b] + t) =~= out_before.push(b) + t);
        },
        None => {},
    }
}

proof fn lemma_not_amp(s: Seq<u8>)
    requires
        !(s.len() >= 5 && s[1] == L_A && s[2] == L_M && s[3] == L_P && s[4] == SEMI),
    ensures
        !starts_with(s, ent_amp()),
{
    if starts_with(s, ent_amp()) {
        assert(s.take(5)[1] == s[1] && s.take(5)[2] == s[2] && s.take(5)[3] == s[3] && s.take(5)[4]
            == s[4]);
        assert(ent_amp()[1] == L_A && ent_amp()[2] == L_M && ent_amp()[3] == L_P && ent_amp()[4]
            == SEMI);
    }
}

proof fn lemma_not_lt(s: Seq<u8>)
    requires
        !(s.len() >= 4 && s[1] == L_L && s[2] == L_T && s[3] == SEMI),
    ensures
        !starts_with(s, ent_lt()),
{
    if starts_with(s, ent_lt()) {
        assert(s.take(4)[1] == s[1] && s.take(4)[2] == s[2] && s.take(4)[3] == s[3]);
        assert(ent_lt()[1] == L_L && ent_lt()[2] == L_T && ent_lt()[3] == SEMI);
    }
}

proof fn lemma_not_gt(s: Seq<u8>)
    requires
        !(s.len() >= 4 && s[1] == L_G && s[2] == L_T && s[3] == SEMI),
    ensures
        !starts_with(s, ent_gt()),
{
    if starts_with(s, ent_gt()) {
        assert(s.take(4)[1] == s[1] && s.take(4)[2] == s[2] && s.take(4)[3] == s[3]);
        assert(ent_gt()[1] == L_G && ent_gt()[2] == L_T && ent_gt()[3] == SEMI);
    }
}

proof fn lemma_not_quot(s: Seq<u8>)
    requires
        !(s.len() >= 6 && s[1] == L_Q && s[2] == L_U && s[3] == L_O && s[4] == L_T && s[5]
            == SEMI),
    ensures
        !starts_with(s, ent_quot()),
{
    if starts_with(s, ent_quot()) {
        assert(s.take(6)[1] == s[1] && s.take(6)[2] == s[2] && s.take(6)[3] == s[3] && s.take(6)[4]
            == s[4] && s.take(6)[5] == s[5]);
        assert(ent_quot()[1] == L_Q && ent_quot()[2] == L_U && ent_quot()[3] == L_O && ent_quot()[4]
            == L_T && ent_quot()[5] == SEMI);
    }
}

proof fn lemma_not_apos(s: Seq<u8>)
    requires
        !(s.len() >= 6 && s[1] == L_A && s[2] == L_P && s[3] == L_O && s[4] == L_S && s[5]
            == SEMI),
    ensures
        !starts_with(s, ent_apos()),
{
    if starts_with(s, ent_apos()) {
        assert(s.take(6)[1] == s[1] && s.take(6)[2] == s[2] && s.take(6)[3] == s[3] && s.take(6)[4]
            == s[4] && s.take(6)[5] == s[5]);
        assert(ent_apos()[1] == L_A && ent_apos()[2] == L_P && ent_apos()[3] == L_O && ent_apos()[4]
            == L_S && ent_apos()[5] == SEMI);
    }
}

proof fn lemma_no_entity(s: Seq<u8>)
    requires
        s.len() > 0,
        s[0] == AMP,
        !(s.len() >= 5 && s[1] == L_A && s[2] == L_M && s[3] == L_P && s[4] == SEMI),
        !(s.len() >= 4 && s[1] == L_L && s[2] == L_T && s[3] == SEMI),
        !(s.len() >= 4 && s[1] == L_G && s[2] == L_T && s[3] == SEMI),
        !(s.len() >= 6 && s[1] == L_Q && s[2] == L_U && s[3] == L_O && s[4] == L_T && s[5]
            == SEMI),
        !(s.len() >= 6 && s[1] == L_A && s[2] == L_P && s[3] == L_O && s[4] == L_S && s[5]
            == SEMI),
    ensures
        unesc(s) is None,
{
    lemma_not_amp(s);
    lemma_not_lt(s);
    lemma_not_gt(s);
    lemma_not_quot(s);
    lemma_not_apos(s);
}

} // verus!
