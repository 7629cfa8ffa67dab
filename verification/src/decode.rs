//! The decoder half of the XML codec: a streaming, event-driven parser.
//! Tags are scanned one at a time; `View` start events open a view
//! context, empty `Image` and `Bone` elements append to it, and `View`
//! end events commit it. Unknown elements and attributes are ignored.
//! Malformed text, a non-numeric bone coordinate, or an `Image`/`Bone`
//! with no open view context is a fatal error: decoding is
//! all-or-nothing and reports the byte offset of the fault.

use vstd::prelude::*;
use crate::text::{
    is_decimal, is_decimal_bytes, unesc, unescape_range, bytes_eq, CR, EQS, GT, LT, NL, QUOT,
    SLASH, SP, TAB, D0, U_B, U_I, U_V, L_A, L_B, L_E, L_F, L_G, L_I, L_L, L_M, L_N, L_O, L_W,
    L_X, L_Y,
};
use crate::schema::{BoneV, SchemaBone, SchemaData, SchemaImage, SchemaView, ViewV, wf_bone, wf_doc, wf_view};
use crate::encode::{attr_file, attr_label, attr_name, attr_x, attr_y, name_bone, name_image,
    name_view};

verus! {

pub open spec fn is_ws(b: u8) -> bool {
    b == SP || b == TAB || b == NL || b == CR
}

/// A name byte is anything that does not end a tag or attribute name.
pub open spec fn is_name_byte(b: u8) -> bool {
    !(is_ws(b) || b == SLASH || b == GT || b == EQS)
}

pub open spec fn count_ws(s: Seq<u8>) -> nat
    decreases s.len(),
{
    if s.len() > 0 && is_ws(s[0]) {
        1 + count_ws(s.drop_first())
    } else {
        0
    }
}

pub open spec fn count_name(s: Seq<u8>) -> nat
    decreases s.len(),
{
    if s.len() > 0 && is_name_byte(s[0]) {
        1 + count_name(s.drop_first())
    } else {
        0
    }
}

pub open spec fn find_lt(s: Seq<u8>) -> Option<nat>
    decreases s.len(),
{
    if s.len() == 0 {
        None
    } else if s[0] == LT {
        Some(0)
    } else {
        match find_lt(s.drop_first()) {
            Some(j) => Some(j + 1),
            None => None,
        }
    }
}

pub open spec fn find_quot(s: Seq<u8>) -> Option<nat>
    decreases s.len(),
{
    if s.len() == 0 {
        None
    } else if s[0] == QUOT {
        Some(0)
    } else {
        match find_quot(s.drop_first()) {
            Some(j) => Some(j + 1),
            None => None,
        }
    }
}

/// One event of the streaming parser, at the level of the model.
pub ghost enum EvV {
    Start { name: Seq<u8>, attrs: Seq<(Seq<u8>, Seq<u8>)> },
    Empty { name: Seq<u8>, attrs: Seq<(Seq<u8>, Seq<u8>)> },
    End { name: Seq<u8> },
    Eof,
}

/// Parses the attribute list of a tag: whitespace-separated
/// `name="value"` pairs, up to a `/` or `>`. Returns the pairs with
/// unescaped values and the count of bytes consumed; `None` when the
/// text is malformed.
pub open spec fn parse_attrs(s: Seq<u8>) -> Option<(Seq<(Seq<u8>, Seq<u8>)>, nat)>
    decreases s.len(),
{
    let w = count_ws(s);
    if w >= s.len() {
        None
    } else {
        let u = s.skip(w as int);
        if u[0] == SLASH || u[0] == GT {
            Some((Seq::empty(), w))
        } else {
            let n = count_name(u);
            if n == 0 {
                None
            } else if n + 2 <= u.len() && u[n as int] == EQS && u[n as int + 1] == QUOT {
                let v = u.skip(n as int + 2);
                match find_quot(v) {
                    None => None,
                    Some(q) => match unesc(v.take(q as int)) {
                        None => None,
                        Some(val) => {
                            let c = w + n + 2 + q + 1;
                            if 0 < c <= s.len() {
                                match parse_attrs(s.skip(c as int)) {
                                    None => None,
                                    Some(pr) => Some(
                                        (seq![(u.take(n as int), val)] + pr.0, c + pr.1),
                                    ),
                                }
                            } else {
                                None
                            }
                        },
                    },
                }
            } else {
                None
            }
        }
    }
}

/// Parses one event from the front of `s`: text before the next `<` is
/// ignored; no further `<` means end of input. Returns the event and the
/// count of bytes consumed; `None` when the text is malformed.
pub open spec fn parse_ev(s: Seq<u8>) -> Option<(EvV, nat)> {
    match find_lt(s) {
        None => Some((EvV::Eof, s.len())),
        Some(i) => {
            if i + 1 >= s.len() {
                None
            } else {
                let t = s.skip(i as int + 1);
                if t[0] == SLASH {
                    let n = count_name(t.skip(1));
                    if n == 0 {
                        None
                    } else {
                        let rest = t.skip(1 + n as int);
                        let w = count_ws(rest);
                        if w < rest.len() && rest[w as int] == GT {
                            Some((EvV::End { name: t.skip(1).take(n as int) }, i + n + w + 3))
                        } else {
                            None
                        }
                    }
                } else {
                    let n = count_name(t);
                    if n == 0 {
                        None
                    } else {
                        match parse_attrs(t.skip(n as int)) {
                            None => None,
                            Some(pr) => {
                                let u = t.skip(n as int + pr.1 as int);
                                if u.len() > 0 && u[0] == GT {
                                    Some(
                                        (
                                            EvV::Start { name: t.take(n as int), attrs: pr.0 },
                                            i + 1 + n + pr.1 + 1,
                                        ),
                                    )
                                } else if u.len() >= 2 && u[0] == SLASH && u[1] == GT {
                                    Some(
                                        (
                                            EvV::Empty { name: t.take(n as int), attrs: pr.0 },
                                            i + 1 + n + pr.1 + 2,
                                        ),
                                    )
                                } else {
                                    None
                                }
                            },
                        }
                    }
                }
            }
        },
    }
}

/// The first attribute with the given name, if any.
pub open spec fn attr_first(attrs: Seq<(Seq<u8>, Seq<u8>)>, name: Seq<u8>) -> Option<Seq<u8>>
    decreases attrs.len(),
{
    if attrs.len() == 0 {
        None
    } else if attrs[0].0 == name {
        Some(attrs[0].1)
    } else {
        attr_first(attrs.drop_first(), name)
    }
}

/// A bone before any attribute is applied: empty label and name, both
/// coordinates zero.
pub open spec fn bone_default() -> BoneV {
    BoneV { label: Seq::empty(), name: Seq::empty(), x: seq![D0], y: seq![D0] }
}

/// Applies `Bone` attributes in order, later values overwriting earlier
/// ones; a non-numeric `x` or `y` is fatal. Unknown attributes are
/// ignored.
pub open spec fn bone_fold(attrs: Seq<(Seq<u8>, Seq<u8>)>, b: BoneV) -> Option<BoneV>
    decreases attrs.len(),
{
    if attrs.len() == 0 {
        Some(b)
    } else {
        let an = attrs[0].0;
        let av = attrs[0].1;
        if (an == attr_x() || an == attr_y()) && !is_decimal(av) {
            None
        } else {
            let b2 = if an == attr_label() {
                BoneV { label: av, ..b }
            } else if an == attr_name() {
                BoneV { name: av, ..b }
            } else if an == attr_x() {
                BoneV { x: av, ..b }
            } else if an == attr_y() {
                BoneV { y: av, ..b }
            } else {
                b
            };
            bone_fold(attrs.drop_first(), b2)
        }
    }
}

/// The parser's folding state: the stack of open elements, the open view
/// context if any, and the views committed so far.
pub ghost struct RunSt {
    pub stack: Seq<Seq<u8>>,
    pub ctx: Option<ViewV>,
    pub acc: Seq<ViewV>,
}

pub open spec fn init_st() -> RunSt {
    RunSt { stack: Seq::empty(), ctx: None, acc: Seq::empty() }
}

/// Applies one event to the folding state; `None` is a fatal error: an
/// `Image` or `Bone` with no open view context, a nested `View`, a
/// mismatched end tag, or a bad bone coordinate.
pub open spec fn run_step(st: RunSt, ev: EvV) -> Option<RunSt> {
    match ev {
        EvV::Start { name, attrs } => {
            if name == name_view() {
                if st.ctx is Some {
                    None
                } else {
                    Some(
                        RunSt {
                            stack: st.stack.push(name),
                            ctx: Some(
                                ViewV {
                                    name: match attr_first(attrs, attr_name()) {
                                        Some(v) => v,
                                        None => Seq::empty(),
                                    },
                                    images: Seq::empty(),
                                    bones: Seq::empty(),
                                },
                            ),
                            acc: st.acc,
                        },
                    )
                }
            } else {
                Some(RunSt { stack: st.stack.push(name), ..st })
            }
        },
        EvV::Empty { name, attrs } => {
            if name == name_image() {
                match st.ctx {
                    None => None,
                    Some(v) => Some(
                        RunSt {
                            ctx: Some(
                                ViewV {
                                    images: v.images.push(
                                        match attr_first(attrs, attr_file()) {
                                            Some(f) => f,
                                            None => Seq::empty(),
                                        },
                                    ),
                                    ..v
                                },
                            ),
                            ..st
                        },
                    ),
                }
            } else if name == name_bone() {
                match st.ctx {
                    None => None,
                    Some(v) => match bone_fold(attrs, bone_default()) {
                        None => None,
                        Some(b) => Some(
                            RunSt { ctx: Some(ViewV { bones: v.bones.push(b), ..v }), ..st },
                        ),
                    },
                }
            } else {
                Some(st)
            }
        },
        EvV::End { name } => {
            if st.stack.len() == 0 || st.stack.last() != name {
                None
            } else if name == name_view() {
                match st.ctx {
                    None => None,
                    Some(v) => Some(
                        RunSt { stack: st.stack.drop_last(), ctx: None, acc: st.acc.push(v) },
                    ),
                }
            } else {
                Some(RunSt { stack: st.stack.drop_last(), ..st })
            }
        },
        EvV::Eof => None,
    }
}

/// Runs the parser to end of input; `Some` only when every element was
/// closed and no fatal error occurred.
pub open spec fn spec_run(s: Seq<u8>, st: RunSt) -> Option<Seq<ViewV>>
    decreases s.len(),
{
    match parse_ev(s) {
        None => None,
        Some(pr) => {
            if pr.0 is Eof {
                if st.stack.len() == 0 && st.ctx is None {
                    Some(st.acc)
                } else {
                    None
                }
            } else if 0 < pr.1 <= s.len() {
                match run_step(st, pr.0) {
                    None => None,
                    Some(st2) => spec_run(s.skip(pr.1 as int), st2),
                }
            } else {
                None
            }
        },
    }
}

pub open spec fn strip_bom(s: Seq<u8>) -> Seq<u8> {
    if s.len() >= 3 && s[0] == 239 && s[1] == 187 && s[2] == 191 {
        s.skip(3)
    } else {
        s
    }
}

/// What decoding a byte string yields: the document, or `None` when the
/// text is malformed. An optional leading byte-order mark is accepted.
pub open spec fn spec_decode(s: Seq<u8>) -> Option<Seq<ViewV>> {
    spec_run(strip_bom(s), init_st())
}


// --- Executable decoder ---

/// A fatal decode error, reported with the byte offset of the fault.
#[derive(Debug)]
pub struct DecodeError {
    pub offset: usize,
}

/// One event of the streaming parser.
pub enum Event {
    Start(Vec<u8>, Vec<(Vec<u8>, Vec<u8>)>),
    Empty(Vec<u8>, Vec<(Vec<u8>, Vec<u8>)>),
    End(Vec<u8>),
    Eof,
}

pub open spec fn attrs_v(a: Seq<(Vec<u8>, Vec<u8>)>) -> Seq<(Seq<u8>, Seq<u8>)> {
    Seq::new(a.len(), |i: int| (a[i].0@, a[i].1@))
}

pub open spec fn ev_v(e: &Event) -> EvV {
    match e {
        Event::Start(n, a) => EvV::Start { name: n@, attrs: attrs_v(a@) },
        Event::Empty(n, a) => EvV::Empty { name: n@, attrs: attrs_v(a@) },
        Event::End(n) => EvV::End { name: n@ },
        Event::Eof => EvV::Eof,
    }
}

fn scan_ws(s: &Vec<u8>, pos: usize) -> (r: usize)
    requires
        pos <= s@.len(),
    ensures
        pos <= r <= s@.len(),
        r - pos == count_ws(s@.skip(pos as int)),
{
    let mut i: usize = pos;
    while i < s.len() && (s[i] == SP || s[i] == TAB || s[i] == NL || s[i] == CR)
        invariant
            pos <= i <= s@.len(),
            count_ws(s@.skip(pos as int)) == i - pos + count_ws(s@.skip(i as int)),
        decreases s@.len() - i,
    {
        proof {
            let t = s@.skip(i as int);
            assert(t[0] == s@[i as int]);
            assert(t.drop_first() =~= s@.skip(i as int + 1));
        }
        i += 1;
    }
    proof {
        let t = s@.skip(i as int);
        if i < s.len() {
            assert(t[0] == s@[i as int]);
        }
        assert(count_ws(t) == 0);
    }
    i
}

fn scan_name(s: &Vec<u8>, pos: usize) -> (r: usize)
    requires
        pos <= s@.len(),
    ensures
        pos <= r <= s@.len(),
        r - pos == count_name(s@.skip(pos as int)),
{
    let mut i: usize = pos;
    while i < s.len() && s[i] != SP && s[i] != TAB && s[i] != NL && s[i] != CR && s[i] != SLASH
        && s[i] != GT && s[i] != EQS
        invariant
            pos <= i <= s@.len(),
            count_name(s@.skip(pos as int)) == i - pos + count_name(s@.skip(i as int)),
        decreases s@.len() - i,
    {
        proof {
            let t = s@.skip(i as int);
            assert(t[0] == s@[i as int]);
            assert(t.drop_first() =~= s@.skip(i as int + 1));
        }
        i += 1;
    }
    proof {
        let t = s@.skip(i as int);
        if i < s.len() {
            assert(t[0] == s@[i as int]);
        }
        assert(count_name(t) == 0);
    }
    i
}

fn find_lt_at(s: &Vec<u8>, pos: usize) -> (r: Option<usize>)
    requires
        pos <= s@.len(),
    ensures
        match r {
            Some(j) => pos <= j < s@.len() && s@[j as int] == LT && find_lt(
                s@.skip(pos as int),
            ) == Some((j - pos) as nat),
            None => find_lt(s@.skip(pos as int)) is None,
        },
{
    let mut i: usize = pos;
    while i < s.len()
        invariant
            pos <= i <= s@.len(),
            find_lt(s@.skip(pos as int)) == match find_lt(s@.skip(i as int)) {
                Some(j) => Some((i - pos + j) as nat),
                None => None::<nat>,
            },
        decreases s@.len() - i,
    {
        proof {
            let t = s@.skip(i as int);
            assert(t[0] == s@[i as int]);
            assert(t.drop_first() =~= s@.skip(i as int + 1));
        }
        if s[i] == LT {
            return Some(i);
        }
        i += 1;
    }
    proof {
        assert(s@.skip(i as int).len() == 0);
    }
    None
}

fn find_quot_at(s: &Vec<u8>, pos: usize) -> (r: Option<usize>)
    requires
        pos <= s@.len(),
    ensures
        match r {
            Some(j) => pos <= j < s@.len() && s@[j as int] == QUOT && find_quot(
                s@.skip(pos as int),
            ) == Some((j - pos) as nat),
            None => find_quot(s@.skip(pos as int)) is None,
        },
{
    let mut i: usize = pos;
    while i < s.len()
        invariant
            pos <= i <= s@.len(),
            find_quot(s@.skip(pos as int)) == match find_quot(s@.skip(i as int)) {
                Some(j) => Some((i - pos + j) as nat),
                None => None::<nat>,
            },
        decreases s@.len() - i,
    {
        proof {
            let t = s@.skip(i as int);
            assert(t[0] == s@[i as int]);
            assert(t.drop_first() =~= s@.skip(i as int + 1));
        }
        if s[i] == QUOT {
            return Some(i);
        }
        i += 1;
    }
    proof {
        assert(s@.skip(i as int).len() == 0);
    }
    None
}

fn copy_range(s: &Vec<u8>, from: usize, to: usize) -> (r: Vec<u8>)
    requires
        from <= to <= s@.len(),
    ensures
        r@ == s@.subrange(from as int, to as int),
{
    let mut out: Vec<u8> = Vec::new();
    let mut i: usize = from;
    proof {
        assert(s@.subrange(from as int, from as int) =~= Seq::<u8>::empty());
    }
    while i < to
        invariant
            from <= i <= to <= s@.len(),
            out@ == s@.subrange(from as int, i as int),
        decreases to - i,
    {
        out.push(s[i]);
        proof {
            assert(s@.subrange(from as int, i as int).push(s@[i as int]) =~= s@.subrange(
                from as int,
                i as int + 1,
            ));
        }
        i += 1;
    }
    out
}

#[verifier::rlimit(100)]
fn parse_attrs_exec(s: &Vec<u8>, pos: usize) -> (r: Result<(Vec<(Vec<u8>, Vec<u8>)>, usize), usize>)
    requires
        pos <= s@.len(),
    ensures
        match r {
            Ok(pr) => pos <= pr.1 <= s@.len() && parse_attrs(s@.skip(pos as int)) == Some(
                (attrs_v(pr.0@), (pr.1 - pos) as nat),
            ),
            Err(_) => parse_attrs(s@.skip(pos as int)) is None,
        },
    decreases s@.len() - pos,
{
    let ghost s0 = s@.skip(pos as int);
    let w = scan_ws(s, pos);
    proof {
        assert(count_ws(s0) == w - pos);
    }
    if w >= s.len() {
        return Err(w);
    }
    proof {
        assert(s0.skip((w - pos) as int) =~= s@.skip(w as int));
        assert(s@.skip(w as int)[0] == s@[w as int]);
    }
    let b0 = s[w];
    if b0 == SLASH || b0 == GT {
        let empty_attrs: Vec<(Vec<u8>, Vec<u8>)> = Vec::new();
        proof {
            assert(attrs_v(empty_attrs@) =~= Seq::<(Seq<u8>, Seq<u8>)>::empty());
        }
        return Ok((empty_attrs, w));
    }
    let ne = scan_name(s, w);
    proof {
        assert(count_name(s@.skip(w as int)) == ne - w);
    }
    if ne == w {
        return Err(w);
    }
    if s.len() - ne < 2 {
        return Err(ne);
    }
    proof {
        assert(s@.skip(w as int)[(ne - w) as int] == s@[ne as int]);
        assert(s@.skip(w as int)[(ne - w) as int + 1] == s@[ne as int + 1]);
    }
    if s[ne] != EQS || s[ne + 1] != QUOT {
        return Err(ne);
    }
    proof {
        assert(s@.skip(w as int).skip((ne - w) as int + 2) =~= s@.skip(ne as int + 2));
    }
    match find_quot_at(s, ne + 2) {
        None => {
            return Err(ne + 2);
        },
        Some(q) => {
            proof {
                assert(s@.skip(ne as int + 2).take((q - (ne + 2)) as int) =~= s@.subrange(
                    ne as int + 2,
                    q as int,
                ));
            }
            match unescape_range(s, ne + 2, q) {
                None => {
                    return Err(ne + 2);
                },
                Some(val) => {
                    let nm = copy_range(s, w, ne);
                    proof {
                        assert(s@.skip(w as int).take((ne - w) as int) =~= s@.subrange(
                            w as int,
                            ne as int,
                        ));
                    }
                    let cpos = q + 1;
                    proof {
                        assert(s0.skip((cpos - pos) as int) =~= s@.skip(cpos as int));
                    }
                    match parse_attrs_exec(s, cpos) {
                        Err(e) => {
                            return Err(e);
                        },
                        Ok((rest, newpos)) => {
                            let ghost rest_v = attrs_v(rest@);
                            let mut attrs = rest;
                            attrs.insert(0, (nm, val));
                            proof {
                                assert(attrs_v(attrs@) =~= seq![(nm@, val@)] + rest_v);
                            }
                            return Ok((attrs, newpos));
                        },
                    }
                },
            }
        },
    }
}

#[verifier::rlimit(100)]
fn parse_ev_exec(s: &Vec<u8>, pos: usize) -> (r: Result<(Event, usize), usize>)
    requires
        pos <= s@.len(),
    ensures
        match r {
            Ok(pr) => pos <= pr.1 <= s@.len() && parse_ev(s@.skip(pos as int)) == Some(
                (ev_v(&pr.0), (pr.1 - pos) as nat),
            ) && (!(ev_v(&pr.0) is Eof) ==> pr.1 > pos),
            Err(_) => parse_ev(s@.skip(pos as int)) is None,
        },
{
    let ghost s0 = s@.skip(pos as int);
    match find_lt_at(s, pos) {
        None => {
            return Ok((Event::Eof, s.len()));
        },
        Some(lt) => {
            if s.len() - lt < 2 {
                return Err(lt);
            }
            proof {
                assert(s0.skip((lt - pos) as int + 1) =~= s@.skip(lt as int + 1));
                assert(s@.skip(lt as int + 1)[0] == s@[lt as int + 1]);
            }
            if s[lt + 1] == SLASH {
                let ns = lt + 2;
                proof {
                    assert(s@.skip(lt as int + 1).skip(1) =~= s@.skip(lt as int + 2));
                }
                let ne = scan_name(s, ns);
                if ne == ns {
                    return Err(ns);
                }
                proof {
                    assert(s@.skip(lt as int + 1).skip(1 + (ne - ns) as int) =~= s@.skip(
                        ne as int,
                    ));
                }
                let w = scan_ws(s, ne);
                if w >= s.len() {
                    return Err(ne);
                }
                proof {
                    assert(s@.skip(ne as int)[(w - ne) as int] == s@[w as int]);
                }
                if s[w] != GT {
                    return Err(w);
                }
                let name = copy_range(s, ns, ne);
                proof {
                    assert(s@.skip(lt as int + 1).skip(1).take((ne - ns) as int) =~= s@.subrange(
                        ns as int,
                        ne as int,
                    ));
                }
                return Ok((Event::End(name), w + 1));
            } else {
                let ns = lt + 1;
                let ne = scan_name(s, ns);
                if ne == ns {
                    return Err(ns);
                }
                proof {
                    assert(s@.skip(lt as int + 1).skip((ne - ns) as int) =~= s@.skip(ne as int));
                }
                match parse_attrs_exec(s, ne) {
                    Err(e) => {
                        return Err(e);
                    },
                    Ok((attrs, ap)) => {
                        proof {
                            assert(s@.skip(lt as int + 1).skip((ne - ns) as int + (ap
                                - ne) as int) =~= s@.skip(ap as int));
                        }
                        if ap >= s.len() {
                            return Err(ap);
                        }
                        proof {
                            assert(s@.skip(ap as int)[0] == s@[ap as int]);
                        }
                        let b = s[ap];
                        if b == GT {
                            let name = copy_range(s, ns, ne);
                            proof {
                                assert(s@.skip(lt as int + 1).take((ne - ns) as int) =~=
                                    s@.subrange(ns as int, ne as int));
                            }
                            return Ok((Event::Start(name, attrs), ap + 1));
                        } else if b == SLASH && s.len() - ap >= 2 {
                            proof {
                                assert(s@.skip(ap as int)[1] == s@[ap as int + 1]);
                            }
                            if s[ap + 1] == GT {
                                let name = copy_range(s, ns, ne);
                                proof {
                                    assert(s@.skip(lt as int + 1).take((ne - ns) as int) =~=
                                        s@.subrange(ns as int, ne as int));
                                }
                                return Ok((Event::Empty(name, attrs), ap + 2));
                            } else {
                                return Err(ap);
                            }
                        } else {
                            return Err(ap);
                        }
                    },
                }
            }
        },
    }
}

fn attr_first_exec(attrs: &Vec<(Vec<u8>, Vec<u8>)>, name: &Vec<u8>) -> (r: Option<Vec<u8>>)
    ensures
        match r {
            Some(v) => attr_first(attrs_v(attrs@), name@) == Some(v@),
            None => attr_first(attrs_v(attrs@), name@) is None,
        },
{
    let mut i: usize = 0;
    proof {
        assert(attrs_v(attrs@).skip(0) =~= attrs_v(attrs@));
    }
    while i < attrs.len()
        invariant
            0 <= i <= attrs@.len(),
            attrs_v(attrs@).len() == attrs@.len(),
            attr_first(attrs_v(attrs@), name@) == attr_first(
                attrs_v(attrs@).skip(i as int),
                name@,
            ),
        decreases attrs.len() - i,
    {
        proof {
            let t = attrs_v(attrs@).skip(i as int);
            assert(t[0] == attrs_v(attrs@)[i as int]);
            assert(t.drop_first() =~= attrs_v(attrs@).skip(i as int + 1));
        }
        let pair = &attrs[i];
        if bytes_eq(&pair.0, name) {
            let v = copy_range(&pair.1, 0, pair.1.len());
            proof {
                assert(pair.1@.subrange(0, pair.1@.len() as int) =~= pair.1@);
            }
            return Some(v);
        }
        i += 1;
    }
    proof {
        assert(attrs_v(attrs@).skip(i as int).len() == 0);
    }
    None
}

/// Builds a bone from a `Bone` element's attributes, rejecting a
/// non-numeric coordinate.
fn build_bone(attrs: &Vec<(Vec<u8>, Vec<u8>)>) -> (r: Option<SchemaBone>)
    ensures
        match r {
            Some(b) => bone_fold(attrs_v(attrs@), bone_default()) == Some(b@) && wf_bone(b@),
            None => bone_fold(attrs_v(attrs@), bone_default()) is None,
        },
{
    let mut bone = SchemaBone::default();
    proof {
        assert(bone@ == bone_default());
        assert(attrs_v(attrs@).skip(0) =~= attrs_v(attrs@));
    }
    let label_lit: Vec<u8> = vec![L_L, L_A, L_B, L_E, L_L];
    let name_lit: Vec<u8> = vec![L_N, L_A, L_M, L_E];
    let x_lit: Vec<u8> = vec![L_X];
    let y_lit: Vec<u8> = vec![L_Y];
    proof {
        assert(label_lit@ =~= attr_label());
        assert(name_lit@ =~= attr_name());
        assert(x_lit@ =~= attr_x());
        assert(y_lit@ =~= attr_y());
    }
    let mut i: usize = 0;
    while i < attrs.len()
        invariant
            0 <= i <= attrs@.len(),
            attrs_v(attrs@).len() == attrs@.len(),
            wf_bone(bone@),
            label_lit@ == attr_label(),
            name_lit@ == attr_name(),
            x_lit@ == attr_x(),
            y_lit@ == attr_y(),
            bone_fold(attrs_v(attrs@), bone_default()) == bone_fold(
                attrs_v(attrs@).skip(i as int),
                bone@,
            ),
        decreases attrs.len() - i,
    {
        proof {
            let t = attrs_v(attrs@).skip(i as int);
            assert(t[0] == attrs_v(attrs@)[i as int]);
            assert(t.drop_first() =~= attrs_v(attrs@).skip(i as int + 1));
        }
        let pair = &attrs[i];
        if bytes_eq(&pair.0, &label_lit) {
            let v = copy_range(&pair.1, 0, pair.1.len());
            proof {
                assert(pair.1@.subrange(0, pair.1@.len() as int) =~= pair.1@);
            }
            bone.label = v;
        } else if bytes_eq(&pair.0, &name_lit) {
            let v = copy_range(&pair.1, 0, pair.1.len());
            proof {
                assert(pair.1@.subrange(0, pair.1@.len() as int) =~= pair.1@);
            }
            bone.name = v;
        } else if bytes_eq(&pair.0, &x_lit) {
            if !is_decimal_bytes(&pair.1) {
                return None;
            }
            let v = copy_range(&pair.1, 0, pair.1.len());
            proof {
                assert(pair.1@.subrange(0, pair.1@.len() as int) =~= pair.1@);
            }
            bone.x = v;
        } else if bytes_eq(&pair.0, &y_lit) {
            if !is_decimal_bytes(&pair.1) {
                return None;
            }
            let v = copy_range(&pair.1, 0, pair.1.len());
            proof {
                assert(pair.1@.subrange(0, pair.1@.len() as int) =~= pair.1@);
            }
            bone.y = v;
        }
        i += 1;
    }
    proof {
        assert(attrs_v(attrs@).skip(i as int).len() == 0);
    }
    Some(bone)
}

/// The folding state as the model sees it.
pub open spec fn st_of(stack: Seq<Vec<u8>>, ctx: Option<SchemaView>, acc: Seq<ViewV>) -> RunSt {
    RunSt {
        stack: Seq::new(stack.len(), |i: int| stack[i]@),
        ctx: match ctx {
            Some(v) => Some(v@),
            None => None,
        },
        acc,
    }
}

impl SchemaData {
    /// Decodes a byte string into a document. All-or-nothing: any
    /// malformed text, bad coordinate, or misplaced element yields an
    /// error carrying the byte offset, and no document.
    #[verifier::rlimit(100)]
    pub fn deserialize(bytes: &Vec<u8>) -> (r: Result<SchemaData, DecodeError>)
        ensures
            match r {
                Ok(d) => spec_decode(bytes@) == Some(d@) && wf_doc(d@),
                Err(_) => spec_decode(bytes@) is None,
            },
    {
        let mut pos: usize = 0;
        if bytes.len() >= 3 && bytes[0] == 239 && bytes[1] == 187 && bytes[2] == 191 {
            pos = 3;
        }
        proof {
            assert(strip_bom(bytes@) =~= bytes@.skip(pos as int));
        }
        let ghost s0 = bytes@.skip(pos as int);
        let mut stack: Vec<Vec<u8>> = Vec::new();
        let mut ctx: Option<SchemaView> = None;
        let mut doc = SchemaData { views: Vec::new() };
        proof {
            assert(st_of(stack@, ctx, doc@).stack =~= init_st().stack);
            assert(st_of(stack@, ctx, doc@).acc =~= init_st().acc);
            assert(st_of(stack@, ctx, doc@) == init_st());
        }
        let view_lit: Vec<u8> = vec![U_V, L_I, L_E, L_W];
        let image_lit: Vec<u8> = vec![U_I, L_M, L_A, L_G, L_E];
        let bone_lit: Vec<u8> = vec![U_B, L_O, L_N, L_E];
        let nameattr_lit: Vec<u8> = vec![L_N, L_A, L_M, L_E];
        let fileattr_lit: Vec<u8> = vec![L_F, L_I, L_L, L_E];
        proof {
            assert(view_lit@ =~= name_view());
            assert(image_lit@ =~= name_image());
            assert(bone_lit@ =~= name_bone());
            assert(nameattr_lit@ =~= attr_name());
            assert(fileattr_lit@ =~= attr_file());
        }
        loop
            invariant
                pos <= bytes@.len(),
                view_lit@ == name_view(),
                image_lit@ == name_image(),
                bone_lit@ == name_bone(),
                nameattr_lit@ == attr_name(),
                fileattr_lit@ == attr_file(),
                spec_run(s0, init_st()) == spec_run(
                    bytes@.skip(pos as int),
                    st_of(stack@, ctx, doc@),
                ),
                s0 == strip_bom(bytes@),
                wf_doc(doc@),
                match ctx {
                    Some(v) => wf_view(v@),
                    None => true,
                },
            decreases bytes@.len() - pos,
        {
            let ghost cur = st_of(stack@, ctx, doc@);
            match parse_ev_exec(bytes, pos) {
                Err(e) => {
                    return Err(DecodeError { offset: e });
                },
                Ok((ev, np)) => {
                    let ghost c = (np - pos) as nat;
                    let ghost evg = ev_v(&ev);
                    proof {
                        if !(evg is Eof) {
                            assert(bytes@.skip(pos as int).skip(c as int) =~= bytes@.skip(
                                np as int,
                            ));
                        }
                    }
                    match ev {
                        Event::Eof => {
                            if stack.len() == 0 && ctx.is_none() {
                                return Ok(doc);
                            } else {
                                return Err(DecodeError { offset: pos });
                            }
                        },
                        Event::Start(name, attrs) => {
                            if bytes_eq(&name, &view_lit) {
                                if ctx.is_some() {
                                    return Err(DecodeError { offset: pos });
                                }
                                let vname = match attr_first_exec(&attrs, &nameattr_lit) {
                                    Some(v) => v,
                                    None => Vec::new(),
                                };
                                let view = SchemaView {
                                    name: vname,
                                    bones: Vec::new(),
                                    images: Vec::new(),
                                };
                                stack.push(name);
                                ctx = Some(view);
                                proof {
                                    let st2 = run_step(cur, evg).unwrap();
                                    assert(st_of(stack@, ctx, doc@).stack =~= st2.stack);
                                    assert(st_of(stack@, ctx, doc@).ctx.unwrap().images =~=
                                        st2.ctx.unwrap().images);
                                    assert(st_of(stack@, ctx, doc@).ctx.unwrap().bones =~=
                                        st2.ctx.unwrap().bones);
                                    assert(st_of(stack@, ctx, doc@) == st2);
                                }
                            } else {
                                proof {
                                    assert(name@ != name_view());
                                }
                                stack.push(name);
                                proof {
                                    let st2 = run_step(cur, evg).unwrap();
                                    assert(st_of(stack@, ctx, doc@).stack =~= st2.stack);
                                    assert(st_of(stack@, ctx, doc@) == st2);
                                }
                            }
                        },
                        Event::Empty(name, attrs) => {
                            if bytes_eq(&name, &image_lit) {
                                let file = match attr_first_exec(&attrs, &fileattr_lit) {
                                    Some(v) => v,
                                    None => Vec::new(),
                                };
                                match &mut ctx {
                                    Some(v) => {
                                        v.images.push(SchemaImage { file });
                                    },
                                    None => {
                                        return Err(DecodeError { offset: pos });
                                    },
                                }
                                proof {
                                    let st2 = run_step(cur, evg).unwrap();
                                    assert(st_of(stack@, ctx, doc@).ctx.unwrap().images =~=
                                        st2.ctx.unwrap().images);
                                    assert(st_of(stack@, ctx, doc@).ctx.unwrap().bones =~=
                                        st2.ctx.unwrap().bones);
                                    assert(st_of(stack@, ctx, doc@) == st2);
                                }
                            } else if bytes_eq(&name, &bone_lit) {
                                let b = match build_bone(&attrs) {
                                    Some(b) => b,
                                    None => {
                                        return Err(DecodeError { offset: pos });
                                    },
                                };
                                match &mut ctx {
                                    Some(v) => {
                                        v.bones.push(b);
                                    },
                                    None => {
                                        return Err(DecodeError { offset: pos });
                                    },
                                }
                                proof {
                                    let st2 = run_step(cur, evg).unwrap();
                                    assert(st_of(stack@, ctx, doc@).ctx.unwrap().images =~=
                                        st2.ctx.unwrap().images);
                                    assert(st_of(stack@, ctx, doc@).ctx.unwrap().bones =~=
                                        st2.ctx.unwrap().bones);
                                    assert(st_of(stack@, ctx, doc@) == st2);
                                }
                            } else {
                                proof {
                                    assert(name@ != name_image());
                                    assert(name@ != name_bone());
                                    assert(run_step(cur, evg) == Some(cur));
                                }
                            }
                        },
                        Event::End(name) => {
                            if stack.len() == 0 {
                                return Err(DecodeError { offset: pos });
                            }
                            let matched = bytes_eq(&stack[stack.len() - 1], &name);
                            if !matched {
                                proof {
                                    assert(cur.stack.last() == stack@[stack@.len() - 1]@);
                                }
                                return Err(DecodeError { offset: pos });
                            }
                            stack.pop();
                            if bytes_eq(&name, &view_lit) {
                                let taken = ctx;
                                ctx = None;
                                match taken {
                                    None => {
                                        return Err(DecodeError { offset: pos });
                                    },
                                    Some(v) => {
                                        let ghost old_doc = doc@;
                                        doc.views.push(v);
                                        proof {
                                            let st2 = run_step(cur, evg).unwrap();
                                            assert(st_of(stack@, ctx, doc@).stack =~= st2.stack);
                                            assert(st_of(stack@, ctx, doc@).acc =~= st2.acc);
                                            assert(st_of(stack@, ctx, doc@) == st2);
                                            assert(doc@ =~= old_doc.push(v@));
                                            assert forall|k: int| 0 <= k < doc@.len() implies
                                                wf_view(#[trigger] doc@[k]) by {
                                                if k < old_doc.len() {
                                                    assert(doc@[k] == old_doc[k]);
                                                }
                                            }
                                        }
                                    },
                                }
                            } else {
                                proof {
                                    assert(name@ != name_view());
                                    let st2 = run_step(cur, evg).unwrap();
                                    assert(st_of(stack@, ctx, doc@).stack =~= st2.stack);
                                    assert(st_of(stack@, ctx, doc@) == st2);
                                }
                            }
                        },
                    }
                    pos = np;
                },
            }
        }
    }
}

} // verus!
