//! Round-trip laws of the XML codec: decoding an encoded document gives
//! the document back, and re-encoding what was decoded reproduces the
//! bytes.

use vstd::prelude::*;
use crate::text::{
    esc, unesc, lemma_esc_no_quote, lemma_unesc_esc, EQS, GT, LT, NL, QUOT, SLASH, SP, TAB,
};
use crate::schema::{BoneV, ViewV, wf_bone, wf_doc, wf_view};
use crate::encode::{
    attr_file, attr_label, attr_name, attr_x, attr_y, bom, enc_attr, enc_bone, enc_bones,
    enc_doc, enc_image, enc_images, enc_view, enc_views, name_bone, name_image, name_view,
    name_views,
};
use crate::decode::{
    attr_first, bone_default, bone_fold, count_name, count_ws, find_lt, find_quot, init_st,
    is_name_byte, is_ws, parse_attrs, parse_ev, run_step, spec_decode, spec_run, strip_bom, EvV, RunSt,
};

verus! {

proof fn lemma_count_ws_prefix(a: Seq<u8>, b: Seq<u8>)
    requires
        forall|i: int| 0 <= i < a.len() ==> is_ws(#[trigger] a[i]),
        b.len() == 0 || !is_ws(b[0]),
    ensures
        count_ws(a + b) == a.len(),
    decreases a.len(),
{
    if a.len() == 0 {
        assert(a + b =~= b);
    } else {
        lemma_count_ws_prefix(a.drop_first(), b);
        assert((a + b)[0] == a[0]);
        assert((a + b).drop_first() =~= a.drop_first() + b);
    }
}

proof fn lemma_count_name_prefix(a: Seq<u8>, b: Seq<u8>)
    requires
        forall|i: int| 0 <= i < a.len() ==> is_name_byte(#[trigger] a[i]),
        b.len() == 0 || !is_name_byte(b[0]),
    ensures
        count_name(a + b) == a.len(),
    decreases a.len(),
{
    if a.len() == 0 {
        assert(a + b =~= b);
    } else {
        lemma_count_name_prefix(a.drop_first(), b);
        assert((a + b)[0] == a[0]);
        assert((a + b).drop_first() =~= a.drop_first() + b);
    }
}

proof fn lemma_find_lt_prefix(a: Seq<u8>, b: Seq<u8>)
    requires
        forall|i: int| 0 <= i < a.len() ==> #[trigger] a[i] != LT,
        b.len() > 0,
        b[0] == LT,
    ensures
        find_lt(a + b) == Some(a.len() as nat),
    decreases a.len(),
{
    if a.len() == 0 {
        assert(a + b =~= b);
    } else {
        lemma_find_lt_prefix(a.drop_first(), b);
        assert((a + b)[0] == a[0]);
        assert((a + b).drop_first() =~= a.drop_first() + b);
    }
}

proof fn lemma_find_quot_prefix(a: Seq<u8>, b: Seq<u8>)
    requires
        forall|i: int| 0 <= i < a.len() ==> #[trigger] a[i] != QUOT,
        b.len() > 0,
        b[0] == QUOT,
    ensures
        find_quot(a + b) == Some(a.len() as nat),
    decreases a.len(),
{
    if a.len() == 0 {
        assert(a + b =~= b);
    } else {
        lemma_find_quot_prefix(a.drop_first(), b);
        assert((a + b)[0] == a[0]);
        assert((a + b).drop_first() =~= a.drop_first() + b);
    }
}

proof fn lemma_parse_attrs_stop(s: Seq<u8>)
    requires
        s.len() > 0,
        s[0] == SLASH || s[0] == GT,
    ensures
        parse_attrs(s) == Some((Seq::<(Seq<u8>, Seq<u8>)>::empty(), 0nat)),
{
    assert(!is_ws(s[0]));
    assert(count_ws(s) == 0);
    assert(s.skip(0) =~= s);
}

/// All bytes of the fixed element and attribute names are name bytes.
proof fn lemma_names_are_names()
    ensures
        forall|i: int| 0 <= i < name_views().len() ==> is_name_byte(#[trigger] name_views()[i]),
        forall|i: int| 0 <= i < name_view().len() ==> is_name_byte(#[trigger] name_view()[i]),
        forall|i: int| 0 <= i < name_image().len() ==> is_name_byte(#[trigger] name_image()[i]),
        forall|i: int| 0 <= i < name_bone().len() ==> is_name_byte(#[trigger] name_bone()[i]),
        forall|i: int| 0 <= i < attr_name().len() ==> is_name_byte(#[trigger] attr_name()[i]),
        forall|i: int| 0 <= i < attr_file().len() ==> is_name_byte(#[trigger] attr_file()[i]),
        forall|i: int| 0 <= i < attr_label().len() ==> is_name_byte(#[trigger] attr_label()[i]),
        forall|i: int| 0 <= i < attr_x().len() ==> is_name_byte(#[trigger] attr_x()[i]),
        forall|i: int| 0 <= i < attr_y().len() ==> is_name_byte(#[trigger] attr_y()[i]),
{
}

/// One step of the parser run, isolated so that callers need not
/// unfold `spec_run` themselves.
proof fn lemma_run_step(s: Seq<u8>, st: RunSt, ev: EvV, c: nat, st2: RunSt)
    requires
        parse_ev(s) == Some((ev, c)),
        !(ev is Eof),
        0 < c <= s.len(),
        run_step(st, ev) == Some(st2),
    ensures
        spec_run(s, st) == spec_run(s.skip(c as int), st2),
{
}

/// The run on empty input succeeds exactly when everything is closed.
proof fn lemma_run_empty(st: RunSt)
    requires
        st.stack.len() == 0,
        st.ctx is None,
    ensures
        spec_run(Seq::empty(), st) == Some(st.acc),
{
    assert(find_lt(Seq::<u8>::empty()) is None);
}

/// Parsing one encoded attribute prepends its pair to whatever the rest
/// of the attribute list parses to.
proof fn lemma_parse_attr_cons(anm: Seq<u8>, aval: Seq<u8>, rest: Seq<u8>)
    requires
        anm.len() > 0,
        forall|i: int| 0 <= i < anm.len() ==> is_name_byte(#[trigger] anm[i]),
        parse_attrs(rest) is Some,
    ensures
        parse_attrs(enc_attr(anm, aval) + rest) == Some(
            (
                seq![(anm, aval)] + parse_attrs(rest).unwrap().0,
                (enc_attr(anm, aval).len() + parse_attrs(rest).unwrap().1) as nat,
            ),
        ),
{
    let s = enc_attr(anm, aval) + rest;
    let tail1 = anm + seq![EQS, QUOT] + esc(aval) + seq![QUOT] + rest;
    assert(s =~= seq![SP] + tail1);
    assert(tail1[0] == anm[0]);
    assert(!is_ws(tail1[0]));
    lemma_count_ws_prefix(seq![SP], tail1);
    assert(count_ws(s) == 1);
    assert(s.len() > 1);
    let u = s.skip(1);
    assert(u =~= tail1);
    let tail2 = seq![EQS, QUOT] + esc(aval) + seq![QUOT] + rest;
    assert(u =~= anm + tail2);
    assert(u[0] == anm[0]);
    assert(is_name_byte(u[0]));
    assert(!(u[0] == SLASH || u[0] == GT));
    assert(!is_name_byte(tail2[0]));
    lemma_count_name_prefix(anm, tail2);
    assert(count_name(u) == anm.len());
    let n = anm.len() as int;
    assert(u[n] == EQS);
    assert(u[n + 1] == QUOT);
    assert(n + 2 <= u.len());
    let v = u.skip(n + 2);
    let tail3 = seq![QUOT] + rest;
    assert(v =~= esc(aval) + tail3);
    lemma_esc_no_quote(aval);
    lemma_find_quot_prefix(esc(aval), tail3);
    assert(find_quot(v) == Some(esc(aval).len()));
    let q = esc(aval).len() as int;
    assert(v.take(q) =~= esc(aval));
    lemma_unesc_esc(aval);
    assert(unesc(v.take(q)) == Some(aval));
    let c = 1 + n + 2 + q + 1;
    assert(c == enc_attr(anm, aval).len());
    assert(0 < c <= s.len());
    assert(s.skip(c) =~= rest);
    assert(u.take(n) =~= anm);
    assert(parse_attrs(s) == Some(
        (
            seq![(anm, aval)] + parse_attrs(rest).unwrap().0,
            (c + parse_attrs(rest).unwrap().1) as nat,
        ),
    ));
}

/// Parsing the root start tag.
proof fn lemma_ev_views_open(rest: Seq<u8>)
    ensures
        parse_ev(seq![LT] + name_views() + seq![GT] + rest) == Some(
            (
                EvV::Start { name: name_views(), attrs: Seq::empty() },
                (seq![LT] + name_views() + seq![GT]).len() as nat,
            ),
        ),
{
    lemma_names_are_names();
    let s = seq![LT] + name_views() + seq![GT] + rest;
    assert(s[0] == LT);
    assert(find_lt(s) == Some(0nat));
    assert(s.len() > 1);
    let t = s.skip(1);
    let tail = seq![GT] + rest;
    assert(t =~= name_views() + tail);
    assert(t[0] == name_views()[0]);
    assert(t[0] != SLASH);
    assert(!is_name_byte(tail[0]));
    lemma_count_name_prefix(name_views(), tail);
    assert(count_name(t) == 5);
    assert(t.skip(5) =~= tail);
    lemma_parse_attrs_stop(tail);
    assert(t.take(5) =~= name_views());
    assert(t.skip(5int)[0] == GT);
    assert(parse_ev(s) == Some(
        (EvV::Start { name: name_views(), attrs: Seq::empty() }, 7nat),
    ));
    assert((seq![LT] + name_views() + seq![GT]).len() == 7);
}

/// Parsing a view start tag.
proof fn lemma_ev_view_open(nm: Seq<u8>, rest: Seq<u8>)
    ensures
        parse_ev(
            (seq![NL, TAB, LT] + name_view() + enc_attr(attr_name(), nm) + seq![GT]) + rest,
        ) == Some(
            (
                EvV::Start { name: name_view(), attrs: seq![(attr_name(), nm)] },
                (seq![NL, TAB, LT] + name_view() + enc_attr(attr_name(), nm) + seq![GT]).len()
                    as nat,
            ),
        ),
{
    lemma_names_are_names();
    let chunk = seq![NL, TAB, LT] + name_view() + enc_attr(attr_name(), nm) + seq![GT];
    let s = chunk + rest;
    let after_lt = name_view() + enc_attr(attr_name(), nm) + seq![GT] + rest;
    assert(s =~= seq![NL, TAB] + (seq![LT] + after_lt));
    assert((seq![LT] + after_lt)[0] == LT);
    lemma_find_lt_prefix(seq![NL, TAB], seq![LT] + after_lt);
    assert(find_lt(s) == Some(2nat));
    assert(s.len() > 3);
    let t = s.skip(3);
    assert(t =~= after_lt);
    let tail = enc_attr(attr_name(), nm) + (seq![GT] + rest);
    assert(t =~= name_view() + tail);
    assert(t[0] == name_view()[0]);
    assert(t[0] != SLASH);
    assert(tail[0] == SP);
    assert(!is_name_byte(tail[0]));
    lemma_count_name_prefix(name_view(), tail);
    assert(count_name(t) == 4);
    assert(t.skip(4) =~= tail);
    lemma_parse_attrs_stop(seq![GT] + rest);
    lemma_parse_attr_cons(attr_name(), nm, seq![GT] + rest);
    let c = enc_attr(attr_name(), nm).len();
    assert(parse_attrs(tail) == Some(
        (seq![(attr_name(), nm)] + Seq::<(Seq<u8>, Seq<u8>)>::empty(), c),
    ));
    assert(seq![(attr_name(), nm)] + Seq::<(Seq<u8>, Seq<u8>)>::empty() =~= seq![
        (attr_name(), nm),
    ]);
    assert(t.skip(4 + c as int) =~= seq![GT] + rest);
    assert(t.skip(4 + c as int)[0] == GT);
    assert(t.take(4) =~= name_view());
    assert(parse_ev(s) == Some(
        (
            EvV::Start { name: name_view(), attrs: seq![(attr_name(), nm)] },
            (2 + 1 + 4 + c + 1) as nat,
        ),
    ));
    assert(chunk.len() == 2 + 1 + 4 + c + 1);
}

/// Parsing an encoded `Image` element.
proof fn lemma_ev_image(f: Seq<u8>, rest: Seq<u8>)
    ensures
        parse_ev(enc_image(f) + rest) == Some(
            (
                EvV::Empty { name: name_image(), attrs: seq![(attr_file(), f)] },
                enc_image(f).len() as nat,
            ),
        ),
{
    lemma_names_are_names();
    let chunk = enc_image(f);
    let s = chunk + rest;
    let after_lt = name_image() + enc_attr(attr_file(), f) + seq![SLASH, GT] + rest;
    assert(s =~= seq![NL, TAB, TAB] + (seq![LT] + after_lt));
    assert((seq![LT] + after_lt)[0] == LT);
    lemma_find_lt_prefix(seq![NL, TAB, TAB], seq![LT] + after_lt);
    assert(find_lt(s) == Some(3nat));
    assert(s.len() > 4);
    let t = s.skip(4);
    assert(t =~= after_lt);
    let tail = enc_attr(attr_file(), f) + (seq![SLASH, GT] + rest);
    assert(t =~= name_image() + tail);
    assert(t[0] == name_image()[0]);
    assert(t[0] != SLASH);
    assert(tail[0] == SP);
    assert(!is_name_byte(tail[0]));
    lemma_count_name_prefix(name_image(), tail);
    assert(count_name(t) == 5);
    assert(t.skip(5) =~= tail);
    lemma_parse_attrs_stop(seq![SLASH, GT] + rest);
    lemma_parse_attr_cons(attr_file(), f, seq![SLASH, GT] + rest);
    let c = enc_attr(attr_file(), f).len();
    assert(parse_attrs(tail) == Some(
        (seq![(attr_file(), f)] + Seq::<(Seq<u8>, Seq<u8>)>::empty(), c),
    ));
    assert(seq![(attr_file(), f)] + Seq::<(Seq<u8>, Seq<u8>)>::empty() =~= seq![
        (attr_file(), f),
    ]);
    let u = t.skip(5 + c as int);
    assert(u =~= seq![SLASH, GT] + rest);
    assert(u[0] == SLASH && u[1] == GT);
    assert(t.take(5) =~= name_image());
    assert(parse_ev(s) == Some(
        (
            EvV::Empty { name: name_image(), attrs: seq![(attr_file(), f)] },
            (3 + 1 + 5 + c + 2) as nat,
        ),
    ));
    assert(chunk.len() == 3 + 1 + 5 + c + 2);
}

/// Parsing an encoded `Bone` element.
#[verifier::rlimit(100)]
proof fn lemma_ev_bone(b: BoneV, rest: Seq<u8>)
    ensures
        parse_ev(enc_bone(b) + rest) == Some(
            (
                EvV::Empty {
                    name: name_bone(),
                    attrs: seq![
                        (attr_label(), b.label),
                        (attr_name(), b.name),
                        (attr_x(), b.x),
                        (attr_y(), b.y),
                    ],
                },
                enc_bone(b).len() as nat,
            ),
        ),
{
    lemma_names_are_names();
    let chunk = enc_bone(b);
    let s = chunk + rest;
    let r4 = seq![SLASH, GT] + rest;
    let r3 = enc_attr(attr_y(), b.y) + r4;
    let r2 = enc_attr(attr_x(), b.x) + r3;
    let r1 = enc_attr(attr_name(), b.name) + r2;
    let r0 = enc_attr(attr_label(), b.label) + r1;
    let after_lt = name_bone() + r0;
    assert(s =~= seq![NL, TAB, TAB] + (seq![LT] + after_lt));
    assert((seq![LT] + after_lt)[0] == LT);
    lemma_find_lt_prefix(seq![NL, TAB, TAB], seq![LT] + after_lt);
    assert(find_lt(s) == Some(3nat));
    assert(s.len() > 4);
    let t = s.skip(4);
    assert(t =~= after_lt);
    assert(t[0] == name_bone()[0]);
    assert(t[0] != SLASH);
    assert(r0[0] == SP);
    assert(!is_name_byte(r0[0]));
    lemma_count_name_prefix(name_bone(), r0);
    assert(count_name(t) == 4);
    assert(t.skip(4) =~= r0);
    lemma_parse_attrs_stop(r4);
    lemma_parse_attr_cons(attr_y(), b.y, r4);
    lemma_parse_attr_cons(attr_x(), b.x, r3);
    lemma_parse_attr_cons(attr_name(), b.name, r2);
    lemma_parse_attr_cons(attr_label(), b.label, r1);
    let c4 = enc_attr(attr_y(), b.y).len();
    let c3 = enc_attr(attr_x(), b.x).len() + c4;
    let c2 = enc_attr(attr_name(), b.name).len() + c3;
    let c1 = enc_attr(attr_label(), b.label).len() + c2;
    let attrs4 = seq![
        (attr_label(), b.label),
        (attr_name(), b.name),
        (attr_x(), b.x),
        (attr_y(), b.y),
    ];
    assert(seq![(attr_y(), b.y)] + Seq::<(Seq<u8>, Seq<u8>)>::empty() =~= seq![
        (attr_y(), b.y),
    ]);
    assert(seq![(attr_x(), b.x)] + seq![(attr_y(), b.y)] =~= seq![
        (attr_x(), b.x),
        (attr_y(), b.y),
    ]);
    assert(seq![(attr_name(), b.name)] + seq![(attr_x(), b.x), (attr_y(), b.y)] =~= seq![
        (attr_name(), b.name),
        (attr_x(), b.x),
        (attr_y(), b.y),
    ]);
    assert(seq![(attr_label(), b.label)] + seq![
        (attr_name(), b.name),
        (attr_x(), b.x),
        (attr_y(), b.y),
    ] =~= attrs4);
    assert(parse_attrs(r0) == Some((attrs4, c1)));
    let u = t.skip(4 + c1 as int);
    assert(u =~= r4);
    assert(u[0] == SLASH && u[1] == GT);
    assert(t.take(4) =~= name_bone());
    assert(parse_ev(s) == Some(
        (EvV::Empty { name: name_bone(), attrs: attrs4 }, (3 + 1 + 4 + c1 + 2) as nat),
    ));
    assert(chunk.len() == 3 + 1 + 4 + c1 + 2);
}

/// Parsing an end tag preceded by indentation.
proof fn lemma_ev_end(pre: Seq<u8>, nm: Seq<u8>, rest: Seq<u8>)
    requires
        forall|i: int| 0 <= i < pre.len() ==> #[trigger] pre[i] != LT,
        nm.len() > 0,
        forall|i: int| 0 <= i < nm.len() ==> is_name_byte(#[trigger] nm[i]),
    ensures
        parse_ev((pre + seq![LT, SLASH] + nm + seq![GT]) + rest) == Some(
            (EvV::End { name: nm }, (pre + seq![LT, SLASH] + nm + seq![GT]).len() as nat),
        ),
{
    let chunk = pre + seq![LT, SLASH] + nm + seq![GT];
    let s = chunk + rest;
    let after_lt = seq![SLASH] + nm + seq![GT] + rest;
    assert(s =~= pre + (seq![LT] + after_lt));
    assert((seq![LT] + after_lt)[0] == LT);
    lemma_find_lt_prefix(pre, seq![LT] + after_lt);
    let i = pre.len() as int;
    assert(find_lt(s) == Some(pre.len()));
    assert(i + 1 < s.len());
    let t = s.skip(i + 1);
    assert(t =~= after_lt);
    assert(t[0] == SLASH);
    let tail = seq![GT] + rest;
    assert(t.skip(1) =~= nm + tail);
    assert(!is_name_byte(tail[0]));
    lemma_count_name_prefix(nm, tail);
    assert(count_name(t.skip(1)) == nm.len());
    let n = nm.len() as int;
    let rest2 = t.skip(1 + n);
    assert(rest2 =~= tail);
    assert(!is_ws(rest2[0]));
    assert(count_ws(rest2) == 0);
    assert(rest2[0] == GT);
    assert(t.skip(1).take(n) =~= nm);
    assert(parse_ev(s) == Some((EvV::End { name: nm }, (i + n + 3) as nat)));
    assert(chunk.len() == i + n + 3);
}

/// Applying an encoded `Image` event to a state with an open view.
proof fn lemma_step_image(st: RunSt, f: Seq<u8>)
    requires
        st.ctx is Some,
    ensures
        run_step(st, EvV::Empty { name: name_image(), attrs: seq![(attr_file(), f)] }) == Some(
            RunSt {
                ctx: Some(
                    ViewV { images: st.ctx.unwrap().images.push(f), ..st.ctx.unwrap() },
                ),
                ..st
            },
        ),
{
    assert(attr_first(seq![(attr_file(), f)], attr_file()) == Some(f));
}

/// Applying an encoded `Bone` event to a state with an open view.
proof fn lemma_step_bone(st: RunSt, b: BoneV)
    requires
        st.ctx is Some,
        wf_bone(b),
    ensures
        run_step(
            st,
            EvV::Empty {
                name: name_bone(),
                attrs: seq![
                    (attr_label(), b.label),
                    (attr_name(), b.name),
                    (attr_x(), b.x),
                    (attr_y(), b.y),
                ],
            },
        ) == Some(
            RunSt {
                ctx: Some(ViewV { bones: st.ctx.unwrap().bones.push(b), ..st.ctx.unwrap() }),
                ..st
            },
        ),
{
    assert(name_bone() != name_image()) by {
        assert(name_bone().len() == 4 && name_image().len() == 5);
    }
    lemma_bone_fold(b);
}

/// Applying a view start event to a state with no open view.
proof fn lemma_step_view_open(st: RunSt, nm: Seq<u8>)
    requires
        st.ctx is None,
    ensures
        run_step(st, EvV::Start { name: name_view(), attrs: seq![(attr_name(), nm)] }) == Some(
            RunSt {
                stack: st.stack.push(name_view()),
                ctx: Some(ViewV { name: nm, images: Seq::empty(), bones: Seq::empty() }),
                acc: st.acc,
            },
        ),
{
    assert(attr_first(seq![(attr_name(), nm)], attr_name()) == Some(nm));
}

/// Applying a view end event commits the open view.
proof fn lemma_step_view_close(st: RunSt)
    requires
        st.ctx is Some,
        st.stack.len() > 0,
        st.stack.last() == name_view(),
    ensures
        run_step(st, EvV::End { name: name_view() }) == Some(
            RunSt {
                stack: st.stack.drop_last(),
                ctx: None,
                acc: st.acc.push(st.ctx.unwrap()),
            },
        ),
{
}

/// Running the parser over encoded images appends them, in order, to the
/// open view context.
proof fn lemma_run_images(imgs: Seq<Seq<u8>>, rest: Seq<u8>, st: RunSt)
    requires
        st.ctx is Some,
    ensures
        spec_run(enc_images(imgs) + rest, st) == spec_run(
            rest,
            RunSt {
                ctx: Some(
                    ViewV { images: st.ctx.unwrap().images + imgs, ..st.ctx.unwrap() },
                ),
                ..st
            },
        ),
    decreases imgs.len(),
{
    let v = st.ctx.unwrap();
    if imgs.len() == 0 {
        assert(enc_images(imgs) + rest =~= rest);
        assert(v.images + imgs =~= v.images);
        assert(RunSt { ctx: Some(ViewV { images: v.images + imgs, ..v }), ..st } == st);
    } else {
        let f = imgs[0];
        let s = enc_images(imgs) + rest;
        let rest1 = enc_images(imgs.drop_first()) + rest;
        assert(s =~= enc_image(f) + rest1);
        lemma_ev_image(f, rest1);
        let ev = EvV::Empty { name: name_image(), attrs: seq![(attr_file(), f)] };
        let c = enc_image(f).len();
        assert(parse_ev(s) == Some((ev, c as nat)));
        let st2 = RunSt { ctx: Some(ViewV { images: v.images.push(f), ..v }), ..st };
        lemma_step_image(st, f);
        assert(run_step(st, ev) == Some(st2));
        assert(0 < c <= s.len());
        assert(s.skip(c as int) =~= rest1);
        lemma_run_step(s, st, ev, c as nat, st2);
        assert(spec_run(s, st) == spec_run(rest1, st2));
        lemma_run_images(imgs.drop_first(), rest, st2);
        assert(v.images.push(f) + imgs.drop_first() =~= v.images + imgs);
        assert(RunSt {
            ctx: Some(ViewV { images: v.images.push(f) + imgs.drop_first(), ..v }),
            ..st
        } == RunSt { ctx: Some(ViewV { images: v.images + imgs, ..v }), ..st });
    }
}

/// Folding the four encoded bone attributes rebuilds the bone.
proof fn lemma_bone_fold(b: BoneV)
    requires
        wf_bone(b),
    ensures
        bone_fold(
            seq![
                (attr_label(), b.label),
                (attr_name(), b.name),
                (attr_x(), b.x),
                (attr_y(), b.y),
            ],
            bone_default(),
        ) == Some(b),
{
    let a0 = seq![
        (attr_label(), b.label),
        (attr_name(), b.name),
        (attr_x(), b.x),
        (attr_y(), b.y),
    ];
    let a1 = seq![(attr_name(), b.name), (attr_x(), b.x), (attr_y(), b.y)];
    let a2 = seq![(attr_x(), b.x), (attr_y(), b.y)];
    let a3 = seq![(attr_y(), b.y)];
    let a4 = Seq::<(Seq<u8>, Seq<u8>)>::empty();
    assert(a0.drop_first() =~= a1);
    assert(a1.drop_first() =~= a2);
    assert(a2.drop_first() =~= a3);
    assert(a3.drop_first() =~= a4);
    assert(attr_label() != attr_x() && attr_label() != attr_y() && attr_label() != attr_name())
        by {
        assert(attr_label().len() == 5 && attr_name().len() == 4 && attr_x().len() == 1
            && attr_y().len() == 1);
    }
    assert(attr_name() != attr_x() && attr_name() != attr_y()) by {
        assert(attr_name().len() == 4);
    }
    assert(attr_x() != attr_y()) by {
        assert(attr_x()[0] == crate::text::L_X && attr_y()[0] == crate::text::L_Y);
    }
    let b1 = BoneV { label: b.label, ..bone_default() };
    let b2 = BoneV { name: b.name, ..b1 };
    let b3 = BoneV { x: b.x, ..b2 };
    let b4 = BoneV { y: b.y, ..b3 };
    assert(bone_fold(a0, bone_default()) == bone_fold(a1, b1));
    assert(bone_fold(a1, b1) == bone_fold(a2, b2));
    assert(bone_fold(a2, b2) == bone_fold(a3, b3));
    assert(bone_fold(a3, b3) == bone_fold(a4, b4));
    assert(bone_fold(a4, b4) == Some(b4));
    assert(b4 == b);
}

/// Running the parser over encoded bones appends them, in order, to the
/// open view context.
#[verifier::rlimit(100)]
proof fn lemma_run_bones(bs: Seq<BoneV>, rest: Seq<u8>, st: RunSt)
    requires
        st.ctx is Some,
        forall|i: int| 0 <= i < bs.len() ==> wf_bone(#[trigger] bs[i]),
    ensures
        spec_run(enc_bones(bs) + rest, st) == spec_run(
            rest,
            RunSt {
                ctx: Some(ViewV { bones: st.ctx.unwrap().bones + bs, ..st.ctx.unwrap() }),
                ..st
            },
        ),
    decreases bs.len(),
{
    let v = st.ctx.unwrap();
    if bs.len() == 0 {
        assert(enc_bones(bs) + rest =~= rest);
        assert(v.bones + bs =~= v.bones);
        assert(RunSt { ctx: Some(ViewV { bones: v.bones + bs, ..v }), ..st } == st);
    } else {
        let b = bs[0];
        let s = enc_bones(bs) + rest;
        let rest1 = enc_bones(bs.drop_first()) + rest;
        assert(s =~= enc_bone(b) + rest1);
        lemma_ev_bone(b, rest1);
        let attrs4 = seq![
            (attr_label(), b.label),
            (attr_name(), b.name),
            (attr_x(), b.x),
            (attr_y(), b.y),
        ];
        let ev = EvV::Empty { name: name_bone(), attrs: attrs4 };
        let c = enc_bone(b).len();
        assert(parse_ev(s) == Some((ev, c as nat)));
        let st2 = RunSt { ctx: Some(ViewV { bones: v.bones.push(b), ..v }), ..st };
        lemma_step_bone(st, b);
        assert(run_step(st, ev) == Some(st2));
        assert(0 < c <= s.len());
        assert(s.skip(c as int) =~= rest1);
        lemma_run_step(s, st, ev, c as nat, st2);
        assert(spec_run(s, st) == spec_run(rest1, st2));
        lemma_run_bones(bs.drop_first(), rest, st2);
        assert(v.bones.push(b) + bs.drop_first() =~= v.bones + bs);
        assert(RunSt { ctx: Some(ViewV { bones: v.bones.push(b) + bs.drop_first(), ..v }), ..st }
            == RunSt { ctx: Some(ViewV { bones: v.bones + bs, ..v }), ..st });
    }
}

/// Running the parser over one encoded view commits exactly that view.
#[verifier::rlimit(100)]
proof fn lemma_run_one_view(v: ViewV, rest_tail: Seq<u8>, st: RunSt)
    requires
        st.ctx is None,
        wf_view(v),
    ensures
        spec_run(enc_view(v) + rest_tail, st) == spec_run(
            rest_tail,
            RunSt { acc: st.acc.push(v), ..st },
        ),
{
    let s = enc_view(v) + rest_tail;
    let open_chunk = seq![NL, TAB, LT] + name_view() + enc_attr(attr_name(), v.name) + seq![
        GT,
    ];
    let wspre = if v.images.len() + v.bones.len() == 0 {
        Seq::<u8>::empty()
    } else {
        seq![NL, TAB]
    };
    let close_chunk = wspre + seq![LT, SLASH] + name_view() + seq![GT];
    let r3 = close_chunk + rest_tail;
    let r2 = enc_bones(v.bones) + r3;
    let r1 = enc_images(v.images) + r2;
    assert(s =~= open_chunk + r1);
    // open tag
    lemma_ev_view_open(v.name, r1);
    let ev0 = EvV::Start { name: name_view(), attrs: seq![(attr_name(), v.name)] };
    let c0 = open_chunk.len();
    assert(parse_ev(s) == Some((ev0, c0 as nat)));
    let v0 = ViewV { name: v.name, images: Seq::empty(), bones: Seq::empty() };
    let st1 = RunSt { stack: st.stack.push(name_view()), ctx: Some(v0), acc: st.acc };
    lemma_step_view_open(st, v.name);
    assert(run_step(st, ev0) == Some(st1));
    assert(0 < c0 <= s.len());
    assert(s.skip(c0 as int) =~= r1);
    lemma_run_step(s, st, ev0, c0 as nat, st1);
    // images
    lemma_run_images(v.images, r2, st1);
    let v1 = ViewV { images: v0.images + v.images, ..v0 };
    let st2 = RunSt { ctx: Some(v1), ..st1 };
    assert(spec_run(r1, st1) == spec_run(r2, st2));
    // bones
    lemma_run_bones(v.bones, r3, st2);
    let v2 = ViewV { bones: v1.bones + v.bones, ..v1 };
    let st3 = RunSt { ctx: Some(v2), ..st2 };
    assert(spec_run(r2, st2) == spec_run(r3, st3));
    assert(v2.images =~= v.images);
    assert(v2.bones =~= v.bones);
    assert(v2 == v);
    // end tag
    assert(forall|i: int| 0 <= i < wspre.len() ==> #[trigger] wspre[i] != LT);
    lemma_names_are_names();
    lemma_ev_end(wspre, name_view(), rest_tail);
    let ev3 = EvV::End { name: name_view() };
    let c3 = close_chunk.len();
    assert(parse_ev(r3) == Some((ev3, c3 as nat)));
    assert(st3.stack.len() > 0 && st3.stack.last() == name_view());
    let st4 = RunSt { stack: st3.stack.drop_last(), ctx: None, acc: st.acc.push(v2) };
    lemma_step_view_close(st3);
    assert(run_step(st3, ev3) == Some(st4));
    assert(0 < c3 <= r3.len());
    assert(r3.skip(c3 as int) =~= rest_tail);
    lemma_run_step(r3, st3, ev3, c3 as nat, st4);
    assert(st3.stack.drop_last() =~= st.stack);
    assert(st4 == RunSt { acc: st.acc.push(v), ..st });
}

/// Running the parser over encoded views appends them, in order, to the
/// committed document.
proof fn lemma_run_views(vs: Seq<ViewV>, rest: Seq<u8>, st: RunSt)
    requires
        st.ctx is None,
        forall|i: int| 0 <= i < vs.len() ==> wf_view(#[trigger] vs[i]),
    ensures
        spec_run(enc_views(vs) + rest, st) == spec_run(rest, RunSt { acc: st.acc + vs, ..st }),
    decreases vs.len(),
{
    if vs.len() == 0 {
        assert(enc_views(vs) + rest =~= rest);
        assert(st.acc + vs =~= st.acc);
        assert(RunSt { acc: st.acc + vs, ..st } == st);
    } else {
        let v = vs[0];
        assert(wf_view(v));
        let s = enc_views(vs) + rest;
        let rest_tail = enc_views(vs.drop_first()) + rest;
        assert(s =~= enc_view(v) + rest_tail);
        lemma_run_one_view(v, rest_tail, st);
        let st4 = RunSt { acc: st.acc.push(v), ..st };
        assert(spec_run(s, st) == spec_run(rest_tail, st4));
        lemma_run_views(vs.drop_first(), rest, st4);
        assert(spec_run(rest_tail, st4) == spec_run(
            rest,
            RunSt { acc: st.acc.push(v) + vs.drop_first(), ..st4 },
        ));
        assert(st.acc.push(v) + vs.drop_first() =~= st.acc + vs);
        assert(RunSt { acc: st.acc.push(v) + vs.drop_first(), ..st4 } == RunSt {
            acc: st.acc + vs,
            ..st
        });
    }
}

/// Decoding an encoded document gives the document back: views, images
/// and bones in their original order, with coordinates textually (hence
/// numerically) equal.
pub proof fn lemma_decode_encode(d: Seq<ViewV>)
    requires
        wf_doc(d),
    ensures
        spec_decode(enc_doc(d)) == Some(d),
{
    lemma_names_are_names();
    let s = enc_doc(d);
    assert(s[0] == 239 && s[1] == 187 && s[2] == 191);
    assert(s.len() >= 3);
    let body = s.skip(3);
    assert(strip_bom(s) == body);
    let nlpart = if d.len() == 0 {
        Seq::<u8>::empty()
    } else {
        seq![NL]
    };
    let close_chunk = nlpart + seq![LT, SLASH] + name_views() + seq![GT];
    let r1 = enc_views(d) + (close_chunk + Seq::<u8>::empty());
    assert(body =~= (seq![LT] + name_views() + seq![GT]) + r1);
    lemma_ev_views_open(r1);
    let ev0 = EvV::Start { name: name_views(), attrs: Seq::empty() };
    let c0 = (seq![LT] + name_views() + seq![GT]).len();
    assert(parse_ev(body) == Some((ev0, c0 as nat)));
    assert(name_views() != name_view()) by {
        assert(name_views().len() == 5 && name_view().len() == 4);
    }
    let st1 = RunSt { stack: init_st().stack.push(name_views()), ctx: None, acc: init_st().acc };
    assert(run_step(init_st(), ev0) == Some(st1));
    assert(0 < c0 <= body.len());
    assert(body.skip(c0 as int) =~= r1);
    lemma_run_step(body, init_st(), ev0, c0 as nat, st1);
    assert(spec_run(body, init_st()) == spec_run(r1, st1));
    lemma_run_views(d, close_chunk + Seq::<u8>::empty(), st1);
    let st2 = RunSt { acc: st1.acc + d, ..st1 };
    assert(spec_run(r1, st1) == spec_run(close_chunk + Seq::<u8>::empty(), st2));
    assert(forall|i: int| 0 <= i < nlpart.len() ==> #[trigger] nlpart[i] != LT);
    lemma_ev_end(nlpart, name_views(), Seq::empty());
    let ev3 = EvV::End { name: name_views() };
    let c3 = close_chunk.len();
    let r3 = close_chunk + Seq::<u8>::empty();
    assert(parse_ev(r3) == Some((ev3, c3 as nat)));
    assert(st2.stack.len() > 0 && st2.stack.last() == name_views());
    let st4 = RunSt { stack: st2.stack.drop_last(), ctx: None, acc: st2.acc };
    assert(run_step(st2, ev3) == Some(st4));
    assert(0 < c3 <= r3.len());
    assert(r3.skip(c3 as int) =~= Seq::<u8>::empty());
    lemma_run_step(r3, st2, ev3, c3 as nat, st4);
    assert(spec_run(r3, st2) == spec_run(Seq::empty(), st4));
    assert(st4.stack =~= Seq::<Seq<u8>>::empty());
    lemma_run_empty(st4);
    assert(spec_run(Seq::empty(), st4) == Some(st4.acc));
    assert(st4.acc =~= d);
}

/// For bytes in the encoder's image, decoding and re-encoding reproduces
/// them exactly; attribute order is the encoder's fixed order.
pub proof fn lemma_encode_decode_encode(bytes: Seq<u8>, d: Seq<ViewV>)
    requires
        wf_doc(d),
        bytes == enc_doc(d),
    ensures
        spec_decode(bytes) is Some,
        enc_doc(spec_decode(bytes).unwrap()) == bytes,
{
    lemma_decode_encode(d);
}

/// A bare `<Views></Views>` document, with no byte-order mark, decodes
/// to zero views; and a zero-view document encodes to the same empty
/// root preceded by the byte-order mark.
pub proof fn lemma_empty_root()
    ensures
        spec_decode(
            seq![LT] + name_views() + seq![GT] + (seq![LT, SLASH] + name_views() + seq![GT]),
        ) == Some(Seq::<ViewV>::empty()),
        enc_doc(Seq::<ViewV>::empty()) == bom() + (seq![LT] + name_views() + seq![GT] + (seq![
            LT,
            SLASH,
        ] + name_views() + seq![GT])),
{
    lemma_names_are_names();
    let plain = seq![LT] + name_views() + seq![GT] + (seq![LT, SLASH] + name_views() + seq![GT]);
    assert(plain[0] == LT);
    assert(strip_bom(plain) == plain);
    let r1 = seq![LT, SLASH] + name_views() + seq![GT];
    assert(plain =~= (seq![LT] + name_views() + seq![GT]) + r1);
    lemma_ev_views_open(r1);
    let ev0 = EvV::Start { name: name_views(), attrs: Seq::empty() };
    let c0 = (seq![LT] + name_views() + seq![GT]).len();
    assert(parse_ev(plain) == Some((ev0, c0 as nat)));
    assert(name_views() != name_view()) by {
        assert(name_views().len() == 5 && name_view().len() == 4);
    }
    let st1 = RunSt { stack: init_st().stack.push(name_views()), ctx: None, acc: init_st().acc };
    assert(run_step(init_st(), ev0) == Some(st1));
    assert(0 < c0 <= plain.len());
    assert(plain.skip(c0 as int) =~= r1);
    lemma_run_step(plain, init_st(), ev0, c0 as nat, st1);
    assert(spec_run(plain, init_st()) == spec_run(r1, st1));
    assert(r1 =~= (Seq::<u8>::empty() + seq![LT, SLASH] + name_views() + seq![GT])
        + Seq::<u8>::empty());
    lemma_ev_end(Seq::empty(), name_views(), Seq::empty());
    let ev3 = EvV::End { name: name_views() };
    let close_chunk = Seq::<u8>::empty() + seq![LT, SLASH] + name_views() + seq![GT];
    let c3 = close_chunk.len();
    assert(parse_ev(r1) == Some((ev3, c3 as nat)));
    assert(st1.stack.len() > 0 && st1.stack.last() == name_views());
    let st4 = RunSt { stack: st1.stack.drop_last(), ctx: None, acc: st1.acc };
    assert(run_step(st1, ev3) == Some(st4));
    assert(0 < c3 <= r1.len());
    assert(r1.skip(c3 as int) =~= Seq::<u8>::empty());
    lemma_run_step(r1, st1, ev3, c3 as nat, st4);
    assert(spec_run(r1, st1) == spec_run(Seq::empty(), st4));
    assert(st4.stack =~= Seq::<Seq<u8>>::empty());
    lemma_run_empty(st4);
    assert(spec_run(Seq::empty(), st4) == Some(st4.acc));
    assert(st4.acc =~= Seq::<ViewV>::empty());
    assert(enc_views(Seq::<ViewV>::empty()) == Seq::<u8>::empty());
    assert(enc_doc(Seq::<ViewV>::empty()) =~= bom() + (seq![LT] + name_views() + seq![GT] + (
    seq![LT, SLASH] + name_views() + seq![GT])));
}

} // verus!
