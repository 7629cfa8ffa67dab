//! The encoder half of the XML codec: a document becomes a UTF-8 byte
//! string with a leading byte-order mark, a single `Views` root, one
//! `View` element per view in order, and inside each view all `Image`
//! elements before all `Bone` elements. Indentation is one tab per
//! nesting level. Encoding is total: content cannot make it fail.

use vstd::prelude::*;
use crate::text::{
    esc, escape_into, EQS, GT, LT, NL, QUOT, SLASH, SP, TAB, U_B, U_I, U_V, L_A, L_B, L_E, L_F,
    L_G, L_I, L_L, L_M, L_N, L_O, L_S, L_W, L_X, L_Y,
};
use crate::schema::{BoneV, SchemaData, ViewV};

verus! {

pub open spec fn bom() -> Seq<u8> {
    seq![239u8, 187u8, 191u8]
}

pub open spec fn name_views() -> Seq<u8> {
    seq![U_V, L_I, L_E, L_W, L_S]
}

pub open spec fn name_view() -> Seq<u8> {
    seq![U_V, L_I, L_E, L_W]
}

pub open spec fn name_image() -> Seq<u8> {
    seq![U_I, L_M, L_A, L_G, L_E]
}

pub open spec fn name_bone() -> Seq<u8> {
    seq![U_B, L_O, L_N, L_E]
}

pub open spec fn attr_name() -> Seq<u8> {
    seq![L_N, L_A, L_M, L_E]
}

pub open spec fn attr_file() -> Seq<u8> {
    seq![L_F, L_I, L_L, L_E]
}

pub open spec fn attr_label() -> Seq<u8> {
    seq![L_L, L_A, L_B, L_E, L_L]
}

pub open spec fn attr_x() -> Seq<u8> {
    seq![L_X]
}

pub open spec fn attr_y() -> Seq<u8> {
    seq![L_Y]
}

/// One encoded attribute: a space, the attribute name, `="`, the escaped
/// value, and a closing quote.
pub open spec fn enc_attr(name: Seq<u8>, val: Seq<u8>) -> Seq<u8> {
    seq![SP] + name + seq![EQS, QUOT] + esc(val) + seq![QUOT]
}

/// One empty `Image` element on its own doubly indented line.
pub open spec fn enc_image(f: Seq<u8>) -> Seq<u8> {
    seq![NL, TAB, TAB, LT] + name_image() + enc_attr(attr_file(), f) + seq![SLASH, GT]
}

/// One empty `Bone` element on its own doubly indented line, with the
/// fixed attribute order label, name, x, y.
pub open spec fn enc_bone(b: BoneV) -> Seq<u8> {
    seq![NL, TAB, TAB, LT] + name_bone() + enc_attr(attr_label(), b.label) + enc_attr(
        attr_name(),
        b.name,
    ) + enc_attr(attr_x(), b.x) + enc_attr(attr_y(), b.y) + seq![SLASH, GT]
}

pub open spec fn enc_images(imgs: Seq<Seq<u8>>) -> Seq<u8>
    decreases imgs.len(),
{
    if imgs.len() == 0 {
        Seq::empty()
    } else {
        enc_image(imgs[0]) + enc_images(imgs.drop_first())
    }
}

pub open spec fn enc_bones(bs: Seq<BoneV>) -> Seq<u8>
    decreases bs.len(),
{
    if bs.len() == 0 {
        Seq::empty()
    } else {
        enc_bone(bs[0]) + enc_bones(bs.drop_first())
    }
}

/// One `View` element: images first, then bones; the end tag returns to
/// single indentation unless the view is empty.
pub open spec fn enc_view(v: ViewV) -> Seq<u8> {
    seq![NL, TAB, LT] + name_view() + enc_attr(attr_name(), v.name) + seq![GT] + enc_images(
        v.images,
    ) + enc_bones(v.bones) + (if v.images.len() + v.bones.len() == 0 {
        Seq::<u8>::empty()
    } else {
        seq![NL, TAB]
    }) + seq![LT, SLASH] + name_view() + seq![GT]
}

pub open spec fn enc_views(vs: Seq<ViewV>) -> Seq<u8>
    decreases vs.len(),
{
    if vs.len() == 0 {
        Seq::empty()
    } else {
        enc_view(vs[0]) + enc_views(vs.drop_first())
    }
}

/// The whole encoded document: byte-order mark, `Views` root, views.
pub open spec fn enc_doc(d: Seq<ViewV>) -> Seq<u8> {
    bom() + seq![LT] + name_views() + seq![GT] + enc_views(d) + (if d.len() == 0 {
        Seq::<u8>::empty()
    } else {
        seq![NL]
    }) + seq![LT, SLASH] + name_views() + seq![GT]
}

pub proof fn lemma_enc_images_push(imgs: Seq<Seq<u8>>, f: Seq<u8>)
    ensures
        enc_images(imgs.push(f)) == enc_images(imgs) + enc_image(f),
    decreases imgs.len(),
{
    if imgs.len() == 0 {
        assert(imgs.push(f)[0] == f);
        assert(imgs.push(f).drop_first() =~= Seq::<Seq<u8>>::empty());
        assert(enc_images(imgs.push(f)) == enc_image(f) + enc_images(Seq::<Seq<u8>>::empty()));
        assert(enc_image(f) + Seq::<u8>::empty() =~= enc_image(f));
        assert(enc_images(imgs) + enc_image(f) =~= enc_image(f));
    } else {
        lemma_enc_images_push(imgs.drop_first(), f);
        assert(imgs.push(f).drop_first() =~= imgs.drop_first().push(f));
        assert(imgs.push(f)[0] == imgs[0]);
        assert(enc_image(imgs[0]) + (enc_images(imgs.drop_first()) + enc_image(f)) =~= (enc_image(
            imgs[0],
        ) + enc_images(imgs.drop_first())) + enc_image(f));
    }
}

pub proof fn lemma_enc_bones_push(bs: Seq<BoneV>, b: BoneV)
    ensures
        enc_bones(bs.push(b)) == enc_bones(bs) + enc_bone(b),
    decreases bs.len(),
{
    if bs.len() == 0 {
        assert(bs.push(b)[0] == b);
        assert(bs.push(b).drop_first() =~= Seq::<BoneV>::empty());
        assert(enc_bones(bs.push(b)) == enc_bone(b) + enc_bones(Seq::<BoneV>::empty()));
        assert(enc_bone(b) + Seq::<u8>::empty() =~= enc_bone(b));
        assert(enc_bones(bs) + enc_bone(b) =~= enc_bone(b));
    } else {
        lemma_enc_bones_push(bs.drop_first(), b);
        assert(bs.push(b).drop_first() =~= bs.drop_first().push(b));
        assert(bs.push(b)[0] == bs[0]);
        assert(enc_bone(bs[0]) + (enc_bones(bs.drop_first()) + enc_bone(b)) =~= (enc_bone(bs[0])
            + enc_bones(bs.drop_first())) + enc_bone(b));
    }
}

pub proof fn lemma_enc_views_push(vs: Seq<ViewV>, v: ViewV)
    ensures
        enc_views(vs.push(v)) == enc_views(vs) + enc_view(v),
    decreases vs.len(),
{
    if vs.len() == 0 {
        assert(vs.push(v)[0] == v);
        assert(vs.push(v).drop_first() =~= Seq::<ViewV>::empty());
        assert(enc_views(vs.push(v)) == enc_view(v) + enc_views(Seq::<ViewV>::empty()));
        assert(enc_view(v) + Seq::<u8>::empty() =~= enc_view(v));
        assert(enc_views(vs) + enc_view(v) =~= enc_view(v));
    } else {
        lemma_enc_views_push(vs.drop_first(), v);
        assert(vs.push(v).drop_first() =~= vs.drop_first().push(v));
        assert(vs.push(v)[0] == vs[0]);
        assert(enc_view(vs[0]) + (enc_views(vs.drop_first()) + enc_view(v)) =~= (enc_view(vs[0])
            + enc_views(vs.drop_first())) + enc_view(v));
    }
}

fn push_attr(out: &mut Vec<u8>, name: &Vec<u8>, val: &Vec<u8>)
    ensures
        final(out)@ == old(out)@ + enc_attr(name@, val@),
{
    out.push(SP);
    let mut k: usize = 0;
    while k < name.len()
        invariant
            0 <= k <= name@.len(),
            out@ == old(out)@ + seq![SP] + name@.take(k as int),
        decreases name.len() - k,
    {
        out.push(name[k]);
        proof {
            assert(name@.take(k as int).push(name@[k as int]) =~= name@.take(k as int + 1));
            assert((old(out)@ + seq![SP] + name@.take(k as int)).push(name@[k as int]) =~= old(
                out,
            )@ + seq![SP] + name@.take(k as int + 1));
        }
        k += 1;
    }
    proof {
        assert(name@.take(k as int) =~= name@);
    }
    out.push(EQS);
    out.push(QUOT);
    escape_into(out, val);
    out.push(QUOT);
    proof {
        assert(out@ =~= old(out)@ + enc_attr(name@, val@));
    }
}

fn push_image(out: &mut Vec<u8>, file: &Vec<u8>)
    ensures
        final(out)@ == old(out)@ + enc_image(file@),
{
    out.push(NL);
    out.push(TAB);
    out.push(TAB);
    out.push(LT);
    out.push(U_I);
    out.push(L_M);
    out.push(L_A);
    out.push(L_G);
    out.push(L_E);
    let file_lit: Vec<u8> = vec![L_F, L_I, L_L, L_E];
    proof {
        assert(file_lit@ =~= attr_file());
    }
    push_attr(out, &file_lit, file);
    out.push(SLASH);
    out.push(GT);
    proof {
        assert(out@ =~= old(out)@ + enc_image(file@));
    }
}

fn push_bone(out: &mut Vec<u8>, bone: &crate::schema::SchemaBone)
    ensures
        final(out)@ == old(out)@ + enc_bone(bone@),
{
    out.push(NL);
    out.push(TAB);
    out.push(TAB);
    out.push(LT);
    out.push(U_B);
    out.push(L_O);
    out.push(L_N);
    out.push(L_E);
    let label_lit: Vec<u8> = vec![L_L, L_A, L_B, L_E, L_L];
    let name_lit: Vec<u8> = vec![L_N, L_A, L_M, L_E];
    let x_lit: Vec<u8> = vec![L_X];
    let y_lit: Vec<u8> = vec![L_Y];
    proof {
        assert(label_lit@ =~= attr_label());
        assert(name_lit@ =~= attr_name());
        assert(x_lit@ =~= attr_x());
        assert(y_lit@ =~= attr_y());
    }
    push_attr(out, &label_lit, &bone.label);
    push_attr(out, &name_lit, &bone.name);
    push_attr(out, &x_lit, &bone.x);
    push_attr(out, &y_lit, &bone.y);
    out.push(SLASH);
    out.push(GT);
    proof {
        assert(out@ =~= old(out)@ + enc_bone(bone@));
    }
}

#[verifier::rlimit(100)]
fn push_view(out: &mut Vec<u8>, v: &crate::schema::SchemaView)
    ensures
        final(out)@ == old(out)@ + enc_view(v@),
{
    out.push(NL);
    out.push(TAB);
    out.push(LT);
    out.push(U_V);
    out.push(L_I);
    out.push(L_E);
    out.push(L_W);
    let name_lit: Vec<u8> = vec![L_N, L_A, L_M, L_E];
    proof {
        assert(name_lit@ =~= attr_name());
    }
    push_attr(out, &name_lit, &v.name);
    out.push(GT);
    proof {
        assert(out@ =~= old(out)@ + (seq![NL, TAB, LT] + name_view() + enc_attr(
            attr_name(),
            v.name@,
        ) + seq![GT]));
        assert(enc_images(v@.images.take(0)) =~= Seq::<u8>::empty());
        assert(out@ + enc_images(v@.images.take(0)) =~= out@);
    }
    let open_done = Ghost(out@);
    let mut a: usize = 0;
    while a < v.images.len()
        invariant
            0 <= a <= v.images@.len(),
            out@ == open_done@ + enc_images(v@.images.take(a as int)),
            v@.images.len() == v.images@.len(),
            forall|j: int| 0 <= j < v@.images.len() ==> v@.images[j] == v.images@[j]@,
        decreases v.images.len() - a,
    {
        push_image(out, &v.images[a].file);
        proof {
            lemma_enc_images_push(v@.images.take(a as int), v@.images[a as int]);
            assert(v@.images.take(a as int).push(v@.images[a as int]) =~= v@.images.take(
                a as int + 1,
            ));
            assert(open_done@ + enc_images(v@.images.take(a as int)) + enc_image(
                v@.images[a as int],
            ) =~= open_done@ + enc_images(v@.images.take(a as int + 1)));
        }
        a += 1;
    }
    proof {
        assert(v@.images.take(a as int) =~= v@.images);
    }
    let imgs_done = Ghost(out@);
    let mut c: usize = 0;
    while c < v.bones.len()
        invariant
            0 <= c <= v.bones@.len(),
            out@ == imgs_done@ + enc_bones(v@.bones.take(c as int)),
            v@.bones.len() == v.bones@.len(),
            forall|j: int| 0 <= j < v@.bones.len() ==> v@.bones[j] == v.bones@[j]@,
        decreases v.bones.len() - c,
    {
        push_bone(out, &v.bones[c]);
        proof {
            lemma_enc_bones_push(v@.bones.take(c as int), v@.bones[c as int]);
            assert(v@.bones.take(c as int).push(v@.bones[c as int]) =~= v@.bones.take(
                c as int + 1,
            ));
            assert(imgs_done@ + enc_bones(v@.bones.take(c as int)) + enc_bone(v@.bones[c as int])
                =~= imgs_done@ + enc_bones(v@.bones.take(c as int + 1)));
        }
        c += 1;
    }
    proof {
        assert(v@.bones.take(c as int) =~= v@.bones);
    }
    if v.images.len() > 0 || v.bones.len() > 0 {
        out.push(NL);
        out.push(TAB);
    }
    out.push(LT);
    out.push(SLASH);
    out.push(U_V);
    out.push(L_I);
    out.push(L_E);
    out.push(L_W);
    out.push(GT);
    proof {
        assert(out@ =~= old(out)@ + enc_view(v@));
    }
}

impl SchemaData {
    /// Encodes this document. Encoding is total: no content can make it
    /// fail, so unlike writing to a file it returns the bytes directly.
    pub fn serialize(&self) -> (r: Vec<u8>)
        ensures
            r@ == enc_doc(self@),
    {
        let mut out: Vec<u8> = Vec::new();
        // byte-order mark and root start tag
        out.push(239);
        out.push(187);
        out.push(191);
        out.push(LT);
        out.push(U_V);
        out.push(L_I);
        out.push(L_E);
        out.push(L_W);
        out.push(L_S);
        out.push(GT);
        proof {
            assert(out@ =~= bom() + seq![LT] + name_views() + seq![GT]);
            assert(enc_views(self@.take(0)) =~= Seq::<u8>::empty());
            assert(out@ + enc_views(self@.take(0)) =~= out@);
        }
        let header = Ghost(out@);
        let mut i: usize = 0;
        while i < self.views.len()
            invariant
                0 <= i <= self.views@.len(),
                self@.len() == self.views@.len(),
                forall|j: int| 0 <= j < self@.len() ==> self@[j] == self.views@[j]@,
                out@ == header@ + enc_views(self@.take(i as int)),
                header@ == bom() + seq![LT] + name_views() + seq![GT],
            decreases self.views.len() - i,
        {
            push_view(&mut out, &self.views[i]);
            proof {
                lemma_enc_views_push(self@.take(i as int), self@[i as int]);
                assert(self@.take(i as int).push(self@[i as int]) =~= self@.take(i as int + 1));
                assert(header@ + enc_views(self@.take(i as int)) + enc_view(self@[i as int]) =~=
                    header@ + enc_views(self@.take(i as int + 1)));
            }
            i += 1;
        }
        proof {
            assert(self@.take(i as int) =~= self@);
        }
        // root end tag
        if self.views.len() > 0 {
            out.push(NL);
        }
        out.push(LT);
        out.push(SLASH);
        out.push(U_V);
        out.push(L_I);
        out.push(L_E);
        out.push(L_W);
        out.push(L_S);
        out.push(GT);
        proof {
            assert(out@ =~= enc_doc(self@));
        }
        out
    }
}

} // verus!
