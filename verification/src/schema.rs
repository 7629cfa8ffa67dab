//! The schema document model: an ordered sequence of views, each pairing
//! reference image filenames with labeled bones at normalized coordinates.
//!
//! Text is held as byte strings; bone coordinates are held as the decimal
//! number text that the persisted format carries, so that values round-trip
//! without silent clamping or reformatting.

use vstd::prelude::*;
use crate::text::{bytes_eq, is_decimal, D0};

verus! {

/// Mathematical model of one bone: a labeled anchor point whose
/// coordinates are decimal number text.
pub ghost struct BoneV {
    pub label: Seq<u8>,
    pub name: Seq<u8>,
    pub x: Seq<u8>,
    pub y: Seq<u8>,
}

/// Mathematical model of one view: a name, image filenames, and bones.
pub ghost struct ViewV {
    pub name: Seq<u8>,
    pub images: Seq<Seq<u8>>,
    pub bones: Seq<BoneV>,
}

/// A labeled 2D anchor point. `x` and `y` hold decimal number text for
/// coordinates nominally in [0,1]; the model does not clamp them.
pub struct SchemaBone {
    pub label: Vec<u8>,
    pub name: Vec<u8>,
    pub x: Vec<u8>,
    pub y: Vec<u8>,
}

/// A reference to an image file, resolved against an externally
/// configured base directory.
pub struct SchemaImage {
    pub file: Vec<u8>,
}

/// A named grouping of one image-reference list and a flat bone list.
pub struct SchemaView {
    pub name: Vec<u8>,
    pub bones: Vec<SchemaBone>,
    pub images: Vec<SchemaImage>,
}

/// A document: an ordered sequence of views. Order is significant for
/// serialization and selection.
pub struct SchemaData {
    pub views: Vec<SchemaView>,
}

impl View for SchemaBone {
    type V = BoneV;

    open spec fn view(&self) -> BoneV {
        BoneV { label: self.label@, name: self.name@, x: self.x@, y: self.y@ }
    }
}

impl View for SchemaImage {
    type V = Seq<u8>;

    open spec fn view(&self) -> Seq<u8> {
        self.file@
    }
}

impl View for SchemaView {
    type V = ViewV;

    open spec fn view(&self) -> ViewV {
        ViewV {
            name: self.name@,
            images: Seq::new(self.images@.len(), |i: int| self.images@[i]@),
            bones: Seq::new(self.bones@.len(), |i: int| self.bones@[i]@),
        }
    }
}

impl View for SchemaData {
    type V = Seq<ViewV>;

    open spec fn view(&self) -> Seq<ViewV> {
        Seq::new(self.views@.len(), |i: int| self.views@[i]@)
    }
}

/// A bone is well formed when both coordinates are decimal number text.
pub open spec fn wf_bone(b: BoneV) -> bool {
    is_decimal(b.x) && is_decimal(b.y)
}

pub open spec fn wf_view(v: ViewV) -> bool {
    forall|i: int| 0 <= i < v.bones.len() ==> wf_bone(#[trigger] v.bones[i])
}

/// A document is well formed when every bone of every view is.
pub open spec fn wf_doc(d: Seq<ViewV>) -> bool {
    forall|i: int| 0 <= i < d.len() ==> wf_view(#[trigger] d[i])
}

impl Default for SchemaBone {
    /// A fresh bone: empty label and name, both coordinates zero.
    fn default() -> (r: Self)
        ensures
            r@.label == Seq::<u8>::empty(),
            r@.name == Seq::<u8>::empty(),
            r@.x == seq![D0],
            r@.y == seq![D0],
            wf_bone(r@),
    {
        let r = SchemaBone { label: Vec::new(), name: Vec::new(), x: vec![D0], y: vec![D0] };
        proof {
            assert(r.x@ =~= seq![D0]);
            assert(r.y@ =~= seq![D0]);
            assert(seq![D0].drop_first() =~= Seq::<u8>::empty());
            assert(seq![D0][0] == D0);
            assert(crate::text::dec_step(0, D0) == 2);
            assert(crate::text::dec_run(Seq::<u8>::empty(), 2) == 2);
            assert(crate::text::dec_run(seq![D0], 0) == 2);
        }
        r
    }
}

impl Default for SchemaImage {
    fn default() -> (r: Self)
        ensures
            r@ == Seq::<u8>::empty(),
    {
        SchemaImage { file: Vec::new() }
    }
}

impl Default for SchemaView {
    fn default() -> (r: Self)
        ensures
            r@.name == Seq::<u8>::empty(),
            r@.images =~= Seq::<Seq<u8>>::empty(),
            r@.bones =~= Seq::<BoneV>::empty(),
    {
        SchemaView { name: Vec::new(), bones: Vec::new(), images: Vec::new() }
    }
}

impl Default for SchemaData {
    /// An empty document: zero views.
    fn default() -> (r: Self)
        ensures
            r@ =~= Seq::<ViewV>::empty(),
    {
        SchemaData { views: Vec::new() }
    }
}

impl SchemaData {
    /// Finds the first view whose name matches exactly; names are not
    /// enforced unique, so lookup returns the first match in order.
    pub fn get_view(&self, name: &Vec<u8>) -> (r: Option<usize>)
        ensures
            match r {
                Some(i) => i < self@.len() && self@[i as int].name == name@ && forall|j: int|
                    0 <= j < i ==> self@[j].name != name@,
                None => forall|j: int| 0 <= j < self@.len() ==> self@[j].name != name@,
            },
    {
        let mut i: usize = 0;
        while i < self.views.len()
            invariant
                0 <= i <= self@.len(),
                self@.len() == self.views@.len(),
                forall|j: int| 0 <= j < i ==> self@[j].name != name@,
            decreases self.views.len() - i,
        {
            if bytes_eq(&self.views[i].name, name) {
                assert(self@[i as int].name == name@);
                return Some(i);
            }
            assert(self@[i as int].name != name@);
            i += 1;
        }
        None
    }

    /// Appends a view; appends never fail and order is kept.
    pub fn add_view(&mut self, v: SchemaView)
        ensures
            final(self)@ =~= old(self)@.push(v@),
    {
        self.views.push(v);
    }
}

impl SchemaView {
    /// Appends a bone to this view.
    pub fn add_bone(&mut self, b: SchemaBone)
        ensures
            final(self)@.name == old(self)@.name,
            final(self)@.images =~= old(self)@.images,
            final(self)@.bones =~= old(self)@.bones.push(b@),
    {
        self.bones.push(b);
    }

    /// Appends an image reference to this view.
    pub fn add_image(&mut self, img: SchemaImage)
        ensures
            final(self)@.name == old(self)@.name,
            final(self)@.bones =~= old(self)@.bones,
            final(self)@.images =~= old(self)@.images.push(img@),
    {
        self.images.push(img);
    }

    /// Removes the image reference at `i`, keeping the order of the rest.
    pub fn remove_image(&mut self, i: usize)
        requires
            i < old(self)@.images.len(),
        ensures
            final(self)@.name == old(self)@.name,
            final(self)@.bones =~= old(self)@.bones,
            final(self)@.images =~= old(self)@.images.remove(i as int),
    {
        self.images.remove(i);
    }

    /// Renames this view; no other structure references the old name.
    pub fn rename(&mut self, name: Vec<u8>)
        ensures
            final(self)@.name == name@,
            final(self)@.images =~= old(self)@.images,
            final(self)@.bones =~= old(self)@.bones,
    {
        self.name = name;
    }
}

impl SchemaBone {
    /// Renames this bone's selection label.
    pub fn rename_label(&mut self, label: Vec<u8>)
        ensures
            final(self)@ == (BoneV { label: label@, ..old(self)@ }),
    {
        self.label = label;
    }
}

/// A document bound to the path it was loaded from or last saved to,
/// if any.
pub struct SchemaFile {
    pub path: Option<Vec<u8>>,
    pub data: SchemaData,
}

impl Default for SchemaFile {
    /// A fresh, unsaved file holding an empty document.
    fn default() -> (r: Self)
        ensures
            r.path is None,
            r.data@ =~= Seq::<ViewV>::empty(),
    {
        SchemaFile { path: None, data: SchemaData::default() }
    }
}

} // verus!
