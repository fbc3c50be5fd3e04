//! Named ranges of an output's bytes, nested into trees.

use vstd::prelude::*;
use vstd::utf8::encode_utf8;

verus! {

/// A named range of an output's bytes, with the ranges nested inside it.
#[derive(Debug, PartialEq, PartialOrd, Eq, Ord, Hash, Default)]
pub struct TaggedRange {
    /// The first index of the range (inclusive).
    pub start: usize,
    /// The last index of the range (exclusive); `usize::MAX` while the range
    /// is still open.
    pub end: usize,
    /// How many ancestors this range had when it was opened, or 0 if it's a
    /// root.
    pub depth: usize,
    /// The name/tag of the region.
    pub name: String,
    /// The child sub-regions of this region.
    pub children: Vec<TaggedRange>,
}

/// A tagged range as mathematical values; its name is held as UTF-8 bytes.
pub struct RangeModel {
    pub start: int,
    pub end: int,
    pub depth: int,
    pub name: Seq<u8>,
    pub children: Seq<RangeModel>,
}

impl TaggedRange {
    /// This range as mathematical values.
    pub open spec fn model(self) -> RangeModel
        decreases self,
    {
        RangeModel {
            start: self.start as int,
            end: self.end as int,
            depth: self.depth as int,
            name: encode_utf8(self.name@),
            children: models(self.children@),
        }
    }
}

/// Each range of `ranges` as mathematical values.
pub open spec fn models(ranges: Seq<TaggedRange>) -> Seq<RangeModel>
    decreases ranges,
{
    if ranges.len() == 0 {
        Seq::empty()
    } else {
        models(ranges.drop_last()).push(ranges.last().model())
    }
}

/// `models` maps the ranges one by one.
pub proof fn lemma_models(ranges: Seq<TaggedRange>)
    ensures
        models(ranges).len() == ranges.len(),
        forall|i: int| 0 <= i < ranges.len() ==> #[trigger] models(ranges)[i] == ranges[i].model(),
    decreases ranges.len(),
{
    if ranges.len() > 0 {
        lemma_models(ranges.drop_last());
    }
}

/// `models` of a pushed sequence.
pub proof fn lemma_models_push(ranges: Seq<TaggedRange>, range: TaggedRange)
    ensures
        models(ranges.push(range)) == models(ranges).push(range.model()),
{
    assert(ranges.push(range).drop_last() =~= ranges);
}

/// A range and, in order, all the ranges nested in it: each range comes
/// before its children, and a child's descendants before its next sibling.
pub open spec fn flatten(range: RangeModel) -> Seq<RangeModel>
    decreases range,
{
    seq![range] + flatten_all(range.children)
}

/// The ranges of `ranges` flattened one after the other.
pub open spec fn flatten_all(ranges: Seq<RangeModel>) -> Seq<RangeModel>
    decreases ranges,
{
    if ranges.len() == 0 {
        Seq::empty()
    } else {
        flatten_all(ranges.drop_last()) + flatten(ranges.last())
    }
}

/// Whether `range` and every range nested in it lie within the first `len`
/// bytes of an output.
pub open spec fn within(range: RangeModel, len: int) -> bool
    decreases range,
{
    &&& range.start <= len
    &&& range.end <= len
    &&& forall|i: int| 0 <= i < range.children.len() ==> within(#[trigger] range.children[i], len)
}

/// What lies within a prefix lies within any longer one.
pub proof fn lemma_within_grows(range: RangeModel, len: int, longer: int)
    requires
        within(range, len),
        len <= longer,
    ensures
        within(range, longer),
    decreases range,
{
    assert forall|i: int| 0 <= i < range.children.len() implies within(#[trigger] range.children[i], longer) by {
        lemma_within_grows(range.children[i], len, longer);
    }
}

/// `range` ended at `end`.
pub open spec fn ended(range: RangeModel, end: int) -> RangeModel {
    RangeModel { end, ..range }
}

/// `parent` with `child` nested in it after its other children.
pub open spec fn with_child(parent: RangeModel, child: RangeModel) -> RangeModel {
    RangeModel { children: parent.children.push(child), ..parent }
}

/// `flatten_all` of a pushed sequence.
pub proof fn lemma_flatten_all_push(ranges: Seq<RangeModel>, range: RangeModel)
    ensures
        flatten_all(ranges.push(range)) == flatten_all(ranges) + flatten(range),
{
    assert(ranges.push(range).drop_last() =~= ranges);
}

/// A range opened at `start` with `depth` ancestors: not yet ended, and
/// without children.
pub open spec fn open_range(start: int, depth: int, name: Seq<u8>) -> RangeModel {
    RangeModel { start, end: usize::MAX as int, depth, name, children: Seq::empty() }
}

/// `range` and every range nested in it moved `offset` bytes later and
/// `depth` levels deeper.
pub open spec fn shifted(range: RangeModel, offset: int, depth: int) -> RangeModel
    decreases range,
{
    RangeModel {
        start: range.start + offset,
        end: range.end + offset,
        depth: range.depth + depth,
        name: range.name,
        children: shifted_all(range.children, offset, depth),
    }
}

/// Each range of `ranges` [`shifted`].
pub open spec fn shifted_all(ranges: Seq<RangeModel>, offset: int, depth: int) -> Seq<RangeModel>
    decreases ranges,
{
    if ranges.len() == 0 {
        Seq::empty()
    } else {
        shifted_all(ranges.drop_last(), offset, depth).push(shifted(ranges.last(), offset, depth))
    }
}

/// `shifted_all` shifts the ranges one by one.
pub proof fn lemma_shifted_all(ranges: Seq<RangeModel>, offset: int, depth: int)
    ensures
        shifted_all(ranges, offset, depth).len() == ranges.len(),
        forall|i: int|
            0 <= i < ranges.len() ==> #[trigger] shifted_all(ranges, offset, depth)[i] == shifted(
                ranges[i],
                offset,
                depth,
            ),
    decreases ranges.len(),
{
    if ranges.len() > 0 {
        lemma_shifted_all(ranges.drop_last(), offset, depth);
    }
}

/// Shifting a prefix one range further.
proof fn lemma_shifted_all_take(ranges: Seq<RangeModel>, i: int, offset: int, depth: int)
    requires
        0 <= i < ranges.len(),
    ensures
        shifted_all(ranges.take(i + 1), offset, depth) == shifted_all(ranges.take(i), offset, depth).push(
            shifted(ranges[i], offset, depth),
        ),
{
    assert(ranges.take(i + 1).drop_last() =~= ranges.take(i));
}

/// A shifted range lies as far into the output as it was moved.
pub proof fn lemma_shifted_within(range: RangeModel, len: int, offset: int, depth: int, longer: int)
    requires
        within(range, len),
        len + offset <= longer,
        0 <= offset,
    ensures
        within(shifted(range, offset, depth), longer),
    decreases range,
{
    lemma_shifted_all(range.children, offset, depth);
    let moved = shifted(range, offset, depth);
    assert forall|i: int| 0 <= i < moved.children.len() implies within(#[trigger] moved.children[i], longer) by {
        lemma_shifted_within(range.children[i], len, offset, depth, longer);
    }
}

/// Shifting by nothing changes nothing.
pub proof fn lemma_shifted_zero(range: RangeModel)
    ensures
        shifted(range, 0, 0) == range,
    decreases range,
{
    lemma_shifted_all(range.children, 0, 0);
    assert forall|i: int| 0 <= i < range.children.len() implies shifted_all(range.children, 0, 0)[i]
        == range.children[i] by {
        lemma_shifted_zero(range.children[i]);
    }
    assert(shifted_all(range.children, 0, 0) =~= range.children);
}

/// Whether `range` and every range nested in it have at most `room`
/// ancestors.
pub open spec fn depth_room(range: RangeModel, room: int) -> bool
    decreases range,
{
    &&& range.depth <= room
    &&& forall|i: int| 0 <= i < range.children.len() ==> depth_room(#[trigger] range.children[i], room)
}

impl TaggedRange {
    /// A range opened at `start` with `depth` ancestors.
    pub(crate) fn new(start: usize, depth: usize, name: String) -> (range: Self)
        ensures
            range.model() == open_range(start as int, depth as int, encode_utf8(name@)),
    {
        let range = TaggedRange { start, depth, end: usize::MAX, name, children: Vec::new() };
        assert(range.model().children =~= Seq::<RangeModel>::empty());
        range
    }

    /// A copy of this range and of everything nested in it.
    pub fn duplicate(&self) -> (copy: Self)
        ensures
            copy.model() == self.model(),
        decreases self,
    {
        let mut children: Vec<TaggedRange> = Vec::new();
        let mut i: usize = 0;
        while i < self.children.len()
            invariant
                i <= self.children@.len(),
                models(children@) == models(self.children@.take(i as int)),
            decreases self.children@.len() - i,
        {
            proof {
                vstd::std_specs::vec::axiom_vec_index_decreases(self.children, i as int);
            }
            let child = self.children[i].duplicate();
            proof {
                lemma_models_push(children@, child);
                lemma_models_push(self.children@.take(i as int), self.children@[i as int]);
                assert(self.children@.take(i + 1) =~= self.children@.take(i as int).push(self.children@[i as int]));
            }
            children.push(child);
            i = i + 1;
        }
        assert(self.children@.take(i as int) =~= self.children@);
        TaggedRange {
            start: self.start,
            end: self.end,
            depth: self.depth,
            name: self.name.clone(),
            children,
        }
    }

    /// The number of bytes in the range.
    pub fn len(&self) -> (len: usize)
        requires
            self.start <= self.end,
        ensures
            len == self.end - self.start,
    {
        self.end - self.start
    }

    /// The first index of the range.
    pub fn start(&self) -> (start: usize)
        ensures
            start == self.start,
    {
        self.start
    }

    /// The index just after the range.
    pub fn end(&self) -> (end: usize)
        ensures
            end == self.end,
    {
        self.end
    }

    /// The range's name.
    pub fn name(&self) -> (name: &String)
        ensures
            *name == self.name,
    {
        &self.name
    }

    /// The ranges nested directly in this one.
    pub fn children(&self) -> (children: &[TaggedRange])
        ensures
            children@ == self.children@,
    {
        self.children.as_slice()
    }

    /// The indices of the range.
    pub fn range(&self) -> (range: core::ops::Range<usize>)
        ensures
            range.start == self.start,
            range.end == self.end,
    {
        self.start..self.end
    }

    /// This range, then, in order, every range nested in it.
    pub fn iter<'a>(&'a self) -> (items: Vec<&'a TaggedRange>)
        ensures
            models(items@.map_values(|r: &TaggedRange| *r)) == flatten(self.model()),
        decreases self,
    {
        let mut items: Vec<&'a TaggedRange> = Vec::new();
        items.push(self);
        let mut i: usize = 0;
        proof {
            lemma_models(self.children@);
            assert(items@.map_values(|r: &TaggedRange| *r) =~= seq![*self]);
            lemma_models_push(Seq::<TaggedRange>::empty(), *self);
            assert(seq![*self] =~= Seq::<TaggedRange>::empty().push(*self));
            assert(self.model().children.take(0) =~= Seq::<RangeModel>::empty());
            assert(models(seq![*self]) =~= seq![self.model()] + flatten_all(self.model().children.take(0)));
        }
        while i < self.children.len()
            invariant
                i <= self.children@.len(),
                self.model().children == models(self.children@),
                models(self.children@).len() == self.children@.len(),
                forall|k: int| 0 <= k < self.children@.len() ==> #[trigger] models(self.children@)[k] == self.children@[k].model(),
                models(items@.map_values(|r: &TaggedRange| *r)) == seq![self.model()] + flatten_all(
                    self.model().children.take(i as int),
                ),
            decreases self.children@.len() - i,
        {
            proof {
                vstd::std_specs::vec::axiom_vec_index_decreases(self.children, i as int);
            }
            let mut below = self.children[i].iter();
            let ghost before = items@.map_values(|r: &TaggedRange| *r);
            let ghost added = below@.map_values(|r: &TaggedRange| *r);
            items.append(&mut below);
            proof {
                assert(items@.map_values(|r: &TaggedRange| *r) =~= before + added);
                lemma_models_concat(before, added);
                let ms = self.model().children;
                assert(ms.take(i + 1) =~= ms.take(i as int).push(ms[i as int]));
                lemma_flatten_all_push(ms.take(i as int), ms[i as int]);
            }
            i = i + 1;
        }
        proof {
            assert(self.model().children.take(i as int) =~= self.model().children);
        }
        items
    }

    /// This range and every range nested in it moved `offset` bytes later
    /// and `depth` levels deeper.
    pub(crate) fn add(&self, offset: usize, depth: usize) -> (range: Self)
        requires
            within(self.model(), usize::MAX - offset),
            depth_room(self.model(), usize::MAX - depth),
        ensures
            range.model() == shifted(self.model(), offset as int, depth as int),
        decreases self,
    {
        let ghost kids = models(self.children@);
        proof {
            lemma_models(self.children@);
        }
        let mut children: Vec<TaggedRange> = Vec::new();
        let mut i: usize = 0;
        while i < self.children.len()
            invariant
                i <= self.children@.len(),
                kids == models(self.children@),
                kids == self.model().children,
                kids.len() == self.children@.len(),
                forall|k: int| 0 <= k < self.children@.len() ==> #[trigger] kids[k] == self.children@[k].model(),
                within(self.model(), usize::MAX - offset),
                depth_room(self.model(), usize::MAX - depth),
                models(children@) == shifted_all(kids.take(i as int), offset as int, depth as int),
            decreases self.children@.len() - i,
        {
            proof {
                vstd::std_specs::vec::axiom_vec_index_decreases(self.children, i as int);
                assert(within(kids[i as int], usize::MAX - offset));
                assert(depth_room(kids[i as int], usize::MAX - depth));
            }
            let child = self.children[i].add(offset, depth);
            proof {
                lemma_models_push(children@, child);
                lemma_shifted_all_take(kids, i as int, offset as int, depth as int);
            }
            children.push(child);
            i = i + 1;
        }
        assert(kids.take(i as int) =~= kids);
        let range = TaggedRange {
            start: self.start + offset,
            end: self.end + offset,
            name: self.name.clone(),
            depth: self.depth + depth,
            children,
        };
        range
    }
}

impl Clone for TaggedRange {
    fn clone(&self) -> (copy: Self)
        ensures
            copy.model() == self.model(),
    {
        self.duplicate()
    }
}

/// `models` of a concatenation.
pub proof fn lemma_models_concat(a: Seq<TaggedRange>, b: Seq<TaggedRange>)
    ensures
        models(a + b) == models(a) + models(b),
    decreases b.len(),
{
    if b.len() == 0 {
        assert(a + b =~= a);
        assert(models(a) + models(b) =~= models(a));
    } else {
        lemma_models_concat(a, b.drop_last());
        assert((a + b).drop_last() =~= a + b.drop_last());
        assert(models(a) + models(b) =~= (models(a) + models(b.drop_last())).push(b.last().model()));
    }
}

} // verus!
