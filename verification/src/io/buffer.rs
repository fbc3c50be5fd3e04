//! An in-memory output that marks named ranges of what is written to it, on
//! several independent tracks.

use vstd::prelude::*;
use vstd::relations::{sorted_by, total_ordering};
use vstd::utf8::encode_utf8;

use crate::io::tagged::{
    depth_room, ended, flatten, flatten_all, lemma_flatten_all_push, lemma_models, lemma_models_concat, lemma_models_push, lemma_shifted_within, lemma_shifted_zero, lemma_within_grows, models, open_range, shifted,
    within, with_child, RangeModel, TaggedRange,
};
use crate::zip::order::{
    bytes_eq, bytes_le, bytes_lt, lemma_lex_antisymmetric, lemma_lex_order_chain, lemma_lex_total,
    lemma_lex_transitive, lex_le, lex_lt,
};

verus! {

broadcast use vstd::multiset::group_multiset_axioms, vstd::seq_lib::group_to_multiset_ensures;

/// The tags of one track, under the track's name.
#[derive(Debug, Clone, Default)]
pub struct TagTrack {
    pub track: String,
    pub tags: Vec<TaggedRange>,
}

/// A track as mathematical values: its name as UTF-8 bytes, and its tags.
pub type TrackModel = (Seq<u8>, Seq<RangeModel>);

/// `track` as mathematical values.
pub open spec fn track_model(track: TagTrack) -> TrackModel {
    (encode_utf8(track.track@), models(track.tags@))
}

/// Each track of `tracks` as mathematical values.
pub open spec fn track_models(tracks: Seq<TagTrack>) -> Seq<TrackModel> {
    tracks.map_values(|t: TagTrack| track_model(t))
}

/// Whether the names of `tracks` increase strictly, so that no name occurs
/// twice.
pub open spec fn names_increasing(tracks: Seq<TrackModel>) -> bool {
    forall|i: int, j: int| 0 <= i < j < tracks.len() ==> lex_lt(#[trigger] tracks[i].0, #[trigger] tracks[j].0)
}

/// The tags of each track, by the track's name.
pub open spec fn track_map(tracks: Seq<TrackModel>) -> Map<Seq<u8>, Seq<RangeModel>>
    decreases tracks.len(),
{
    if tracks.len() == 0 {
        Map::empty()
    } else {
        track_map(tracks.drop_last()).insert(tracks.last().0, tracks.last().1)
    }
}

/// The tags of track `name` in `map`, or none.
pub open spec fn tags_of(map: Map<Seq<u8>, Seq<RangeModel>>, name: Seq<u8>) -> Seq<RangeModel> {
    if map.contains_key(name) {
        map[name]
    } else {
        Seq::empty()
    }
}

/// With distinct names, `track_map` holds exactly the listed tracks.
pub proof fn lemma_track_map(tracks: Seq<TrackModel>)
    requires
        names_increasing(tracks),
    ensures
        forall|i: int|
            0 <= i < tracks.len() ==> #[trigger] track_map(tracks).contains_key(tracks[i].0)
                && track_map(tracks)[tracks[i].0] == tracks[i].1,
        forall|name: Seq<u8>|
            #[trigger] track_map(tracks).contains_key(name) ==> exists|i: int|
                0 <= i < tracks.len() && tracks[i].0 == name,
    decreases tracks.len(),
{
    if tracks.len() > 0 {
        let rest = tracks.drop_last();
        assert(names_increasing(rest));
        lemma_track_map(rest);
        assert forall|i: int| 0 <= i < tracks.len() implies #[trigger] track_map(tracks).contains_key(
            tracks[i].0,
        ) && track_map(tracks)[tracks[i].0] == tracks[i].1 by {
            if i < tracks.len() - 1 {
                assert(rest[i] == tracks[i]);
                assert(track_map(rest).contains_key(rest[i].0));
                assert(lex_lt(tracks[i].0, tracks[tracks.len() - 1].0));
            }
        }
        assert forall|name: Seq<u8>| #[trigger] track_map(tracks).contains_key(name) implies exists|i: int|
            0 <= i < tracks.len() && tracks[i].0 == name by {
            if name != tracks.last().0 {
                assert(track_map(rest).contains_key(name));
                let i = choose|i: int| 0 <= i < rest.len() && rest[i].0 == name;
                assert(tracks[i] == rest[i]);
            } else {
                assert(tracks[tracks.len() - 1].0 == name);
            }
        }
    }
}

/// Replacing the tags of a listed track.
pub proof fn lemma_track_map_update(tracks: Seq<TrackModel>, i: int, tags: Seq<RangeModel>)
    requires
        names_increasing(tracks),
        0 <= i < tracks.len(),
    ensures
        names_increasing(tracks.update(i, (tracks[i].0, tags))),
        track_map(tracks.update(i, (tracks[i].0, tags))) == track_map(tracks).insert(tracks[i].0, tags),
{
    let after = tracks.update(i, (tracks[i].0, tags));
    assert(names_increasing(after)) by {
        assert forall|a: int, b: int| 0 <= a < b < after.len() implies lex_lt(
            #[trigger] after[a].0,
            #[trigger] after[b].0,
        ) by {
            assert(after[a].0 == tracks[a].0);
            assert(after[b].0 == tracks[b].0);
        }
    }
    lemma_track_map(tracks);
    lemma_track_map(after);
    let expected = track_map(tracks).insert(tracks[i].0, tags);
    assert forall|name: Seq<u8>| #[trigger] track_map(after).contains_key(name) <==> expected.contains_key(name) by {
        if track_map(after).contains_key(name) {
            let j = choose|j: int| 0 <= j < after.len() && after[j].0 == name;
            assert(tracks[j].0 == name);
            assert(track_map(tracks).contains_key(tracks[j].0));
        }
        if track_map(tracks).contains_key(name) {
            let j = choose|j: int| 0 <= j < tracks.len() && tracks[j].0 == name;
            assert(after[j].0 == name);
            assert(track_map(after).contains_key(after[j].0));
        }
        if name == tracks[i].0 {
            assert(after[i].0 == name);
            assert(track_map(after).contains_key(after[i].0));
        }
    }
    assert forall|name: Seq<u8>| #[trigger] track_map(after).contains_key(name) implies track_map(after)[name]
        == expected[name] by {
        let j = choose|j: int| 0 <= j < after.len() && after[j].0 == name;
        assert(track_map(after).contains_key(after[j].0));
        if j == i {
        } else {
            assert(tracks[j].0 == name);
            assert(track_map(tracks).contains_key(tracks[j].0));
            assert(lex_lt(tracks[i].0, tracks[j].0) || lex_lt(tracks[j].0, tracks[i].0));
        }
    }
    assert(track_map(after) =~= expected);
}

/// Listing a new track at a position that keeps the names increasing.
pub proof fn lemma_track_map_insert(tracks: Seq<TrackModel>, p: int, track: TrackModel)
    requires
        names_increasing(tracks),
        0 <= p <= tracks.len(),
        forall|j: int| 0 <= j < p ==> lex_lt(#[trigger] tracks[j].0, track.0),
        forall|j: int| p <= j < tracks.len() ==> lex_lt(track.0, #[trigger] tracks[j].0),
    ensures
        names_increasing(tracks.insert(p, track)),
        track_map(tracks.insert(p, track)) == track_map(tracks).insert(track.0, track.1),
        !track_map(tracks).contains_key(track.0),
{
    let after = tracks.insert(p, track);
    assert(names_increasing(after)) by {
        assert forall|a: int, b: int| 0 <= a < b < after.len() implies lex_lt(
            #[trigger] after[a].0,
            #[trigger] after[b].0,
        ) by {
            if a < p && b < p {
                assert(after[a] == tracks[a] && after[b] == tracks[b]);
            } else if a < p && b == p {
            } else if a < p {
                assert(after[a] == tracks[a] && after[b] == tracks[b - 1]);
                lemma_lex_order_chain(tracks[a].0, track.0, tracks[b - 1].0);
            } else if a == p {
                assert(after[b] == tracks[b - 1]);
            } else {
                assert(after[a] == tracks[a - 1] && after[b] == tracks[b - 1]);
            }
        }
    }
    lemma_track_map(tracks);
    lemma_track_map(after);
    assert(!track_map(tracks).contains_key(track.0)) by {
        if track_map(tracks).contains_key(track.0) {
            let j = choose|j: int| 0 <= j < tracks.len() && tracks[j].0 == track.0;
            if j < p {
                assert(lex_lt(tracks[j].0, track.0));
            } else {
                assert(lex_lt(track.0, tracks[j].0));
            }
        }
    }
    let expected = track_map(tracks).insert(track.0, track.1);
    assert forall|name: Seq<u8>| #[trigger] track_map(after).contains_key(name) <==> expected.contains_key(name) by {
        if track_map(after).contains_key(name) {
            let j = choose|j: int| 0 <= j < after.len() && after[j].0 == name;
            if j < p {
                assert(after[j] == tracks[j]);
                assert(track_map(tracks).contains_key(tracks[j].0));
            } else if j > p {
                assert(after[j] == tracks[j - 1]);
                assert(track_map(tracks).contains_key(tracks[j - 1].0));
            }
        }
        if track_map(tracks).contains_key(name) {
            let j = choose|j: int| 0 <= j < tracks.len() && tracks[j].0 == name;
            if j < p {
                assert(after[j] == tracks[j]);
                assert(track_map(after).contains_key(after[j].0));
            } else {
                assert(after[j + 1] == tracks[j]);
                assert(track_map(after).contains_key(after[j + 1].0));
            }
        }
        if name == track.0 {
            assert(after[p] == track);
            assert(track_map(after).contains_key(after[p].0));
        }
    }
    assert forall|name: Seq<u8>| #[trigger] track_map(after).contains_key(name) implies track_map(after)[name]
        == expected[name] by {
        let j = choose|j: int| 0 <= j < after.len() && after[j].0 == name;
        assert(track_map(after).contains_key(after[j].0));
        if j < p {
            assert(after[j] == tracks[j]);
            assert(track_map(tracks).contains_key(tracks[j].0));
        } else if j > p {
            assert(after[j] == tracks[j - 1]);
            assert(track_map(tracks).contains_key(tracks[j - 1].0));
        }
    }
    assert(track_map(after) =~= expected);
}

/// The UTF-8 bytes of `s`.
fn name_bytes(s: &String) -> (bytes: &[u8])
    ensures
        bytes@ == encode_utf8(s@),
{
    s.as_str().as_bytes()
}

/// Looks `name` up among `tracks`: `(true, i)` where track `i` has that
/// name, else `(false, p)` where `p` is the position at which a track of that
/// name keeps the names increasing.
fn find_track(tracks: &Vec<TagTrack>, name: &[u8]) -> (found: (bool, usize))
    requires
        names_increasing(track_models(tracks@)),
    ensures
        found.1 <= tracks@.len(),
        found.0 ==> found.1 < tracks@.len() && track_models(tracks@)[found.1 as int].0 == name@,
        !found.0 ==> (forall|j: int| 0 <= j < found.1 ==> lex_lt(#[trigger] track_models(tracks@)[j].0, name@))
            && (forall|j: int| found.1 <= j < tracks@.len() ==> lex_lt(name@, #[trigger] track_models(tracks@)[j].0)),
{
    let ghost ms = track_models(tracks@);
    let mut i: usize = 0;
    while i < tracks.len() && bytes_lt(name_bytes(&tracks[i].track), name)
        invariant
            ms == track_models(tracks@),
            names_increasing(ms),
            i <= tracks@.len(),
            forall|j: int| 0 <= j < i ==> lex_lt(#[trigger] ms[j].0, name@),
        decreases tracks@.len() - i,
    {
        i = i + 1;
    }
    if i < tracks.len() && bytes_eq(name_bytes(&tracks[i].track), name) {
        return (true, i);
    }
    proof {
        if i < tracks@.len() {
            lemma_lex_total(ms[i as int].0, name@);
            assert forall|j: int| i <= j < tracks@.len() implies lex_lt(name@, #[trigger] ms[j].0) by {
                if j > i {
                    lemma_lex_order_chain(name@, ms[i as int].0, ms[j].0);
                }
            }
        }
    }
    (false, i)
}

/// Makes sure `tracks` lists a track named `name`, adding one without tags
/// where it did not, and gives that track's position.
fn track_entry(tracks: &mut Vec<TagTrack>, name: &String) -> (i: usize)
    requires
        names_increasing(track_models(old(tracks)@)),
    ensures
        names_increasing(track_models(final(tracks)@)),
        i < final(tracks)@.len(),
        track_models(final(tracks)@)[i as int] == (encode_utf8(name@), tags_of(track_map(track_models(old(tracks)@)), encode_utf8(name@))),
        track_map(track_models(final(tracks)@)) == track_map(track_models(old(tracks)@)).insert(
            encode_utf8(name@),
            tags_of(track_map(track_models(old(tracks)@)), encode_utf8(name@)),
        ),
{
    let ghost key = encode_utf8(name@);
    let ghost before = track_models(tracks@);
    let (found, i) = find_track(tracks, name_bytes(name));
    proof {
        lemma_track_map(before);
    }
    if found {
        proof {
            assert(track_map(before).insert(key, before[i as int].1) =~= track_map(before));
        }
        return i;
    }
    let track = TagTrack { track: name.clone(), tags: Vec::new() };
    proof {
        assert(models(track.tags@) =~= Seq::<RangeModel>::empty());
        lemma_track_map_insert(before, i as int, track_model(track));
    }
    tracks.insert(i, track);
    proof {
        assert(track_models(tracks@) =~= before.insert(i as int, track_model(track)));
    }
    i
}

/// Adds `range` at the end of the tags of track `i`.
fn push_tag(tracks: &mut Vec<TagTrack>, i: usize, range: TaggedRange)
    requires
        names_increasing(track_models(old(tracks)@)),
        i < old(tracks)@.len(),
    ensures
        names_increasing(track_models(final(tracks)@)),
        track_models(final(tracks)@) == track_models(old(tracks)@).update(
            i as int,
            (track_models(old(tracks)@)[i as int].0, track_models(old(tracks)@)[i as int].1.push(range.model())),
        ),
        track_map(track_models(final(tracks)@)) == track_map(track_models(old(tracks)@)).insert(
            track_models(old(tracks)@)[i as int].0,
            track_models(old(tracks)@)[i as int].1.push(range.model()),
        ),
{
    let ghost before = track_models(tracks@);
    let mut track = tracks.remove(i);
    proof {
        lemma_models_push(track.tags@, range);
    }
    track.tags.push(range);
    tracks.insert(i, track);
    proof {
        let tags = before[i as int].1.push(range.model());
        assert(track_models(tracks@) =~= before.update(i as int, (before[i as int].0, tags)));
        lemma_track_map_update(before, i as int, tags);
    }
}

/// A root range of a finished track: it has no ancestors and lies within
/// the output.
pub open spec fn root_ok(range: RangeModel, len: int) -> bool {
    range.depth == 0 && within(range, len)
}

/// An open range at `position` in its track's stack: it started within the
/// output, has not ended, has as many ancestors as ranges below it in the
/// stack, and what is nested in it lies within the output.
pub open spec fn open_ok(range: RangeModel, position: int, len: int) -> bool {
    &&& range.start <= len
    &&& range.end == usize::MAX
    &&& range.depth == position
    &&& forall|i: int| 0 <= i < range.children.len() ==> within(#[trigger] range.children[i], len)
}

/// Adds `tags` at the end of the tags of track `i`.
fn append_tags(tracks: &mut Vec<TagTrack>, i: usize, tags: Vec<TaggedRange>)
    requires
        names_increasing(track_models(old(tracks)@)),
        i < old(tracks)@.len(),
    ensures
        names_increasing(track_models(final(tracks)@)),
        track_map(track_models(final(tracks)@)) == track_map(track_models(old(tracks)@)).insert(
            track_models(old(tracks)@)[i as int].0,
            track_models(old(tracks)@)[i as int].1 + models(tags@),
        ),
{
    let ghost before = track_models(tracks@);
    let ghost added = models(tags@);
    let mut tags = tags;
    let mut track = tracks.remove(i);
    proof {
        lemma_models_concat(track.tags@, tags@);
    }
    track.tags.append(&mut tags);
    tracks.insert(i, track);
    proof {
        let all = before[i as int].1 + added;
        assert(track_models(tracks@) =~= before.update(i as int, (before[i as int].0, all)));
        lemma_track_map_update(before, i as int, all);
    }
}

/// The roots `tags`, each moved `offset` bytes later and `depth` levels
/// deeper.
pub open spec fn moved(tags: Seq<RangeModel>, offset: int, depth: int) -> Seq<RangeModel> {
    Seq::new(tags.len(), |i: int| shifted(tags[i], offset, depth))
}

/// Copies of `tags`, each moved `offset` bytes later and `depth` levels
/// deeper.
fn moved_tags(tags: &Vec<TaggedRange>, offset: usize, depth: usize) -> (copies: Vec<TaggedRange>)
    requires
        forall|i: int|
            0 <= i < tags@.len() ==> within(#[trigger] tags@[i].model(), usize::MAX - offset) && depth_room(
                tags@[i].model(),
                usize::MAX - depth,
            ),
    ensures
        models(copies@) == moved(models(tags@), offset as int, depth as int),
{
    let mut copies: Vec<TaggedRange> = Vec::new();
    let mut i: usize = 0;
    proof {
        lemma_models(tags@);
    }
    while i < tags.len()
        invariant
            i <= tags@.len(),
            models(tags@).len() == tags@.len(),
            forall|k: int| 0 <= k < tags@.len() ==> #[trigger] models(tags@)[k] == tags@[k].model(),
            forall|k: int|
                0 <= k < tags@.len() ==> within(#[trigger] tags@[k].model(), usize::MAX - offset) && depth_room(
                    tags@[k].model(),
                    usize::MAX - depth,
                ),
            models(copies@) == moved(models(tags@), offset as int, depth as int).take(i as int),
        decreases tags@.len() - i,
    {
        let copy = tags[i].add(offset, depth);
        proof {
            lemma_models_push(copies@, copy);
            let all = moved(models(tags@), offset as int, depth as int);
            assert(all.take(i + 1) =~= all.take(i as int).push(all[i as int]));
        }
        copies.push(copy);
        i = i + 1;
    }
    assert(moved(models(tags@), offset as int, depth as int).take(i as int) =~= moved(
        models(tags@),
        offset as int,
        depth as int,
    ));
    copies
}

/// The tags after the complete roots `roots` of track `name` of another
/// buffer are taken over at `offset`: nested, in order, under the track's
/// innermost open range if it has one, else added to its complete roots;
/// either way moved by `offset` and by the depth of the track's stack.
pub open spec fn absorb(
    tags: (Map<Seq<u8>, Seq<RangeModel>>, Map<Seq<u8>, Seq<RangeModel>>),
    name: Seq<u8>,
    roots: Seq<RangeModel>,
    offset: int,
) -> (Map<Seq<u8>, Seq<RangeModel>>, Map<Seq<u8>, Seq<RangeModel>>) {
    let complete = tags.0.insert(name, tags_of(tags.0, name));
    let open = tags.1.insert(name, tags_of(tags.1, name));
    let stack = open[name];
    let roots = moved(roots, offset, stack.len() as int);
    if stack.len() > 0 {
        (
            complete,
            open.insert(
                name,
                stack.update(
                    stack.len() - 1,
                    RangeModel { children: stack.last().children + roots, ..stack.last() },
                ),
            ),
        )
    } else {
        (complete.insert(name, complete[name] + roots), open)
    }
}

/// `absorb` for each track of `tracks` in turn.
pub open spec fn absorb_all(
    tags: (Map<Seq<u8>, Seq<RangeModel>>, Map<Seq<u8>, Seq<RangeModel>>),
    tracks: Seq<TrackModel>,
    offset: int,
) -> (Map<Seq<u8>, Seq<RangeModel>>, Map<Seq<u8>, Seq<RangeModel>>)
    decreases tracks.len(),
{
    if tracks.len() == 0 {
        tags
    } else {
        absorb(absorb_all(tags, tracks.drop_last(), offset), tracks.last().0, tracks.last().1, offset)
    }
}

/// Whether the complete ranges `complete` of another buffer, and every
/// range nested in them, can be nested as deep as the stacks of `open`
/// reach on their tracks without their depth overflowing.
pub open spec fn depths_fit(
    open: Map<Seq<u8>, Seq<RangeModel>>,
    complete: Map<Seq<u8>, Seq<RangeModel>>,
) -> bool {
    forall|k: Seq<u8>, j: int|
        complete.contains_key(k) && 0 <= j < complete[k].len() ==> depth_room(
            #[trigger] complete[k][j],
            usize::MAX - tags_of(open, k).len(),
        )
}

/// Taking over another buffer's complete tags leaves every stack of open
/// ranges as long as it was.
proof fn lemma_absorb_all_lens(tags: TagState, tracks: Seq<TrackModel>, offset: int, track: Seq<u8>)
    ensures
        tags_of(absorb_all(tags, tracks, offset).1, track).len() == tags_of(tags.1, track).len(),
    decreases tracks.len(),
{
    if tracks.len() > 0 {
        lemma_absorb_all_lens(tags, tracks.drop_last(), offset, track);
    }
}

/// The tags of a buffer: the complete roots and the stack of open ranges
/// of each track.
pub type TagState = (Map<Seq<u8>, Seq<RangeModel>>, Map<Seq<u8>, Seq<RangeModel>>);

/// The tags after a range named `name` is opened on `track` at `at`,
/// nested in the track's innermost open range if it has one.
pub open spec fn started(tags: TagState, track: Seq<u8>, name: Seq<u8>, at: int) -> TagState {
    let stack = tags_of(tags.1, track);
    (tags.0, tags.1.insert(track, stack.push(open_range(at, stack.len() as int, name))))
}

/// The tags after the innermost open range of `track` is ended at `at`: it
/// becomes the last child of the next open range of the track if there is
/// one, or else the track's last complete root.
pub open spec fn closed(tags: TagState, track: Seq<u8>, at: int) -> TagState {
    let stack = tags.1[track];
    let range = ended(stack.last(), at);
    let rest = stack.drop_last();
    if rest.len() > 0 {
        (tags.0, tags.1.insert(track, rest.update(rest.len() - 1, with_child(rest.last(), range))))
    } else {
        (tags.0.insert(track, tags_of(tags.0, track).push(range)), tags.1.insert(track, rest))
    }
}

/// The tags after the range from `from` to `to` is marked as `name` on
/// `track`: opened at `from` and ended at `to`.
pub open spec fn marked(tags: TagState, track: Seq<u8>, name: Seq<u8>, from: int, to: int) -> TagState {
    closed(started(tags, track, name, from), track, to)
}

/// Marking a range inside an open range of its track leaves the stack of
/// the track as long as it was, and its innermost range where and what it
/// was: only its children change.
pub proof fn lemma_marked_stack(tags: TagState, track: Seq<u8>, name: Seq<u8>, from: int, to: int)
    requires
        tags.1.contains_key(track),
        tags.1[track].len() > 0,
    ensures
        marked(tags, track, name, from, to).1.contains_key(track),
        marked(tags, track, name, from, to).1[track].len() == tags.1[track].len(),
        same_but_children(marked(tags, track, name, from, to).1[track].last(), tags.1[track].last()),
        marked(tags, track, name, from, to).0 == tags.0,
{
}

/// Taking over another buffer's complete tags leaves the stack of a track
/// that has open ranges as long as it was.
pub proof fn lemma_absorb_all_stack(tags: TagState, tracks: Seq<TrackModel>, offset: int, track: Seq<u8>)
    requires
        tags.1.contains_key(track),
        tags.1[track].len() > 0,
    ensures
        absorb_all(tags, tracks, offset).1.contains_key(track),
        absorb_all(tags, tracks, offset).1[track].len() == tags.1[track].len(),
    decreases tracks.len(),
{
    if tracks.len() > 0 {
        lemma_absorb_all_stack(tags, tracks.drop_last(), offset, track);
    }
}

/// Whether ranges `a` and `b` differ at most in their children.
pub open spec fn same_but_children(a: RangeModel, b: RangeModel) -> bool {
    a.start == b.start && a.end == b.end && a.depth == b.depth && a.name == b.name
}

/// Every root range of every track of `map` is as `root_ok` says.
pub open spec fn roots_ok(map: Map<Seq<u8>, Seq<RangeModel>>, len: int) -> bool {
    forall|k: Seq<u8>, j: int| map.contains_key(k) && 0 <= j < map[k].len() ==> root_ok(#[trigger] map[k][j], len)
}

/// Every open range of every track of `map` is as `open_ok` says.
pub open spec fn stacks_ok(map: Map<Seq<u8>, Seq<RangeModel>>, len: int) -> bool {
    forall|k: Seq<u8>, j: int| map.contains_key(k) && 0 <= j < map[k].len() ==> open_ok(#[trigger] map[k][j], j, len)
}

/// In-memory output buffer supporting multiple overlapping hierarchical
/// markup tracks: on each track, named ranges of the output nest into trees.
///
/// Can be concatenated with other `OutputBuffer`s while preserving tags.
#[derive(Debug, Default, Clone)]
pub struct OutputBuffer {
    /// the actual data
    bytes: Vec<u8>,
    /// tracks of complete tags, by increasing name
    tag_tracks: Vec<TagTrack>,
    /// tracks of stacks of incomplete tags, by increasing name
    tag_stacks: Vec<TagTrack>,
}

impl OutputBuffer {
    /// The bytes written so far.
    pub closed spec fn content(&self) -> Seq<u8> {
        self.bytes@
    }

    /// The complete root ranges of each track.
    pub closed spec fn complete(&self) -> Map<Seq<u8>, Seq<RangeModel>> {
        track_map(track_models(self.tag_tracks@))
    }

    /// The stack of open ranges of each track, the innermost last.
    pub closed spec fn open_tags(&self) -> Map<Seq<u8>, Seq<RangeModel>> {
        track_map(track_models(self.tag_stacks@))
    }

    /// The buffer's invariant: each track is listed once; complete roots
    /// have no ancestors; every range lies within what was written; open
    /// ranges have not ended and know their place in the stack.
    pub closed spec fn wf(&self) -> bool {
        &&& names_increasing(track_models(self.tag_tracks@))
        &&& names_increasing(track_models(self.tag_stacks@))
        &&& roots_ok(self.complete(), self.bytes@.len() as int)
        &&& stacks_ok(self.open_tags(), self.bytes@.len() as int)
    }

    /// An empty buffer without tags.
    pub fn new() -> (buffer: Self)
        ensures
            buffer.wf(),
            buffer.content() == Seq::<u8>::empty(),
            buffer.complete() == Map::<Seq<u8>, Seq<RangeModel>>::empty(),
            buffer.open_tags() == Map::<Seq<u8>, Seq<RangeModel>>::empty(),
    {
        let buffer = OutputBuffer { bytes: Vec::new(), tag_tracks: Vec::new(), tag_stacks: Vec::new() };
        assert(track_models(buffer.tag_tracks@) =~= Seq::<TrackModel>::empty());
        assert(track_models(buffer.tag_stacks@) =~= Seq::<TrackModel>::empty());
        buffer
    }

    /// The bytes written, without the tags.
    pub fn into_bytes(self) -> (bytes: Vec<u8>)
        ensures
            bytes@ == self.content(),
    {
        self.bytes
    }

    /// The bytes written so far.
    pub fn as_slice(&self) -> (bytes: &[u8])
        ensures
            bytes@ == self.content(),
    {
        self.bytes.as_slice()
    }

    /// The number of bytes written, which is where the next byte goes.
    pub fn offset(&self) -> (offset: usize)
        ensures
            offset == self.content().len(),
    {
        self.bytes.len()
    }

    /// The number of bytes written.
    pub fn len(&self) -> (len: usize)
        ensures
            len == self.content().len(),
    {
        self.bytes.len()
    }

    /// The invariant still holds once more bytes are written.
    proof fn lemma_wf_grows(old_buffer: &Self, new_buffer: &Self)
        requires
            old_buffer.wf(),
            new_buffer.tag_tracks == old_buffer.tag_tracks,
            new_buffer.tag_stacks == old_buffer.tag_stacks,
            old_buffer.bytes@.len() <= new_buffer.bytes@.len(),
        ensures
            new_buffer.wf(),
    {
        let (complete, open) = (new_buffer.complete(), new_buffer.open_tags());
        let (len, longer) = (old_buffer.bytes@.len() as int, new_buffer.bytes@.len() as int);
        assert forall|k: Seq<u8>, j: int| complete.contains_key(k) && 0 <= j < complete[k].len() implies root_ok(
            #[trigger] complete[k][j],
            longer,
        ) by {
            lemma_within_grows(complete[k][j], len, longer);
        }
        assert forall|k: Seq<u8>, j: int| open.contains_key(k) && 0 <= j < open[k].len() implies open_ok(
            #[trigger] open[k][j],
            j,
            longer,
        ) by {
            let range = open[k][j];
            assert(open_ok(range, j, len));
            assert forall|c: int| 0 <= c < range.children.len() implies within(#[trigger] range.children[c], longer) by {
                lemma_within_grows(range.children[c], len, longer);
            }
        }
    }

    /// Writes one byte.
    pub fn push(&mut self, byte: u8)
        requires
            old(self).wf(),
        ensures
            final(self).wf(),
            final(self).content() == old(self).content().push(byte),
            final(self).complete() == old(self).complete(),
            final(self).open_tags() == old(self).open_tags(),
    {
        let ghost before = *self;
        self.bytes.push(byte);
        proof {
            Self::lemma_wf_grows(&before, self);
        }
    }

    /// Writes `data`.
    pub fn extend(&mut self, data: &[u8])
        requires
            old(self).wf(),
        ensures
            final(self).wf(),
            final(self).content() == old(self).content() + data@,
            final(self).complete() == old(self).complete(),
            final(self).open_tags() == old(self).open_tags(),
    {
        let ghost before = *self;
        let mut i: usize = 0;
        while i < data.len()
            invariant
                i <= data@.len(),
                self.bytes@ == before.bytes@ + data@.take(i as int),
                self.tag_tracks == before.tag_tracks,
                self.tag_stacks == before.tag_stacks,
            decreases data@.len() - i,
        {
            self.bytes.push(data[i]);
            assert(data@.take(i + 1) =~= data@.take(i as int).push(data@[i as int]));
            i = i + 1;
        }
        assert(data@.take(i as int) =~= data@);
        proof {
            Self::lemma_wf_grows(&before, self);
        }
    }

    /// Opens a range named `tag` on `track` at the current offset, nested in
    /// the track's innermost open range if it has one.
    pub fn start(&mut self, track: &str, tag: &str)
        requires
            old(self).wf(),
        ensures
            final(self).wf(),
            final(self).content() == old(self).content(),
            (final(self).complete(), final(self).open_tags()) == started(
                (old(self).complete(), old(self).open_tags()),
                encode_utf8(track@),
                encode_utf8(tag@),
                old(self).content().len() as int,
            ),
    {
        let ghost before = *self;
        let track = track.to_owned();
        let start = self.bytes.len();
        let i = track_entry(&mut self.tag_stacks, &track);
        let depth = self.tag_stacks[i].tags.len();
        proof {
            lemma_models(self.tag_stacks@[i as int].tags@);
        }
        let range = TaggedRange::new(start, depth, tag.to_owned());
        push_tag(&mut self.tag_stacks, i, range);
        proof {
            let open = self.open_tags();
            let len = self.bytes@.len() as int;
            assert forall|k: Seq<u8>, j: int| open.contains_key(k) && 0 <= j < open[k].len() implies open_ok(
                #[trigger] open[k][j],
                j,
                len,
            ) by {
                if k == encode_utf8(track@) && j == open[k].len() - 1 {
                    assert(open[k][j] == range.model());
                } else {
                    assert(open[k][j] == before.open_tags()[k][j]);
                }
            }
        }
    }

    /// Ends the innermost open range of `track` at the current offset. It
    /// becomes the last child of the next open range of the track, if there
    /// is one, or else the track's last complete root. The range is found by
    /// its track alone: `tag` is not compared with its name.
    pub fn end(&mut self, track: &str, tag: &str)
        requires
            old(self).wf(),
            old(self).open_tags().contains_key(encode_utf8(track@)),
            old(self).open_tags()[encode_utf8(track@)].len() > 0,
        ensures
            final(self).wf(),
            final(self).content() == old(self).content(),
            (final(self).complete(), final(self).open_tags()) == closed(
                (old(self).complete(), old(self).open_tags()),
                encode_utf8(track@),
                old(self).content().len() as int,
            ),
    {
        let ghost before = *self;
        let ghost key = encode_utf8(track@);
        let track = track.to_owned();
        let end = self.bytes.len();
        let ghost stacks = track_models(self.tag_stacks@);
        let (found, i) = find_track(&self.tag_stacks, name_bytes(&track));
        proof {
            lemma_track_map(stacks);
            if !found {
                let j = choose|j: int| 0 <= j < stacks.len() && stacks[j].0 == key;
                if j < i {
                    assert(lex_lt(stacks[j].0, key));
                } else {
                    assert(lex_lt(key, stacks[j].0));
                }
            }
            assert(stacks[i as int].0 == key);
            assert(stacks[i as int].1 == before.open_tags()[key]);
        }
        let mut entry = self.tag_stacks.remove(i);
        let ghost old_tags = entry.tags@;
        proof {
            lemma_models(old_tags);
        }
        let mut range = entry.tags.pop().unwrap();
        range.end = end;
        proof {
            assert(entry.tags@ =~= old_tags.drop_last());
            assert(range.model() == ended(models(old_tags).last(), end as int));
        }
        if entry.tags.len() > 0 {
            let last = entry.tags.len() - 1;
            let mut parent = entry.tags.remove(last);
            let ghost parent_before = parent;
            proof {
                lemma_models_push(parent.children@, range);
            }
            parent.children.push(range);
            proof {
                assert(parent.model() == with_child(parent_before.model(), range.model()));
                lemma_models_push(entry.tags@, parent);
                assert(entry.tags@.push(parent) =~= old_tags.drop_last().update(last as int, parent));
                lemma_models(old_tags.drop_last());
                lemma_models(old_tags.drop_last().update(last as int, parent));
                assert(models(old_tags.drop_last().update(last as int, parent)) =~= models(
                    old_tags.drop_last(),
                ).update(last as int, parent.model()));
            }
            entry.tags.push(parent);
            self.tag_stacks.insert(i, entry);
            proof {
                let rest = models(old_tags).drop_last();
                assert(models(old_tags.drop_last()) == rest);
                assert(track_models(self.tag_stacks@) =~= stacks.update(
                    i as int,
                    (key, rest.update(rest.len() - 1, with_child(rest.last(), range.model()))),
                ));
                lemma_track_map_update(stacks, i as int, rest.update(rest.len() - 1, with_child(rest.last(), range.model())));
            }
        } else {
            self.tag_stacks.insert(i, entry);
            proof {
                assert(models(entry.tags@) =~= Seq::<RangeModel>::empty());
                assert(models(old_tags).drop_last() =~= models(old_tags.drop_last()));
                assert(entry.tags@ =~= old_tags.drop_last());
                assert(track_models(self.tag_stacks@) =~= stacks.update(i as int, (key, models(old_tags).drop_last())));
                lemma_track_map_update(stacks, i as int, models(old_tags).drop_last());
            }
            let j = track_entry(&mut self.tag_tracks, &track);
            push_tag(&mut self.tag_tracks, j, range);
        }
        proof {
            let len = self.bytes@.len() as int;
            let open = self.open_tags();
            let complete = self.complete();
            assert forall|k: Seq<u8>, j: int| open.contains_key(k) && 0 <= j < open[k].len() implies open_ok(
                #[trigger] open[k][j],
                j,
                len,
            ) by {
                if k == key && j == open[k].len() - 1 && open[k].len() == before.open_tags()[key].len() - 1 {
                    let parent = before.open_tags()[key][j];
                    assert(open_ok(parent, j, len));
                    assert forall|c: int| 0 <= c < open[k][j].children.len() implies within(
                        #[trigger] open[k][j].children[c],
                        len,
                    ) by {
                        if c < parent.children.len() {
                            assert(open[k][j].children[c] == parent.children[c]);
                        }
                    }
                } else {
                    assert(open[k][j] == before.open_tags()[k][j]);
                }
            }
            assert forall|k: Seq<u8>, j: int| complete.contains_key(k) && 0 <= j < complete[k].len() implies root_ok(
                #[trigger] complete[k][j],
                len,
            ) by {
                if k == key && before.open_tags()[key].len() == 1 && j == complete[k].len() - 1 {
                    let opened = before.open_tags()[key][0];
                    assert(open_ok(opened, 0, len));
                    assert(complete[k][j] == ended(opened, len));
                } else {
                    assert(complete[k][j] == before.complete()[k][j]);
                }
            }
        }
    }

    /// The complete roots of each track, the tracks by increasing name.
    pub closed spec fn complete_list(&self) -> Seq<TrackModel> {
        track_models(self.tag_tracks@)
    }

    /// Concatenates the contents of other onto self.
    /// Closed tags are copied over, nested under the current tag if one is open
    /// on the corresponding track, and with their offsets adjusted
    /// appropriately. Unclosed tags are silently discarded.
    pub fn concat(&mut self, other: &Self)
        requires
            old(self).wf(),
            other.wf(),
            old(self).content().len() + other.content().len() <= usize::MAX,
            depths_fit(old(self).open_tags(), other.complete()),
        ensures
            final(self).wf(),
            final(self).content() == old(self).content() + other.content(),
            (final(self).complete(), final(self).open_tags()) == absorb_all(
                (old(self).complete(), old(self).open_tags()),
                other.complete_list(),
                old(self).content().len() as int,
            ),
    {
        let ghost start = *self;
        let offset = self.bytes.len();
        self.extend(other.bytes.as_slice());
        let ghost others = track_models(other.tag_tracks@);
        let ghost len = self.bytes@.len() as int;
        proof {
            lemma_track_map(others);
        }
        let mut t: usize = 0;
        while t < other.tag_tracks.len()
            invariant
                self.wf(),
                self.bytes@ == start.bytes@ + other.bytes@,
                len == self.bytes@.len(),
                offset == start.bytes@.len(),
                offset + other.bytes@.len() <= usize::MAX,
                other.wf(),
                depths_fit(start.open_tags(), other.complete()),
                others == track_models(other.tag_tracks@),
                t <= others.len(),
                forall|i: int|
                    0 <= i < others.len() ==> #[trigger] other.complete().contains_key(others[i].0)
                        && other.complete()[others[i].0] == others[i].1,
                (self.complete(), self.open_tags()) == absorb_all(
                    (start.complete(), start.open_tags()),
                    others.take(t as int),
                    offset as int,
                ),
            decreases others.len() - t,
        {
            let ghost before = *self;
            let ghost name = others[t as int].0;
            let ghost roots = others[t as int].1;
            let name_string = &other.tag_tracks[t].track;
            let ti = track_entry(&mut self.tag_tracks, name_string);
            let si = track_entry(&mut self.tag_stacks, name_string);
            let depth = self.tag_stacks[si].tags.len();
            let ghost mid = *self;
            let ghost mid_stacks = track_models(self.tag_stacks@);
            let ghost mid_tracks = track_models(self.tag_tracks@);
            proof {
                lemma_models(self.tag_stacks@[si as int].tags@);
                lemma_models(other.tag_tracks@[t as int].tags@);
                let src = other.tag_tracks@[t as int].tags@;
                assert(other.complete().contains_key(others[t as int].0));
                assert(others[t as int] == track_model(other.tag_tracks@[t as int]));
                assert(other.complete()[name] == models(src));
                assert(roots_ok(other.complete(), other.bytes@.len() as int));
                lemma_absorb_all_lens((start.complete(), start.open_tags()), others.take(t as int), offset as int, name);
                assert(depth == tags_of(start.open_tags(), name).len());
                assert forall|i: int| 0 <= i < src.len() implies within(#[trigger] src[i].model(), usize::MAX - offset)
                    && depth_room(src[i].model(), usize::MAX - depth) by {
                    assert(root_ok(other.complete()[name][i], other.bytes@.len() as int));
                    assert(models(src)[i] == src[i].model());
                    lemma_within_grows(src[i].model(), other.bytes@.len() as int, usize::MAX - offset);
                    assert(depth_room(other.complete()[name][i], usize::MAX - tags_of(start.open_tags(), name).len()));
                }
            }
            let copies = moved_tags(&other.tag_tracks[t].tags, offset, depth);
            let ghost copied = models(copies@);
            proof {
                assert(copied == moved(roots, offset as int, depth as int));
                assert forall|i: int| 0 <= i < copied.len() implies within(#[trigger] copied[i], len) by {
                    let root = roots[i];
                    assert(root_ok(other.complete()[name][i], other.bytes@.len() as int));
                    lemma_shifted_within(root, other.bytes@.len() as int, offset as int, depth as int, len);
                }
            }
            if depth > 0 {
                let mut entry = self.tag_stacks.remove(si);
                let ghost stack_tags = entry.tags@;
                let last = depth - 1;
                let mut parent = entry.tags.remove(last);
                let ghost parent_before = parent;
                let mut copies = copies;
                proof {
                    lemma_models_concat(parent.children@, copies@);
                }
                parent.children.append(&mut copies);
                proof {
                    assert(entry.tags@.insert(last as int, parent) =~= stack_tags.update(last as int, parent));
                    lemma_models(stack_tags.update(last as int, parent));
                    assert(models(stack_tags.update(last as int, parent)) =~= models(stack_tags).update(
                        last as int,
                        parent.model(),
                    ));
                }
                entry.tags.insert(last, parent);
                self.tag_stacks.insert(si, entry);
                proof {
                    let new_tags = models(stack_tags).update(last as int, parent.model());
                    assert(entry.tags@ == stack_tags.update(last as int, parent));
                    assert(track_models(self.tag_stacks@) =~= mid_stacks.update(si as int, (name, new_tags)));
                    lemma_track_map_update(mid_stacks, si as int, new_tags);
                    let stack = models(stack_tags);
                    assert(stack.last() == parent_before.model());
                    assert(parent.model() == RangeModel { children: stack.last().children + copied, ..stack.last() });
                    assert(self.complete() == mid.complete());
                    let len = self.bytes@.len() as int;
                    let open = self.open_tags();
                    assert forall|k: Seq<u8>, j: int| open.contains_key(k) && 0 <= j < open[k].len() implies open_ok(
                        #[trigger] open[k][j],
                        j,
                        len,
                    ) by {
                        if k == name && j == last {
                            assert(open_ok(mid.open_tags()[name][j], j, len));
                            let kids = open[k][j].children;
                            assert forall|c: int| 0 <= c < kids.len() implies within(#[trigger] kids[c], len) by {
                                if c < stack.last().children.len() {
                                    assert(kids[c] == stack.last().children[c]);
                                } else {
                                    assert(kids[c] == copied[c - stack.last().children.len()]);
                                }
                            }
                        } else {
                            assert(open[k][j] == mid.open_tags()[k][j]);
                        }
                    }
                }
            } else {
                append_tags(&mut self.tag_tracks, ti, copies);
                proof {
                    assert(self.open_tags() == mid.open_tags());
                    let len = self.bytes@.len() as int;
                    let complete = self.complete();
                    assert forall|k: Seq<u8>, j: int| complete.contains_key(k) && 0 <= j < complete[k].len() implies root_ok(
                        #[trigger] complete[k][j],
                        len,
                    ) by {
                        let before_len = mid.complete()[name].len();
                        if k == name && j >= before_len {
                            assert(complete[k][j] == copied[j - before_len]);
                            assert(root_ok(other.complete()[name][j - before_len], other.bytes@.len() as int));
                        } else {
                            assert(complete[k][j] == mid.complete()[k][j]);
                        }
                    }
                }
            }
            proof {
                assert(others.take(t + 1).drop_last() =~= others.take(t as int));
                assert(others.take(t + 1).last() == others[t as int]);
            }
            t = t + 1;
        }
        proof {
            assert(others.take(t as int) =~= others);
        }
    }

    /// The names of the tracks that have been given complete tags, by
    /// increasing name.
    pub fn tracks(&self) -> (names: Vec<String>)
        ensures
            names@.map_values(|n: String| encode_utf8(n@)) == self.complete_list().map_values(|t: TrackModel| t.0),
    {
        let mut names: Vec<String> = Vec::new();
        let mut i: usize = 0;
        while i < self.tag_tracks.len()
            invariant
                i <= self.tag_tracks@.len(),
                names@.map_values(|n: String| encode_utf8(n@)) == self.complete_list().map_values(|t: TrackModel| t.0).take(
                    i as int,
                ),
            decreases self.tag_tracks@.len() - i,
        {
            let name = self.tag_tracks[i].track.clone();
            proof {
                let all = self.complete_list().map_values(|t: TrackModel| t.0);
                assert(all.take(i + 1) =~= all.take(i as int).push(all[i as int]));
                assert(names@.push(name).map_values(|n: String| encode_utf8(n@)) =~= names@.map_values(
                    |n: String| encode_utf8(n@),
                ).push(encode_utf8(name@)));
            }
            names.push(name);
            i = i + 1;
        }
        proof {
            let all = self.complete_list().map_values(|t: TrackModel| t.0);
            assert(all.take(i as int) =~= all);
        }
        names
    }

    /// The complete root ranges of `track`, or `None` where it has none.
    pub fn root_tags(&self, track: &str) -> (roots: Option<&[TaggedRange]>)
        requires
            self.wf(),
        ensures
            match roots {
                Some(roots) => {
                    &&& self.complete().contains_key(encode_utf8(track@))
                    &&& models(roots@) == self.complete()[encode_utf8(track@)]
                    &&& roots@.len() > 0
                },
                None => tags_of(self.complete(), encode_utf8(track@)).len() == 0,
            },
    {
        let ghost key = encode_utf8(track@);
        let ghost list = track_models(self.tag_tracks@);
        let (found, i) = find_track(&self.tag_tracks, track.as_bytes());
        proof {
            lemma_track_map(list);
        }
        if found && self.tag_tracks[i].tags.len() > 0 {
            proof {
                lemma_models(self.tag_tracks@[i as int].tags@);
            }
            Some(self.tag_tracks[i].tags.as_slice())
        } else {
            proof {
                if found {
                    lemma_models(self.tag_tracks@[i as int].tags@);
                } else if self.complete().contains_key(key) {
                    let j = choose|j: int| 0 <= j < list.len() && list[j].0 == key;
                    if j < i {
                        assert(lex_lt(list[j].0, key));
                    } else {
                        assert(lex_lt(key, list[j].0));
                    }
                }
            }
            None
        }
    }
}

/// Every complete range of a well-formed buffer, and every range nested in
/// it, lies within the bytes written, and complete roots have no ancestors.
pub proof fn law_complete_tags_within(buffer: &OutputBuffer)
    requires
        buffer.wf(),
    ensures
        forall|k: Seq<u8>, j: int|
            buffer.complete().contains_key(k) && 0 <= j < buffer.complete()[k].len() ==> {
                &&& (#[trigger] buffer.complete()[k][j]).depth == 0
                &&& within(buffer.complete()[k][j], buffer.content().len() as int)
            },
{
    assert(roots_ok(buffer.complete(), buffer.content().len() as int));
}

/// Concatenating a buffer onto an empty one keeps its complete tags as they
/// are, and leaves every one of its tracks with no open tags.
pub proof fn law_concat_onto_empty(other: &OutputBuffer)
    requires
        other.wf(),
    ensures
        absorb_all((Map::empty(), Map::empty()), other.complete_list(), 0).0 == other.complete(),
        forall|k: Seq<u8>|
            #[trigger] absorb_all((Map::empty(), Map::empty()), other.complete_list(), 0).1.contains_key(k) ==> absorb_all(
                (Map::empty(), Map::empty()),
                other.complete_list(),
                0,
            ).1[k].len() == 0,
{
    let list = other.complete_list();
    lemma_absorb_onto_empty(list, list.len() as int);
    assert(list.take(list.len() as int) =~= list);
}

/// `law_concat_onto_empty` for the first `n` tracks.
proof fn lemma_absorb_onto_empty(list: Seq<TrackModel>, n: int)
    requires
        names_increasing(list),
        0 <= n <= list.len(),
    ensures
        absorb_all((Map::empty(), Map::empty()), list.take(n), 0).0 == track_map(list.take(n)),
        absorb_all((Map::empty(), Map::empty()), list.take(n), 0).1.dom() == track_map(list.take(n)).dom(),
        forall|k: Seq<u8>|
            #[trigger] absorb_all((Map::empty(), Map::empty()), list.take(n), 0).1.contains_key(k) ==> absorb_all(
                (Map::empty(), Map::empty()),
                list.take(n),
                0,
            ).1[k].len() == 0,
    decreases n,
{
    let empty = (Map::<Seq<u8>, Seq<RangeModel>>::empty(), Map::<Seq<u8>, Seq<RangeModel>>::empty());
    if n == 0 {
        assert(list.take(0) =~= Seq::<TrackModel>::empty());
        assert(track_map(list.take(0)).dom() =~= Set::<Seq<u8>>::empty());
    } else {
        lemma_absorb_onto_empty(list, n - 1);
        let prefix = list.take(n);
        assert(prefix.drop_last() =~= list.take(n - 1));
        let before = absorb_all(empty, list.take(n - 1), 0);
        let (name, roots) = (list[n - 1].0, list[n - 1].1);
        assert(prefix.last() == list[n - 1]);
        assert(names_increasing(list.take(n - 1)));
        lemma_track_map(list.take(n - 1));
        assert(!track_map(list.take(n - 1)).contains_key(name)) by {
            let start = list.take(n - 1);
            if track_map(start).contains_key(name) {
                let j = choose|j: int| 0 <= j < start.len() && start[j].0 == name;
                assert(start[j] == list[j]);
                assert(lex_lt(list[j].0, list[n - 1].0));
            }
        }
        assert(!before.1.contains_key(name));
        assert forall|i: int| 0 <= i < roots.len() implies moved(roots, 0, 0)[i] == roots[i] by {
            lemma_shifted_zero(roots[i]);
        }
        assert(moved(roots, 0, 0) =~= roots);
        let after = absorb(before, name, roots, 0);
        assert(after.0 =~= track_map(list.take(n - 1)).insert(name, roots));
        assert(after.1.dom() =~= track_map(prefix).dom());
    }
}

impl crate::io::Offset for OutputBuffer {
    /// Bytes are appended at the end, so the position is the length.
    open spec fn position(&self) -> nat {
        self.content().len()
    }

    fn offset(&mut self) -> (offset: usize) {
        OutputBuffer::offset(self)
    }

    fn len(&mut self) -> (len: usize) {
        OutputBuffer::len(self)
    }
}

/// An empty output buffer.
pub fn output_buffer() -> (buffer: OutputBuffer)
    ensures
        buffer.wf(),
        buffer.content() == Seq::<u8>::empty(),
        buffer.complete() == Map::<Seq<u8>, Seq<RangeModel>>::empty(),
        buffer.open_tags() == Map::<Seq<u8>, Seq<RangeModel>>::empty(),
{
    OutputBuffer::new()
}


/// One end of a tagged range, as met when walking through an output: where
/// it is, how deep the range is, whether it closes the range, and the
/// range's track and name.
#[derive(Debug, Clone, PartialEq, Eq)]
pub struct OutputBufferWalkEntry {
    index: usize,
    depth: usize,
    is_closing: bool,
    track: String,
    tag: String,
}

/// An end of a tagged range as mathematical values; names as UTF-8 bytes.
pub struct WalkModel {
    pub index: int,
    pub depth: int,
    pub is_closing: bool,
    pub track: Seq<u8>,
    pub tag: Seq<u8>,
}

impl OutputBufferWalkEntry {
    /// This entry as mathematical values.
    pub closed spec fn model(&self) -> WalkModel {
        WalkModel {
            index: self.index as int,
            depth: self.depth as int,
            is_closing: self.is_closing,
            track: encode_utf8(self.track@),
            tag: encode_utf8(self.tag@),
        }
    }
}

/// Each entry of `entries` as mathematical values.
pub open spec fn walk_models(entries: Seq<OutputBufferWalkEntry>) -> Seq<WalkModel> {
    entries.map_values(|e: OutputBufferWalkEntry| e.model())
}

/// The order in which range ends are walked: by index; at the same index
/// closing ends first; then opening ends from the outermost in and closing
/// ends from the innermost out; then by track and by name.
pub open spec fn walk_le(a: WalkModel, b: WalkModel) -> bool {
    ||| a.index < b.index
    ||| a.index == b.index && a.is_closing && !b.is_closing
    ||| a.index == b.index && a.is_closing == b.is_closing && (if a.is_closing {
        a.depth > b.depth
    } else {
        a.depth < b.depth
    })
    ||| a.index == b.index && a.is_closing == b.is_closing && a.depth == b.depth && (lex_lt(a.track, b.track) || (
    a.track == b.track && lex_le(a.tag, b.tag)))
}

/// `walk_le` as a relation.
pub open spec fn walk_order() -> spec_fn(WalkModel, WalkModel) -> bool {
    |a: WalkModel, b: WalkModel| walk_le(a, b)
}

/// The walking order is a total order.
pub proof fn lemma_walk_order()
    ensures
        total_ordering(walk_order()),
{
    assert forall|a: WalkModel, b: WalkModel, c: WalkModel| #![trigger walk_le(a, b), walk_le(b, c)]
        (walk_le(a, a)) && (walk_le(a, b) || walk_le(b, a)) && (walk_le(a, b) && walk_le(b, a) ==> a == b)
            && (walk_le(a, b) && walk_le(b, c) ==> walk_le(a, c)) by {
        lemma_walk_le(a, b, c);
    }
    assert forall|a: WalkModel| #[trigger] walk_le(a, a) by {
        lemma_walk_le(a, a, a);
    }
}

/// The facts behind `lemma_walk_order`, for three given ends.
pub proof fn lemma_walk_le(a: WalkModel, b: WalkModel, c: WalkModel)
    ensures
        walk_le(a, a),
        walk_le(a, b) || walk_le(b, a),
        walk_le(a, b) && walk_le(b, a) ==> a == b,
        walk_le(a, b) && walk_le(b, c) ==> walk_le(a, c),
{
    lemma_lex_total(a.tag, a.tag);
    lemma_lex_total(a.track, b.track);
    lemma_lex_total(a.tag, b.tag);
    if lex_le(a.track, b.track) && lex_le(b.track, a.track) {
        lemma_lex_antisymmetric(a.track, b.track);
    }
    if lex_le(a.tag, b.tag) && lex_le(b.tag, a.tag) {
        lemma_lex_antisymmetric(a.tag, b.tag);
    }
    if lex_lt(a.track, b.track) && lex_lt(b.track, c.track) {
        lemma_lex_order_chain(a.track, b.track, c.track);
    }
    if lex_le(a.tag, b.tag) && lex_le(b.tag, c.tag) {
        lemma_lex_transitive(a.tag, b.tag, c.tag);
    }
}

/// The opening and the closing end of `range` on `track`.
pub open spec fn range_ends(track: Seq<u8>, range: RangeModel) -> Seq<WalkModel> {
    seq![
        WalkModel { index: range.start, depth: range.depth, is_closing: false, track, tag: range.name },
        WalkModel { index: range.end, depth: range.depth, is_closing: true, track, tag: range.name },
    ]
}

/// The ends of each of `ranges` on `track`, one range after the other.
pub open spec fn ends_of(track: Seq<u8>, ranges: Seq<RangeModel>) -> Seq<WalkModel>
    decreases ranges.len(),
{
    if ranges.len() == 0 {
        Seq::empty()
    } else {
        ends_of(track, ranges.drop_last()) + range_ends(track, ranges.last())
    }
}

/// The ends of every complete range of `track`, nested ones included.
pub open spec fn track_ends(complete: Map<Seq<u8>, Seq<RangeModel>>, track: Seq<u8>) -> Seq<WalkModel> {
    ends_of(track, flatten_all(tags_of(complete, track)))
}

/// `ends_of` a concatenation.
pub proof fn lemma_ends_of_concat(track: Seq<u8>, a: Seq<RangeModel>, b: Seq<RangeModel>)
    ensures
        ends_of(track, a + b) == ends_of(track, a) + ends_of(track, b),
    decreases b.len(),
{
    if b.len() == 0 {
        assert(a + b =~= a);
        assert(ends_of(track, a) + ends_of(track, b) =~= ends_of(track, a));
    } else {
        lemma_ends_of_concat(track, a, b.drop_last());
        assert((a + b).drop_last() =~= a + b.drop_last());
        assert(ends_of(track, a) + ends_of(track, b) =~= ends_of(track, a) + ends_of(track, b.drop_last())
            + range_ends(track, b.last()));
    }
}

/// Adds the opening and the closing end of `range` on `track`.
fn push_ends(entries: &mut Vec<OutputBufferWalkEntry>, track: &String, range: &TaggedRange)
    ensures
        walk_models(final(entries)@) == walk_models(old(entries)@) + range_ends(encode_utf8(track@), range.model()),
{
    let ghost before = walk_models(entries@);
    let opening = OutputBufferWalkEntry {
        index: range.start,
        depth: range.depth,
        is_closing: false,
        track: track.clone(),
        tag: range.name.clone(),
    };
    let closing = OutputBufferWalkEntry {
        index: range.end,
        depth: range.depth,
        is_closing: true,
        track: track.clone(),
        tag: range.name.clone(),
    };
    entries.push(opening);
    entries.push(closing);
    assert(walk_models(entries@) =~= before + range_ends(encode_utf8(track@), range.model()));
}

/// Adds the ends of every range of `roots` on `track`, nested ones
/// included, in order.
fn collect_ends(entries: &mut Vec<OutputBufferWalkEntry>, track: &String, roots: &Vec<TaggedRange>)
    ensures
        walk_models(final(entries)@) == walk_models(old(entries)@) + ends_of(
            encode_utf8(track@),
            flatten_all(models(roots@)),
        ),
{
    let ghost key = encode_utf8(track@);
    let ghost start = walk_models(entries@);
    let ghost ms = models(roots@);
    proof {
        lemma_models(roots@);
        assert(flatten_all(ms.take(0)) =~= Seq::<RangeModel>::empty());
        assert(start + ends_of(key, flatten_all(ms.take(0))) =~= start);
    }
    let mut r: usize = 0;
    while r < roots.len()
        invariant
            r <= roots@.len(),
            ms == models(roots@),
            ms.len() == roots@.len(),
            forall|k: int| 0 <= k < roots@.len() ==> #[trigger] ms[k] == roots@[k].model(),
            key == encode_utf8(track@),
            walk_models(entries@) == start + ends_of(key, flatten_all(ms.take(r as int))),
        decreases roots@.len() - r,
    {
        let items = roots[r].iter();
        let ghost flat = models(items@.map_values(|x: &TaggedRange| *x));
        let ghost done = walk_models(entries@);
        proof {
            lemma_models(items@.map_values(|x: &TaggedRange| *x));
            assert(flat.take(0) =~= Seq::<RangeModel>::empty());
            assert(done + ends_of(key, flat.take(0)) =~= done);
        }
        let mut j: usize = 0;
        while j < items.len()
            invariant
                j <= items@.len(),
                flat == models(items@.map_values(|x: &TaggedRange| *x)),
                flat.len() == items@.len(),
                forall|k: int| 0 <= k < items@.len() ==> #[trigger] flat[k] == (*items@[k]).model(),
                key == encode_utf8(track@),
                walk_models(entries@) == done + ends_of(key, flat.take(j as int)),
            decreases items@.len() - j,
        {
            push_ends(entries, track, items[j]);
            proof {
                assert(flat.take(j + 1).drop_last() =~= flat.take(j as int));
                assert(flat[j as int] == (*items@[j as int]).model());
            }
            j = j + 1;
        }
        proof {
            assert(flat.take(j as int) =~= flat);
            assert(flat == flatten(ms[r as int]));
            lemma_flatten_all_push(ms.take(r as int), ms[r as int]);
            assert(ms.take(r + 1) =~= ms.take(r as int).push(ms[r as int]));
            lemma_ends_of_concat(key, flatten_all(ms.take(r as int)), flatten(ms[r as int]));
        }
        r = r + 1;
    }
    proof {
        assert(ms.take(r as int) =~= ms);
    }
}

/// Whether `a` is walked before or with `b`.
fn walk_le_exec(a: &OutputBufferWalkEntry, b: &OutputBufferWalkEntry) -> (result: bool)
    ensures
        result == walk_le(a.model(), b.model()),
{
    if a.index != b.index {
        return a.index < b.index;
    }
    if a.is_closing != b.is_closing {
        return a.is_closing;
    }
    if a.depth != b.depth {
        return if a.is_closing {
            a.depth > b.depth
        } else {
            a.depth < b.depth
        };
    }
    let (at, bt) = (name_bytes(&a.track), name_bytes(&b.track));
    bytes_lt(at, bt) || (bytes_eq(at, bt) && bytes_le(name_bytes(&a.tag), name_bytes(&b.tag)))
}

/// `entries` in walking order.
fn sort_walk(entries: Vec<OutputBufferWalkEntry>) -> (sorted: Vec<OutputBufferWalkEntry>)
    ensures
        walk_models(sorted@) == walk_models(entries@).sort_by(walk_order()),
{
    let ghost input = walk_models(entries@);
    let mut rest = entries;
    let mut sorted: Vec<OutputBufferWalkEntry> = Vec::new();
    proof {
        lemma_walk_order();
        assert(walk_models(sorted@) =~= Seq::<WalkModel>::empty());
    }
    while rest.len() > 0
        invariant
            walk_models(sorted@).to_multiset().add(walk_models(rest@).to_multiset()) == input.to_multiset(),
            sorted_by(walk_models(sorted@), walk_order()),
            total_ordering(walk_order()),
        decreases rest@.len(),
    {
        let ghost rest_before = walk_models(rest@);
        let item = rest.remove(0);
        proof {
            assert(walk_models(rest@) =~= rest_before.remove(0));
        }
        let ghost before = walk_models(sorted@);
        let mut k: usize = 0;
        while k < sorted.len() && walk_le_exec(&sorted[k], &item)
            invariant
                walk_models(sorted@) == before,
                sorted_by(before, walk_order()),
                k <= sorted@.len(),
                forall|j: int| 0 <= j < k ==> walk_le(#[trigger] before[j], item.model()),
            decreases sorted@.len() - k,
        {
            k = k + 1;
        }
        proof {
            if k < before.len() {
                assert(!walk_le(before[k as int], item.model()));
                lemma_walk_le(before[k as int], item.model(), item.model());
            }
        }
        sorted.insert(k, item);
        proof {
            let after = walk_models(sorted@);
            assert(after =~= before.insert(k as int, item.model()));
            assert forall|i: int, j: int| 0 <= i < j < after.len() implies #[trigger] walk_order()(
                after[i],
                after[j],
            ) by {
                if j < k {
                    assert(walk_order()(before[i], before[j]));
                } else if i < k && j == k {
                } else if i < k && j > k {
                    assert(walk_order()(before[i], before[j - 1]));
                } else if i == k {
                    if j - 1 > k {
                        assert(walk_order()(before[k as int], before[j - 1]));
                    }
                    lemma_walk_le(item.model(), before[k as int], before[j - 1]);
                } else {
                    assert(walk_order()(before[i - 1], before[j - 1]));
                }
            }
        }
    }
    proof {
        assert(walk_models(rest@) =~= Seq::<WalkModel>::empty());
        assert(walk_models(rest@).to_multiset() =~= vstd::multiset::Multiset::<WalkModel>::empty());
        assert(walk_models(sorted@).to_multiset() =~= input.to_multiset());
        input.lemma_sort_by_ensures(walk_order());
        vstd::seq_lib::lemma_sorted_unique(walk_models(sorted@), input.sort_by(walk_order()), walk_order());
    }
    sorted
}

impl OutputBuffer {
    /// The ends of every complete range of `track`, in walking order.
    pub fn walk_tags(&self, track: &str) -> (entries: Vec<OutputBufferWalkEntry>)
        requires
            self.wf(),
        ensures
            walk_models(entries@) == track_ends(self.complete(), encode_utf8(track@)).sort_by(walk_order()),
    {
        let ghost key = encode_utf8(track@);
        let track = track.to_owned();
        let ghost list = track_models(self.tag_tracks@);
        let (found, i) = find_track(&self.tag_tracks, name_bytes(&track));
        proof {
            lemma_track_map(list);
        }
        let mut entries: Vec<OutputBufferWalkEntry> = Vec::new();
        if found {
            proof {
                assert(walk_models(entries@) =~= Seq::<WalkModel>::empty());
            }
            collect_ends(&mut entries, &track, &self.tag_tracks[i].tags);
            proof {
                assert(list[i as int].1 == models(self.tag_tracks@[i as int].tags@));
                assert(Seq::<WalkModel>::empty() + track_ends(self.complete(), key) =~= track_ends(self.complete(), key));
            }
        } else {
            proof {
                if self.complete().contains_key(key) {
                    let j = choose|j: int| 0 <= j < list.len() && list[j].0 == key;
                    if j < i {
                        assert(lex_lt(list[j].0, key));
                    } else {
                        assert(lex_lt(key, list[j].0));
                    }
                }
                assert(flatten_all(Seq::<RangeModel>::empty()) =~= Seq::<RangeModel>::empty());
                assert(walk_models(entries@) =~= Seq::<WalkModel>::empty());
            }
        }
        sort_walk(entries)
    }
}


/// The ASCII digit or capital letter for the hexadecimal digit `digit`.
pub open spec fn hex_digit(digit: int) -> u8 {
    if digit < 10 {
        (0x30 + digit) as u8
    } else {
        (0x41 + digit - 10) as u8
    }
}

/// How `byte` is written when rendering: `<`, `>` and `&` as entities, the
/// zero byte as `&#0;`, other printable ASCII as itself, and anything else as
/// a two-digit hexadecimal character reference.
pub open spec fn escaped_byte(byte: u8) -> Seq<u8> {
    if byte == 0x3C {
        seq![0x26u8, 0x6C, 0x74, 0x3B]
    } else if byte == 0x3E {
        seq![0x26u8, 0x67, 0x74, 0x3B]
    } else if byte == 0x26 {
        seq![0x26u8, 0x61, 0x6D, 0x70, 0x3B]
    } else if byte == 0 {
        seq![0x26u8, 0x23, 0x30, 0x3B]
    } else if 0x21 <= byte <= 0x7E {
        seq![byte]
    } else {
        seq![0x26u8, 0x23, 0x78, hex_digit((byte / 16) as int), hex_digit((byte % 16) as int), 0x3B]
    }
}

/// How `bytes` are written when rendering.
pub open spec fn escaped(bytes: Seq<u8>) -> Seq<u8>
    decreases bytes.len(),
{
    if bytes.len() == 0 {
        Seq::empty()
    } else {
        escaped(bytes.drop_last()) + escaped_byte(bytes.last())
    }
}

/// `count` spaces.
pub open spec fn spaces(count: int) -> Seq<u8> {
    Seq::new(count as nat, |i: int| 0x20u8)
}

/// The markup for an end: `<track:tag>` or `</track:tag>`.
pub open spec fn tag_text(end: WalkModel) -> Seq<u8> {
    (if end.is_closing {
        seq![0x3Cu8, 0x2F]
    } else {
        seq![0x3Cu8]
    }) + end.track + seq![0x3Au8] + end.tag + seq![0x3Eu8]
}

/// A rendering in progress: the index of the first byte not yet written,
/// the number of ranges open, and the text so far.
pub type RenderState = (int, int, Seq<u8>);

/// The rendering after `end`: the bytes before it, on a line of their own
/// indented by the open ranges, then its markup on a line indented by its
/// depth.
pub open spec fn render_step(bytes: Seq<u8>, state: RenderState, end: WalkModel) -> RenderState {
    let before = bytes.subrange(state.0, end.index);
    let (index, text) = if before.len() > 0 {
        (end.index, state.2 + spaces(4 * state.1) + escaped(before) + seq![0x0Au8])
    } else {
        (state.0, state.2)
    };
    let open = if end.is_closing {
        if state.1 > 0 {
            state.1 - 1
        } else {
            0
        }
    } else {
        state.1 + 1
    };
    (index, open, text + spaces(4 * end.depth) + tag_text(end) + seq![0x0Au8])
}

/// The rendering after each of `ends` in turn.
pub open spec fn render_steps(bytes: Seq<u8>, ends: Seq<WalkModel>) -> RenderState
    decreases ends.len(),
{
    if ends.len() == 0 {
        (0, 0, Seq::empty())
    } else {
        render_step(bytes, render_steps(bytes, ends.drop_last()), ends.last())
    }
}

/// `bytes` rendered with the markup of `ends`, which are in walking order:
/// the rendering after every end, then the bytes after the last of them.
pub open spec fn rendering(bytes: Seq<u8>, ends: Seq<WalkModel>) -> Seq<u8> {
    let state = render_steps(bytes, ends);
    state.2 + escaped(bytes.subrange(state.0, bytes.len() as int))
}

/// The ends of every complete range of every track of `tracks`.
pub open spec fn all_ends(tracks: Seq<TrackModel>) -> Seq<WalkModel>
    decreases tracks.len(),
{
    if tracks.len() == 0 {
        Seq::empty()
    } else {
        all_ends(tracks.drop_last()) + ends_of(tracks.last().0, flatten_all(tracks.last().1))
    }
}

/// Whether every range of `ranges` starts and ends within `len` bytes.
pub open spec fn ends_within(ranges: Seq<RangeModel>, len: int) -> bool {
    forall|i: int| 0 <= i < ranges.len() ==> #[trigger] ranges[i].start <= len && ranges[i].end <= len
}

/// Every range nested in a range within `len` bytes starts and ends within them.
pub proof fn lemma_flatten_within(range: RangeModel, len: int)
    requires
        within(range, len),
    ensures
        ends_within(flatten(range), len),
    decreases range,
{
    lemma_flatten_all_within(range.children, len);
    let flat = flatten(range);
    assert forall|i: int| 0 <= i < flat.len() implies #[trigger] flat[i].start <= len && flat[i].end <= len by {
        if i > 0 {
            assert(flat[i] == flatten_all(range.children)[i - 1]);
        }
    }
}

/// `lemma_flatten_within` for several ranges.
pub proof fn lemma_flatten_all_within(ranges: Seq<RangeModel>, len: int)
    requires
        forall|i: int| 0 <= i < ranges.len() ==> within(#[trigger] ranges[i], len),
    ensures
        ends_within(flatten_all(ranges), len),
    decreases ranges,
{
    if ranges.len() > 0 {
        lemma_flatten_all_within(ranges.drop_last(), len);
        lemma_flatten_within(ranges.last(), len);
        let (a, b) = (flatten_all(ranges.drop_last()), flatten(ranges.last()));
        assert forall|i: int| 0 <= i < a.len() + b.len() implies #[trigger] (a + b)[i].start <= len && (a
            + b)[i].end <= len by {
            if i < a.len() {
                assert((a + b)[i] == a[i]);
            } else {
                assert((a + b)[i] == b[i - a.len()]);
            }
        }
    }
}

/// The ends of ranges within `len` bytes lie within them.
pub proof fn lemma_ends_of_within(track: Seq<u8>, ranges: Seq<RangeModel>, len: int)
    requires
        ends_within(ranges, len),
    ensures
        forall|i: int| 0 <= i < ends_of(track, ranges).len() ==> #[trigger] ends_of(track, ranges)[i].index <= len,
    decreases ranges.len(),
{
    if ranges.len() > 0 {
        let rest = ranges.drop_last();
        assert(ends_within(rest, len)) by {
            assert forall|i: int| 0 <= i < rest.len() implies #[trigger] rest[i].start <= len && rest[i].end <= len by {
                assert(rest[i] == ranges[i]);
            }
        }
        lemma_ends_of_within(track, rest, len);
        let (a, b) = (ends_of(track, rest), range_ends(track, ranges.last()));
        assert(ranges.last() == ranges[ranges.len() - 1]);
        assert forall|i: int| 0 <= i < a.len() + b.len() implies #[trigger] (a + b)[i].index <= len by {
            if i < a.len() {
                assert((a + b)[i] == a[i]);
            } else {
                assert((a + b)[i] == b[i - a.len()]);
            }
        }
    }
}

/// The digit for `digit`.
fn hex_digit_exec(digit: u8) -> (ascii: u8)
    requires
        digit < 16,
    ensures
        ascii == hex_digit(digit as int),
{
    if digit < 10 {
        0x30 + digit
    } else {
        0x41 + digit - 10
    }
}

/// Writes `byte` as a rendering writes it.
fn push_escaped_byte(out: &mut Vec<u8>, byte: u8)
    ensures
        final(out)@ == old(out)@ + escaped_byte(byte),
{
    let ghost before = out@;
    if byte == 0x3C {
        out.push(0x26);
        out.push(0x6C);
        out.push(0x74);
        out.push(0x3B);
    } else if byte == 0x3E {
        out.push(0x26);
        out.push(0x67);
        out.push(0x74);
        out.push(0x3B);
    } else if byte == 0x26 {
        out.push(0x26);
        out.push(0x61);
        out.push(0x6D);
        out.push(0x70);
        out.push(0x3B);
    } else if byte == 0 {
        out.push(0x26);
        out.push(0x23);
        out.push(0x30);
        out.push(0x3B);
    } else if 0x21 <= byte && byte <= 0x7E {
        out.push(byte);
    } else {
        out.push(0x26);
        out.push(0x23);
        out.push(0x78);
        out.push(hex_digit_exec(byte / 16));
        out.push(hex_digit_exec(byte % 16));
        out.push(0x3B);
    }
    assert(out@ =~= before + escaped_byte(byte));
}

/// Writes `bytes[from..to]` as a rendering writes them.
fn push_escaped(out: &mut Vec<u8>, bytes: &[u8], from: usize, to: usize)
    requires
        from <= to <= bytes@.len(),
    ensures
        final(out)@ == old(out)@ + escaped(bytes@.subrange(from as int, to as int)),
{
    let ghost before = out@;
    let mut i: usize = from;
    assert(bytes@.subrange(from as int, from as int) =~= Seq::<u8>::empty());
    assert(before + escaped(Seq::<u8>::empty()) =~= before);
    while i < to
        invariant
            from <= i <= to <= bytes@.len(),
            out@ == before + escaped(bytes@.subrange(from as int, i as int)),
        decreases to - i,
    {
        push_escaped_byte(out, bytes[i]);
        assert(bytes@.subrange(from as int, i + 1).drop_last() =~= bytes@.subrange(from as int, i as int));
        i = i + 1;
    }
}

/// Writes `4 * count` spaces.
fn push_indent(out: &mut Vec<u8>, count: usize)
    ensures
        final(out)@ == old(out)@ + spaces(4 * count),
{
    let ghost before = out@;
    let mut i: usize = 0;
    assert(before + spaces(0) =~= before);
    while i < count
        invariant
            i <= count,
            out@ == before + spaces(4 * i),
        decreases count - i,
    {
        out.push(0x20);
        out.push(0x20);
        out.push(0x20);
        out.push(0x20);
        assert(before + spaces(4 * (i + 1)) =~= before + spaces(4 * i) + seq![0x20u8, 0x20, 0x20, 0x20]);
        i = i + 1;
    }
}

/// Writes the markup for `end`.
fn push_tag_text(out: &mut Vec<u8>, end: &OutputBufferWalkEntry)
    ensures
        final(out)@ == old(out)@ + tag_text(end.model()),
{
    let ghost before = out@;
    out.push(0x3C);
    if end.is_closing {
        out.push(0x2F);
    }
    let ghost head = out@;
    let track = name_bytes(&end.track);
    let mut i: usize = 0;
    while i < track.len()
        invariant
            i <= track@.len(),
            out@ == head + track@.take(i as int),
        decreases track@.len() - i,
    {
        out.push(track[i]);
        assert(track@.take(i + 1) =~= track@.take(i as int).push(track@[i as int]));
        i = i + 1;
    }
    assert(track@.take(i as int) =~= track@);
    out.push(0x3A);
    let ghost middle = out@;
    let tag = name_bytes(&end.tag);
    let mut j: usize = 0;
    while j < tag.len()
        invariant
            j <= tag@.len(),
            out@ == middle + tag@.take(j as int),
        decreases tag@.len() - j,
    {
        out.push(tag[j]);
        assert(tag@.take(j + 1) =~= tag@.take(j as int).push(tag@[j as int]));
        j = j + 1;
    }
    assert(tag@.take(j as int) =~= tag@);
    out.push(0x3E);
    assert(out@ =~= before + tag_text(end.model()));
}

impl OutputBuffer {
    /// The text of the buffer with its tags: the bytes, escaped, between
    /// lines holding the markup of the ends of every complete range of every
    /// track, in walking order.
    pub fn render(&self) -> (text: Vec<u8>)
        requires
            self.wf(),
        ensures
            text@ == rendering(self.content(), all_ends(self.complete_list()).sort_by(walk_order())),
    {
        let ghost list = track_models(self.tag_tracks@);
        let ghost len = self.bytes@.len() as int;
        let mut entries: Vec<OutputBufferWalkEntry> = Vec::new();
        let mut t: usize = 0;
        proof {
            lemma_track_map(list);
            assert(walk_models(entries@) =~= all_ends(list.take(0)));
        }
        while t < self.tag_tracks.len()
            invariant
                t <= list.len(),
                list == track_models(self.tag_tracks@),
                walk_models(entries@) == all_ends(list.take(t as int)),
            decreases list.len() - t,
        {
            collect_ends(&mut entries, &self.tag_tracks[t].track, &self.tag_tracks[t].tags);
            proof {
                assert(list.take(t + 1).drop_last() =~= list.take(t as int));
                assert(list.take(t + 1).last() == list[t as int]);
            }
            t = t + 1;
        }
        proof {
            assert(list.take(t as int) =~= list);
        }
        let ghost all = walk_models(entries@);
        proof {
            lemma_all_ends_within(list, len, self.complete());
        }
        let sorted = sort_walk(entries);
        let ghost ms = walk_models(sorted@);
        proof {
            lemma_walk_order();
            all.lemma_sort_by_ensures(walk_order());
            assert forall|k: int| 0 <= k < ms.len() implies #[trigger] ms[k].index <= len by {
                assert(ms.contains(ms[k]));
                assert(ms.to_multiset().count(ms[k]) > 0);
                assert(all.contains(ms[k]));
            }
        }
        let mut text: Vec<u8> = Vec::new();
        let mut index: usize = 0;
        let mut open: usize = 0;
        let mut j: usize = 0;
        proof {
            assert(text@ =~= render_steps(self.bytes@, ms.take(0)).2);
        }
        while j < sorted.len()
            invariant
                j <= sorted@.len(),
                ms == walk_models(sorted@),
                sorted_by(ms, walk_order()),
                forall|k: int| 0 <= k < ms.len() ==> #[trigger] ms[k].index <= len,
                len == self.bytes@.len(),
                index <= len,
                open <= j,
                forall|k: int| j <= k < ms.len() ==> index <= #[trigger] ms[k].index,
                render_steps(self.bytes@, ms.take(j as int)) == (index as int, open as int, text@),
            decreases sorted@.len() - j,
        {
            let end = &sorted[j];
            let ghost state = (index as int, open as int, text@);
            let ghost e = ms[j as int];
            assert(e == end.model());
            assert(ms[j as int].index <= len);
            if index < end.index {
                push_indent(&mut text, open);
                push_escaped(&mut text, self.bytes.as_slice(), index, end.index);
                text.push(0x0A);
                index = end.index;
            }
            push_indent(&mut text, end.depth);
            push_tag_text(&mut text, end);
            text.push(0x0A);
            if end.is_closing {
                if open > 0 {
                    open = open - 1;
                }
            } else {
                open = open + 1;
            }
            proof {
                assert(ms.take(j + 1).drop_last() =~= ms.take(j as int));
                assert(ms.take(j + 1).last() == e);
                let step = render_step(self.bytes@, state, e);
                assert(self.bytes@.subrange(state.0, e.index).len() == e.index - state.0);
                assert(text@ =~= step.2);
                assert forall|k: int| j + 1 <= k < ms.len() implies index <= #[trigger] ms[k].index by {
                    assert(walk_order()(ms[j as int], ms[k]));
                }
            }
            j = j + 1;
        }
        proof {
            assert(ms.take(j as int) =~= ms);
        }
        push_escaped(&mut text, self.bytes.as_slice(), index, self.bytes.len());
        text
    }
}

/// Every end of every complete range of a well-formed buffer lies within it.
proof fn lemma_all_ends_within(list: Seq<TrackModel>, len: int, complete: Map<Seq<u8>, Seq<RangeModel>>)
    requires
        names_increasing(list),
        track_map(list) == complete,
        roots_ok(complete, len),
    ensures
        forall|i: int| 0 <= i < all_ends(list).len() ==> #[trigger] all_ends(list)[i].index <= len,
    decreases list.len(),
{
    if list.len() > 0 {
        let rest = list.drop_last();
        lemma_track_map(list);
        lemma_track_map(rest);
        assert(names_increasing(rest));
        let last = list.last();
        assert(complete.contains_key(list[list.len() - 1].0));
        assert(complete[last.0] == last.1);
        assert forall|i: int| 0 <= i < last.1.len() implies within(#[trigger] last.1[i], len) by {
            assert(root_ok(complete[last.0][i], len));
        }
        lemma_flatten_all_within(last.1, len);
        lemma_ends_of_within(last.0, flatten_all(last.1), len);
        assert(roots_ok(track_map(rest), len)) by {
            assert forall|k: Seq<u8>, j: int| track_map(rest).contains_key(k) && 0 <= j < track_map(rest)[k].len() implies root_ok(
                #[trigger] track_map(rest)[k][j],
                len,
            ) by {
                let m = choose|m: int| 0 <= m < rest.len() && rest[m].0 == k;
                assert(list[m] == rest[m]);
                assert(complete.contains_key(list[m].0));
                assert(root_ok(complete[k][j], len));
            }
        }
        lemma_all_ends_within(rest, len, track_map(rest));
        let (a, b) = (all_ends(rest), ends_of(last.0, flatten_all(last.1)));
        assert forall|i: int| 0 <= i < a.len() + b.len() implies #[trigger] (a + b)[i].index <= len by {
            if i < a.len() {
                assert((a + b)[i] == a[i]);
            } else {
                assert((a + b)[i] == b[i - a.len()]);
            }
        }
    }
}

} // verus!
