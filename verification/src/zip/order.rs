//! Orderings of archive entries, and a stable insertion sort by them.

use vstd::prelude::*;

use crate::zip::write_zip::mimetype_name;

verus! {

broadcast use vstd::multiset::group_multiset_axioms, vstd::seq_lib::group_to_multiset_ensures;

/// Lexicographic order on byte strings: `a` is a prefix of `b`, or at the
/// first byte where they differ `a` has the smaller one.
pub open spec fn lex_le(a: Seq<u8>, b: Seq<u8>) -> bool
    decreases a.len(),
{
    if a.len() == 0 {
        true
    } else if b.len() == 0 {
        false
    } else if a[0] != b[0] {
        a[0] < b[0]
    } else {
        lex_le(a.drop_first(), b.drop_first())
    }
}

/// Strict lexicographic order on byte strings.
pub open spec fn lex_lt(a: Seq<u8>, b: Seq<u8>) -> bool {
    lex_le(a, b) && a != b
}

/// Any two byte strings are ordered one way or the other.
pub proof fn lemma_lex_total(a: Seq<u8>, b: Seq<u8>)
    ensures
        lex_le(a, b) || lex_le(b, a),
    decreases a.len(),
{
    if a.len() > 0 && b.len() > 0 && a[0] == b[0] {
        lemma_lex_total(a.drop_first(), b.drop_first());
    }
}

/// Two byte strings ordered both ways are equal.
pub proof fn lemma_lex_antisymmetric(a: Seq<u8>, b: Seq<u8>)
    requires
        lex_le(a, b),
        lex_le(b, a),
    ensures
        a == b,
    decreases a.len(),
{
    if a.len() > 0 {
        lemma_lex_antisymmetric(a.drop_first(), b.drop_first());
        assert(a =~= seq![a[0]] + a.drop_first());
        assert(b =~= seq![b[0]] + b.drop_first());
    } else {
        assert(b.len() == 0);
        assert(a =~= b);
    }
}

/// Lexicographic order is transitive.
pub proof fn lemma_lex_transitive(a: Seq<u8>, b: Seq<u8>, c: Seq<u8>)
    requires
        lex_le(a, b),
        lex_le(b, c),
    ensures
        lex_le(a, c),
    decreases a.len(),
{
    if a.len() > 0 && b.len() > 0 && c.len() > 0 && a[0] == b[0] && b[0] == c[0] {
        lemma_lex_transitive(a.drop_first(), b.drop_first(), c.drop_first());
    }
}

/// `a < b` and `b < c` give `a < c`.
pub proof fn lemma_lex_order_chain(a: Seq<u8>, b: Seq<u8>, c: Seq<u8>)
    requires
        lex_lt(a, b),
        lex_lt(b, c),
    ensures
        lex_lt(a, c),
{
    lemma_lex_transitive(a, b, c);
    if a == c {
        lemma_lex_antisymmetric(a, b);
    }
}

/// The number of `/` path separators in `name`.
pub open spec fn slash_count(name: Seq<u8>) -> nat
    decreases name.len(),
{
    if name.len() == 0 {
        0
    } else {
        slash_count(name.drop_last()) + if name.last() == 0x2Fu8 {
            1nat
        } else {
            0nat
        }
    }
}

/// An archive entry as mathematical values: its name and its body.
pub type EntryView = (Seq<u8>, Seq<u8>);

/// The orders in which archive entries can be sorted.
#[derive(Debug, Clone, Copy, PartialEq, Eq)]
pub enum EntryOrder {
    /// By the number of `/` in the name, then by name.
    Name,
    /// By body, then by name.
    Body,
    /// `mimetype` first, then empty files, then by the number of `/` in the
    /// name, then by name, then by body.
    Archive,
}

/// `false` before `true`.
pub open spec fn bool_lt(a: bool, b: bool) -> bool {
    !a && b
}

/// Whether entry `a` may come before entry `b` in `order`.
pub open spec fn entry_le(order: EntryOrder, a: EntryView, b: EntryView) -> bool {
    match order {
        EntryOrder::Name => slash_count(a.0) < slash_count(b.0) || (slash_count(a.0) == slash_count(
            b.0,
        ) && lex_le(a.0, b.0)),
        EntryOrder::Body => lex_lt(a.1, b.1) || (a.1 == b.1 && lex_le(a.0, b.0)),
        EntryOrder::Archive => {
            let (a1, b1) = (a.0 != mimetype_name(), b.0 != mimetype_name());
            let (a2, b2) = (a.1.len() > 0, b.1.len() > 0);
            bool_lt(a1, b1) || (a1 == b1 && (bool_lt(a2, b2) || (a2 == b2 && (slash_count(a.0)
                < slash_count(b.0) || (slash_count(a.0) == slash_count(b.0) && (lex_lt(a.0, b.0)
                || (a.0 == b.0 && lex_le(a.1, b.1))))))))
        },
    }
}

/// Every entry order is a total preorder: any two entries are ordered one way
/// or the other, and the order is transitive.
pub proof fn lemma_entry_order(order: EntryOrder, a: EntryView, b: EntryView, c: EntryView)
    ensures
        entry_le(order, a, b) || entry_le(order, b, a),
        entry_le(order, a, b) && entry_le(order, b, c) ==> entry_le(order, a, c),
{
    lemma_lex_total(a.0, b.0);
    lemma_lex_total(a.1, b.1);
    if lex_le(a.0, b.0) && lex_le(b.0, a.0) {
        lemma_lex_antisymmetric(a.0, b.0);
    }
    if lex_le(a.1, b.1) && lex_le(b.1, a.1) {
        lemma_lex_antisymmetric(a.1, b.1);
    }
    if lex_le(a.0, b.0) && lex_le(b.0, c.0) {
        lemma_lex_transitive(a.0, b.0, c.0);
        if a.0 == c.0 {
            lemma_lex_antisymmetric(a.0, b.0);
        }
    }
    if lex_le(a.1, b.1) && lex_le(b.1, c.1) {
        lemma_lex_transitive(a.1, b.1, c.1);
        if a.1 == c.1 {
            lemma_lex_antisymmetric(a.1, b.1);
        }
    }
}

/// Whether `entries` is sorted by `order`.
pub open spec fn entries_sorted(entries: Seq<EntryView>, order: EntryOrder) -> bool {
    forall|i: int, j: int|
        0 <= i < j < entries.len() ==> entry_le(order, #[trigger] entries[i], #[trigger] entries[j])
}

/// In archive order, the file named `mimetype` comes before every other
/// file, then empty files before files with a body, and among files alike in
/// both, files with fewer `/` separators in their names (files before
/// directories) come first, then names in lexicographic order.
pub proof fn law_archive_order(entries: Seq<EntryView>, i: int, j: int)
    requires
        entries_sorted(entries, EntryOrder::Archive),
        0 <= i < entries.len(),
        0 <= j < entries.len(),
    ensures
        entries[i].0 == mimetype_name() && entries[j].0 != mimetype_name() ==> i < j,
        (entries[i].0 == mimetype_name()) == (entries[j].0 == mimetype_name()) && entries[i].1.len() == 0
            && entries[j].1.len() > 0 ==> i < j,
        (entries[i].0 == mimetype_name()) == (entries[j].0 == mimetype_name()) && (entries[i].1.len()
            == 0) == (entries[j].1.len() == 0) && slash_count(entries[i].0) < slash_count(entries[j].0)
            ==> i < j,
        (entries[i].0 == mimetype_name()) == (entries[j].0 == mimetype_name()) && (entries[i].1.len()
            == 0) == (entries[j].1.len() == 0) && slash_count(entries[i].0) == slash_count(entries[j].0)
            && lex_lt(entries[i].0, entries[j].0) ==> i < j,
{
    let (a, b) = (entries[i], entries[j]);
    if j <= i {
        if j < i {
            assert(entry_le(EntryOrder::Archive, b, a));
        }
        if lex_lt(a.0, b.0) && lex_le(b.0, a.0) {
            lemma_lex_antisymmetric(a.0, b.0);
        }
    }
}

/// In name order, names with fewer `/` separators come first, then names in
/// lexicographic order.
pub proof fn law_name_order(entries: Seq<EntryView>, i: int, j: int)
    requires
        entries_sorted(entries, EntryOrder::Name),
        0 <= i < entries.len(),
        0 <= j < entries.len(),
    ensures
        slash_count(entries[i].0) < slash_count(entries[j].0) ==> i < j,
        slash_count(entries[i].0) == slash_count(entries[j].0) && lex_lt(entries[i].0, entries[j].0) ==> i
            < j,
{
    let (a, b) = (entries[i], entries[j]);
    if j <= i {
        if j < i {
            assert(entry_le(EntryOrder::Name, b, a));
        }
        if lex_lt(a.0, b.0) && lex_le(b.0, a.0) {
            lemma_lex_antisymmetric(a.0, b.0);
        }
    }
}

/// In body order, bodies come in lexicographic order, and entries with equal
/// bodies come in the lexicographic order of their names.
pub proof fn law_body_order(entries: Seq<EntryView>, i: int, j: int)
    requires
        entries_sorted(entries, EntryOrder::Body),
        0 <= i < entries.len(),
        0 <= j < entries.len(),
    ensures
        lex_lt(entries[i].1, entries[j].1) ==> i < j,
        entries[i].1 == entries[j].1 && lex_lt(entries[i].0, entries[j].0) ==> i < j,
{
    let (a, b) = (entries[i], entries[j]);
    if j <= i {
        if j < i {
            assert(entry_le(EntryOrder::Body, b, a));
        }
        if lex_lt(a.0, b.0) && lex_le(b.0, a.0) {
            lemma_lex_antisymmetric(a.0, b.0);
        }
        if lex_lt(a.1, b.1) && lex_le(b.1, a.1) {
            lemma_lex_antisymmetric(a.1, b.1);
        }
    }
}

/// Two entries with equal bodies and different names are not level in body
/// order: the one with the lexicographically smaller name comes strictly
/// first. Entries with different bodies come strictly in the order of their
/// bodies.
pub proof fn law_body_order_strict(a: EntryView, b: EntryView)
    ensures
        a.1 == b.1 && lex_lt(a.0, b.0) ==> entry_le(EntryOrder::Body, a, b) && !entry_le(
            EntryOrder::Body,
            b,
            a,
        ),
        lex_lt(a.1, b.1) ==> entry_le(EntryOrder::Body, a, b) && !entry_le(EntryOrder::Body, b, a),
{
    if lex_le(b.0, a.0) && lex_le(a.0, b.0) {
        lemma_lex_antisymmetric(a.0, b.0);
    }
    if lex_le(b.1, a.1) && lex_le(a.1, b.1) {
        lemma_lex_antisymmetric(a.1, b.1);
    }
}

/// Something that can stand for an archive entry: it has a name and a body.
pub trait AsEntry {
    /// The entry's name and body as mathematical values.
    spec fn entry_view(&self) -> EntryView;

    /// The entry's name.
    fn entry_name(&self) -> (name: &[u8])
        ensures
            name@ == self.entry_view().0,
    ;

    /// The entry's body.
    fn entry_body(&self) -> (body: &[u8])
        ensures
            body@ == self.entry_view().1,
    ;
}

impl AsEntry for (Vec<u8>, Vec<u8>) {
    open spec fn entry_view(&self) -> EntryView {
        (self.0@, self.1@)
    }

    fn entry_name(&self) -> (name: &[u8]) {
        self.0.as_slice()
    }

    fn entry_body(&self) -> (body: &[u8]) {
        self.1.as_slice()
    }
}

impl<'a> AsEntry for (&'a [u8], &'a [u8]) {
    open spec fn entry_view(&self) -> EntryView {
        (self.0@, self.1@)
    }

    fn entry_name(&self) -> (name: &[u8]) {
        self.0
    }

    fn entry_body(&self) -> (body: &[u8]) {
        self.1
    }
}

/// The names and bodies of a sequence of entries.
pub open spec fn entry_views<T: AsEntry>(items: Seq<T>) -> Seq<EntryView> {
    Seq::new(items.len(), |i: int| items[i].entry_view())
}

/// Whether `a` comes before or with `b` lexicographically.
pub fn bytes_le(a: &[u8], b: &[u8]) -> (result: bool)
    ensures
        result == lex_le(a@, b@),
{
    let mut i: usize = 0;
    assert(a@.skip(0) =~= a@);
    assert(b@.skip(0) =~= b@);
    while i < a.len() && i < b.len()
        invariant
            i <= a@.len(),
            i <= b@.len(),
            lex_le(a@, b@) == lex_le(a@.skip(i as int), b@.skip(i as int)),
        decreases a@.len() - i,
    {
        if a[i] != b[i] {
            return a[i] < b[i];
        }
        assert(a@.skip(i as int).drop_first() =~= a@.skip(i + 1));
        assert(b@.skip(i as int).drop_first() =~= b@.skip(i + 1));
        i = i + 1;
    }
    i == a.len()
}

/// Whether `a` and `b` hold the same bytes.
pub fn bytes_eq(a: &[u8], b: &[u8]) -> (result: bool)
    ensures
        result == (a@ == b@),
{
    if a.len() != b.len() {
        return false;
    }
    let mut i: usize = 0;
    while i < a.len()
        invariant
            a@.len() == b@.len(),
            i <= a@.len(),
            forall|k: int| 0 <= k < i ==> a@[k] == b@[k],
        decreases a@.len() - i,
    {
        if a[i] != b[i] {
            return false;
        }
        i = i + 1;
    }
    assert(a@ =~= b@);
    true
}

/// The number of `/` path separators in `name`.
pub fn count_slashes(name: &[u8]) -> (count: usize)
    ensures
        count == slash_count(name@),
{
    let mut count: usize = 0;
    let mut i: usize = 0;
    while i < name.len()
        invariant
            i <= name@.len(),
            count == slash_count(name@.take(i as int)),
            count <= i,
        decreases name@.len() - i,
    {
        assert(name@.take(i + 1).drop_last() =~= name@.take(i as int));
        if name[i] == 0x2F {
            count = count + 1;
        }
        i = i + 1;
    }
    assert(name@.take(name@.len() as int) =~= name@);
    count
}

fn is_mimetype_name(name: &[u8]) -> (result: bool)
    ensures
        result == (name@ == mimetype_name()),
{
    let expected: [u8; 8] = [0x6D, 0x69, 0x6D, 0x65, 0x74, 0x79, 0x70, 0x65];
    assert(expected@ == mimetype_name());
    bytes_eq(name, expected.as_slice())
}

/// Whether `a` comes strictly before `b` lexicographically.
pub fn bytes_lt(a: &[u8], b: &[u8]) -> (result: bool)
    ensures
        result == lex_lt(a@, b@),
{
    bytes_le(a, b) && !bytes_eq(a, b)
}

/// Whether the entry `(a_name, a_body)` may come before `(b_name, b_body)`
/// in `order`.
pub fn entry_le_exec(order: EntryOrder, a_name: &[u8], a_body: &[u8], b_name: &[u8], b_body: &[u8]) -> (result: bool)
    ensures
        result == entry_le(order, (a_name@, a_body@), (b_name@, b_body@)),
{
    match order {
        EntryOrder::Name => {
            let (sa, sb) = (count_slashes(a_name), count_slashes(b_name));
            sa < sb || (sa == sb && bytes_le(a_name, b_name))
        },
        EntryOrder::Body => {
            bytes_lt(a_body, b_body) || (bytes_eq(a_body, b_body) && bytes_le(a_name, b_name))
        },
        EntryOrder::Archive => {
            let a1 = !is_mimetype_name(a_name);
            let b1 = !is_mimetype_name(b_name);
            let a2 = a_body.len() > 0;
            let b2 = b_body.len() > 0;
            if a1 != b1 {
                return !a1 && b1;
            }
            if a2 != b2 {
                return !a2 && b2;
            }
            let (sa, sb) = (count_slashes(a_name), count_slashes(b_name));
            if sa != sb {
                return sa < sb;
            }
            bytes_lt(a_name, b_name) || (bytes_eq(a_name, b_name) && bytes_le(a_body, b_body))
        },
    }
}

/// Whether `order` puts `a` and `b` level: each may come before the other.
pub open spec fn entries_tied(order: EntryOrder, a: EntryView, b: EntryView) -> bool {
    entry_le(order, a, b) && entry_le(order, b, a)
}

/// Whether `sorted` is `items` rearranged, item `i` of `sorted` being item
/// `positions[i]` of `items`, with items that `order` puts level kept in
/// the order they had.
pub open spec fn stable_arrangement<T: AsEntry>(
    items: Seq<T>,
    sorted: Seq<T>,
    positions: Seq<int>,
    order: EntryOrder,
) -> bool {
    &&& positions.len() == sorted.len() == items.len()
    &&& forall|i: int| 0 <= i < positions.len() ==> 0 <= #[trigger] positions[i] < items.len() && sorted[i] == items[positions[i]]
    &&& forall|i: int, j: int| 0 <= i < j < positions.len() ==> #[trigger] positions[i] != #[trigger] positions[j]
    &&& forall|i: int, j: int|
        0 <= i < j < sorted.len() && entries_tied(order, #[trigger] sorted[i].entry_view(), #[trigger] sorted[j].entry_view())
            ==> positions[i] < positions[j]
}

/// Sorts `items` by `order`, stably. The result holds the same items, each
/// as often as `items` does, and items that `order` puts level keep their
/// order.
pub fn sort_entries<T: AsEntry>(items: Vec<T>, order: EntryOrder) -> (sorted: Vec<T>)
    ensures
        sorted@.to_multiset() == items@.to_multiset(),
        entries_sorted(entry_views(sorted@), order),
        exists|positions: Seq<int>| stable_arrangement(items@, sorted@, positions, order),
{
    let ghost all = items@;
    let mut rest = items;
    let mut sorted: Vec<T> = Vec::new();
    let ghost mut positions: Seq<int> = Seq::empty();
    proof {
        assert(all.skip(0) =~= all);
    }
    while rest.len() > 0
        invariant
            sorted@.to_multiset().add(rest@.to_multiset()) == all.to_multiset(),
            entries_sorted(entry_views(sorted@), order),
            sorted@.len() + rest@.len() == all.len(),
            rest@ == all.skip(sorted@.len() as int),
            positions.len() == sorted@.len(),
            forall|i: int|
                0 <= i < positions.len() ==> 0 <= #[trigger] positions[i] < sorted@.len() && sorted@[i]
                    == all[positions[i]],
            forall|i: int, j: int| 0 <= i < j < positions.len() ==> #[trigger] positions[i] != #[trigger] positions[j],
            forall|i: int, j: int|
                0 <= i < j < sorted@.len() && entries_tied(
                    order,
                    #[trigger] sorted@[i].entry_view(),
                    #[trigger] sorted@[j].entry_view(),
                ) ==> positions[i] < positions[j],
        decreases rest@.len(),
    {
        let ghost next = sorted@.len() as int;
        let ghost rest_before = rest@;
        let item = rest.remove(0);
        proof {
            assert(item == all[next]);
            assert(rest@ =~= all.skip(next + 1));
        }
        let ghost before = sorted@;
        let mut k: usize = 0;
        while k < sorted.len() && entry_le_exec(
            order,
            sorted[k].entry_name(),
            sorted[k].entry_body(),
            item.entry_name(),
            item.entry_body(),
        )
            invariant
                sorted@ == before,
                entries_sorted(entry_views(before), order),
                k <= sorted@.len(),
                forall|j: int| 0 <= j < k ==> entry_le(order, #[trigger] sorted@[j].entry_view(), item.entry_view()),
            decreases sorted@.len() - k,
        {
            k = k + 1;
        }
        proof {
            if k < before.len() {
                assert(!entry_le(order, before[k as int].entry_view(), item.entry_view()));
                lemma_entry_order(order, before[k as int].entry_view(), item.entry_view(), item.entry_view());
            }
        }
        sorted.insert(k, item);
        proof {
            let after = sorted@;
            let old_positions = positions;
            positions = positions.insert(k as int, next);
            before.insert_ensures(k as int, item);
            assert(after.len() == before.len() + 1);
            assert forall|i: int, j: int| 0 <= i < j < after.len() implies entry_le(
                order,
                #[trigger] entry_views(after)[i],
                #[trigger] entry_views(after)[j],
            ) by {
                if j < k {
                    assert(entry_le(order, entry_views(before)[i], entry_views(before)[j]));
                } else if i < k && j == k {
                } else if i < k && j > k {
                    assert(entry_le(order, entry_views(before)[i], entry_views(before)[j - 1]));
                } else if i == k {
                    if k < before.len() {
                        if j - 1 > k {
                            assert(entry_le(order, entry_views(before)[k as int], entry_views(before)[j - 1]));
                        }
                        lemma_entry_order(order, item.entry_view(), before[k as int].entry_view(), before[j - 1].entry_view());
                    }
                } else {
                    assert(entry_le(order, entry_views(before)[i - 1], entry_views(before)[j - 1]));
                }
            }
            assert forall|i: int| 0 <= i < positions.len() implies 0 <= #[trigger] positions[i] < after.len()
                && after[i] == all[positions[i]] by {
                if i < k {
                    assert(positions[i] == old_positions[i]);
                } else if i > k {
                    assert(positions[i] == old_positions[i - 1]);
                }
            }
            assert forall|i: int, j: int| 0 <= i < j < positions.len() implies #[trigger] positions[i]
                != #[trigger] positions[j] by {
                if i != k && j != k {
                    let (a, b) = (if i < k { i } else { i - 1 }, if j < k { j } else { j - 1 });
                    assert(old_positions[a] != old_positions[b]);
                } else if i == k {
                    assert(old_positions[j - 1] < next);
                } else {
                    assert(old_positions[i] < next);
                }
            }
            assert forall|i: int, j: int|
                0 <= i < j < after.len() && entries_tied(
                    order,
                    #[trigger] after[i].entry_view(),
                    #[trigger] after[j].entry_view(),
                ) implies positions[i] < positions[j] by {
                if i != k && j != k {
                    let (a, b) = (if i < k { i } else { i - 1 }, if j < k { j } else { j - 1 });
                    assert(after[i] == before[a] && after[j] == before[b]);
                } else if j == k {
                    assert(old_positions[i] < next);
                } else {
                    assert(after[j] == before[j - 1]);
                    if j - 1 > k {
                        assert(entry_le(order, entry_views(before)[k as int], entry_views(before)[j - 1]));
                        lemma_entry_order(order, before[k as int].entry_view(), before[j - 1].entry_view(), item.entry_view());
                    }
                    assert(false);
                }
            }
        }
    }
    proof {
        assert(all.skip(sorted@.len() as int).len() == 0);
        assert(stable_arrangement(all, sorted@, positions, order));
    }
    sorted
}

} // verus!
