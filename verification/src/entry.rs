//! Time index entries and their canonical `(timestamp, frame_id)` order.
use vstd::prelude::*;
use vstd::relations::{sorted_by, total_ordering};
use vstd::slice::{slice_subrange, slice_to_vec};

verus! {

/// Raw entry used to build the time index track.
#[derive(Debug, Clone, Copy, PartialEq, Eq, Structural)]
pub struct TimeIndexEntry {
    pub timestamp: i64,
    pub frame_id: u64,
}

impl TimeIndexEntry {
    /// Builds an entry from its timestamp and frame id.
    pub fn new(timestamp: i64, frame_id: u64) -> (entry: Self)
        ensures
            entry.timestamp == timestamp,
            entry.frame_id == frame_id,
    {
        Self { timestamp, frame_id }
    }
}

/// `a` comes no later than `b` in the canonical order: by timestamp, then by frame id.
pub open spec fn entry_leq(a: TimeIndexEntry, b: TimeIndexEntry) -> bool {
    a.timestamp < b.timestamp || (a.timestamp == b.timestamp && a.frame_id <= b.frame_id)
}

/// The canonical order as a relation.
pub open spec fn entry_order() -> spec_fn(TimeIndexEntry, TimeIndexEntry) -> bool {
    |a: TimeIndexEntry, b: TimeIndexEntry| entry_leq(a, b)
}

/// A sequence of entries is in canonical order.
pub open spec fn is_canonical(s: Seq<TimeIndexEntry>) -> bool {
    sorted_by(s, entry_order())
}

/// The canonical arrangement of a collection of entries: the unique sorted permutation.
pub open spec fn canonical(s: Seq<TimeIndexEntry>) -> Seq<TimeIndexEntry> {
    s.sort_by(entry_order())
}

/// The canonical order is a total order.
pub proof fn lemma_entry_order_total()
    ensures
        total_ordering(entry_order()),
{
}

/// A canonical arrangement of a collection is the one `canonical` names.
pub proof fn lemma_canonical_unique(s: Seq<TimeIndexEntry>, t: Seq<TimeIndexEntry>)
    requires
        is_canonical(t),
        t.to_multiset() == s.to_multiset(),
    ensures
        t == canonical(s),
{
    lemma_entry_order_total();
    s.lemma_sort_by_ensures(entry_order());
    vstd::seq_lib::lemma_sorted_unique(t, canonical(s), entry_order());
}

/// Merges two runs in canonical order into one.
fn merge(a: &Vec<TimeIndexEntry>, b: &Vec<TimeIndexEntry>) -> (r: Vec<TimeIndexEntry>)
    requires
        is_canonical(a@),
        is_canonical(b@),
    ensures
        is_canonical(r@),
        r@.len() == a@.len() + b@.len(),
        r@.to_multiset() == a@.to_multiset().add(b@.to_multiset()),
{
    broadcast use vstd::seq_lib::group_to_multiset_ensures;
    broadcast use vstd::multiset::group_multiset_axioms;

    let mut r: Vec<TimeIndexEntry> = Vec::new();
    let mut i: usize = 0;
    let mut j: usize = 0;
    assert(a@.take(0) =~= Seq::<TimeIndexEntry>::empty());
    assert(b@.take(0) =~= Seq::<TimeIndexEntry>::empty());
    while i < a.len() || j < b.len()
        invariant
            is_canonical(a@),
            is_canonical(b@),
            i <= a@.len(),
            j <= b@.len(),
            is_canonical(r@),
            r@.len() == i + j,
            r@.to_multiset() == a@.take(i as int).to_multiset().add(b@.take(j as int).to_multiset()),
            r@.len() > 0 && i < a@.len() ==> entry_leq(r@.last(), a@[i as int]),
            r@.len() > 0 && j < b@.len() ==> entry_leq(r@.last(), b@[j as int]),
        decreases a@.len() + b@.len() - i - j,
    {
        let take_a = if i >= a.len() {
            false
        } else if j >= b.len() {
            true
        } else {
            let x = a[i];
            let y = b[j];
            x.timestamp < y.timestamp || (x.timestamp == y.timestamp && x.frame_id <= y.frame_id)
        };
        let e = if take_a { a[i] } else { b[j] };
        let ghost before = r@;
        proof {
            lemma_push_keeps_canonical(r@, e);
            before.to_multiset_ensures();
            a@.take(i as int).to_multiset_ensures();
            b@.take(j as int).to_multiset_ensures();
        }
        r.push(e);
        assert(r@.to_multiset() =~= before.to_multiset().insert(e));
        if take_a {
            assert(a@.take(i + 1) =~= a@.take(i as int).push(e));
            assert(a@.take(i + 1).to_multiset() =~= a@.take(i as int).to_multiset().insert(e));
            i = i + 1;
        } else {
            assert(b@.take(j + 1) =~= b@.take(j as int).push(e));
            assert(b@.take(j + 1).to_multiset() =~= b@.take(j as int).to_multiset().insert(e));
            j = j + 1;
        }
        assert(r@.to_multiset() =~= a@.take(i as int).to_multiset().add(b@.take(j as int).to_multiset()));
        proof {
            if i < a@.len() && !take_a {
                assert(entry_leq(e, a@[i as int]));
            }
            if i < a@.len() && take_a {
                assert((entry_order())(a@[i - 1], a@[i as int]));
            }
            if j < b@.len() && take_a {
                assert(entry_leq(e, b@[j as int]));
            }
            if j < b@.len() && !take_a {
                assert((entry_order())(b@[j - 1], b@[j as int]));
            }
        }
    }
    assert(a@.take(i as int) =~= a@);
    assert(b@.take(j as int) =~= b@);
    r
}

/// Appending an entry that does not come before the last one keeps a sequence canonical.
pub proof fn lemma_push_keeps_canonical(s: Seq<TimeIndexEntry>, e: TimeIndexEntry)
    requires
        is_canonical(s),
        s.len() > 0 ==> entry_leq(s.last(), e),
    ensures
        is_canonical(s.push(e)),
{
    let t = s.push(e);
    assert forall|i: int, j: int| 0 <= i < j < t.len() implies #[trigger] (entry_order())(t[i], t[j]) by {
        if j == s.len() {
            if i < s.len() - 1 {
                assert((entry_order())(s[i], s[s.len() - 1]));
            }
        } else {
            assert((entry_order())(s[i], s[j]));
        }
    }
}

/// Sorts `entries` into canonical order by merge sort.
fn merge_sort(entries: &[TimeIndexEntry]) -> (r: Vec<TimeIndexEntry>)
    ensures
        is_canonical(r@),
        r@.len() == entries@.len(),
        r@.to_multiset() == entries@.to_multiset(),
    decreases entries@.len(),
{
    broadcast use vstd::seq_lib::group_to_multiset_ensures;

    let n = entries.len();
    if n <= 1 {
        let r = slice_to_vec(entries);
        proof {
            if n == 1 {
                assert(r@ =~= seq![r@[0]]);
            }
        }
        return r;
    }
    let mid = n / 2;
    let left = merge_sort(slice_subrange(entries, 0, mid));
    let right = merge_sort(slice_subrange(entries, mid, n));
    proof {
        assert(entries@ =~= entries@.subrange(0, mid as int) + entries@.subrange(mid as int, n as int));
        vstd::seq_lib::lemma_multiset_commutative(entries@.subrange(0, mid as int), entries@.subrange(mid as int, n as int));
    }
    merge(&left, &right)
}

/// Puts `entries` in canonical order.
pub fn sort_canonical(entries: &mut [TimeIndexEntry])
    ensures
        final(entries)@ == canonical(old(entries)@),
{
    let sorted = merge_sort(entries);
    let ghost original = entries@;
    let mut i: usize = 0;
    while i < entries.len()
        invariant
            entries@.len() == original.len(),
            sorted@.len() == original.len(),
            i <= entries@.len(),
            forall|k: int| 0 <= k < i ==> entries@[k] == sorted@[k],
        decreases entries@.len() - i,
    {
        entries[i] = sorted[i];
        i = i + 1;
    }
    proof {
        assert(entries@ =~= sorted@);
        lemma_canonical_unique(original, sorted@);
    }
}

/// The canonical order sorts by timestamp, and entries with equal timestamps by frame id.
pub proof fn law_canonical_is_timestamp_then_frame(s: Seq<TimeIndexEntry>)
    ensures
        is_canonical(s) <==> forall|i: int, j: int| 0 <= i < j < s.len() ==> (#[trigger] s[i].timestamp < #[trigger] s[j].timestamp
            || (s[i].timestamp == s[j].timestamp && s[i].frame_id <= s[j].frame_id)),
{
    if is_canonical(s) {
        assert forall|i: int, j: int| 0 <= i < j < s.len() implies (#[trigger] s[i].timestamp < #[trigger] s[j].timestamp
            || (s[i].timestamp == s[j].timestamp && s[i].frame_id <= s[j].frame_id)) by {
            assert((entry_order())(s[i], s[j]));
        }
    }
    if forall|i: int, j: int| 0 <= i < j < s.len() ==> (#[trigger] s[i].timestamp < #[trigger] s[j].timestamp
            || (s[i].timestamp == s[j].timestamp && s[i].frame_id <= s[j].frame_id)) {
        assert forall|i: int, j: int| 0 <= i < j < s.len() implies #[trigger] (entry_order())(s[i], s[j]) by {
            assert(s[i].timestamp < s[j].timestamp || (s[i].timestamp == s[j].timestamp && s[i].frame_id <= s[j].frame_id));
        }
    }
}

} // verus!
