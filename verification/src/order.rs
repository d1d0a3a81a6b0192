//! Global ordering of records by id: a stable insertion sort, specified
//! exactly, with the law that the sorted result depends only on which
//! records were gathered — never on the order workers delivered them.

use vstd::prelude::*;
use vstd::multiset::Multiset;
use crate::filter::{record_views, LogRecord, RecordView};

verus! {

/// Non-decreasing by id.
pub open spec fn sorted_by_id(s: Seq<RecordView>) -> bool {
    forall|i: int, j: int| 0 <= i < j < s.len() ==> s[i].id <= s[j].id
}

/// No two positions carry the same id.
pub open spec fn distinct_ids(s: Seq<RecordView>) -> bool {
    forall|i: int, j: int|
        0 <= i < s.len() && 0 <= j < s.len() && i != j ==> s[i].id != s[j].id
}

/// No two records of the collection share an id, counted with multiplicity.
pub open spec fn mdistinct(m: Multiset<RecordView>) -> bool {
    &&& forall|x: RecordView| #[trigger] m.count(x) <= 1
    &&& forall|x: RecordView, y: RecordView|
        #[trigger] m.contains(x) && #[trigger] m.contains(y) && x != y ==> x.id != y.id
}

/// Stable insertion of `r`: after every record whose id is not above `r.id`.
pub open spec fn insert_rec(s: Seq<RecordView>, r: RecordView) -> Seq<RecordView>
    decreases s.len(),
{
    if s.len() == 0 {
        seq![r]
    } else if s[0].id <= r.id {
        seq![s[0]] + insert_rec(s.drop_first(), r)
    } else {
        seq![r] + s
    }
}

/// The stable sort: insert each record in turn into the sorted prefix.
pub open spec fn sort_spec(s: Seq<RecordView>) -> Seq<RecordView>
    decreases s.len(),
{
    if s.len() == 0 {
        s
    } else {
        insert_rec(sort_spec(s.drop_last()), s.last())
    }
}

/// Splitting off the head of a sequence removes it from the multiset.
proof fn lemma_to_multiset_drop_first(s: Seq<RecordView>)
    requires
        s.len() > 0,
    ensures
        s.drop_first().to_multiset() == s.to_multiset().remove(s[0]),
{
    broadcast use vstd::seq_lib::group_to_multiset_ensures;
    broadcast use vstd::multiset::group_multiset_axioms;

    assert(seq![s[0]] + s.drop_first() =~= s);
    vstd::seq_lib::lemma_multiset_commutative(seq![s[0]], s.drop_first());
    assert(seq![s[0]] =~= Seq::<RecordView>::empty().push(s[0]));
    assert(Seq::<RecordView>::empty().push(s[0]).to_multiset() =~= Multiset::<
        RecordView,
    >::empty().insert(s[0]));
    assert forall|x: RecordView|
        s.drop_first().to_multiset().count(x) == s.to_multiset().remove(s[0]).count(x) by {
        assert(s.to_multiset().count(x) == Multiset::<RecordView>::empty().insert(s[0]).count(x)
            + s.drop_first().to_multiset().count(x));
    }
    assert(s.drop_first().to_multiset() =~= s.to_multiset().remove(s[0]));
}

/// Inserting keeps order, adds exactly the inserted record, and grows the
/// length by one.
pub proof fn lemma_insert_rec_props(s: Seq<RecordView>, r: RecordView)
    requires
        sorted_by_id(s),
    ensures
        sorted_by_id(insert_rec(s, r)),
        insert_rec(s, r).to_multiset() == s.to_multiset().insert(r),
        insert_rec(s, r).len() == s.len() + 1,
    decreases s.len(),
{
    broadcast use vstd::seq_lib::group_to_multiset_ensures;
    broadcast use vstd::multiset::group_multiset_axioms;

    let out = insert_rec(s, r);
    if s.len() == 0 {
        assert(out =~= Seq::<RecordView>::empty().push(r));
        assert(s.to_multiset().len() == 0);
        assert(out.to_multiset() =~= s.to_multiset().insert(r));
    } else if s[0].id <= r.id {
        assert forall|i: int, j: int|
            0 <= i < j < s.drop_first().len() implies s.drop_first()[i].id
            <= s.drop_first()[j].id by {
            assert(s.drop_first()[i] == s[i + 1]);
            assert(s.drop_first()[j] == s[j + 1]);
        }
        lemma_insert_rec_props(s.drop_first(), r);
        let t = insert_rec(s.drop_first(), r);
        assert forall|x: int| 0 <= x < t.len() implies s[0].id <= t[x].id by {
            assert(t.contains(t[x]));
            assert(t.to_multiset().count(t[x]) > 0);
            if t[x] != r {
                assert(s.drop_first().to_multiset().count(t[x]) > 0);
                assert(s.drop_first().contains(t[x]));
                let w = choose|w: int|
                    0 <= w < s.drop_first().len() && s.drop_first()[w] == t[x];
                assert(s[w + 1] == t[x]);
            }
        }
        assert forall|i: int, j: int| 0 <= i < j < out.len() implies out[i].id <= out[j].id by {
            if i > 0 {
                assert(out[i] == t[i - 1]);
                assert(out[j] == t[j - 1]);
            } else {
                assert(out[j] == t[j - 1]);
            }
        }
        vstd::seq_lib::lemma_multiset_commutative(seq![s[0]], t);
        assert(seq![s[0]] =~= Seq::<RecordView>::empty().push(s[0]));
        lemma_to_multiset_drop_first(s);
        assert forall|x: RecordView|
            out.to_multiset().count(x) == s.to_multiset().insert(r).count(x) by {
            assert(out.to_multiset().count(x) == Seq::<RecordView>::empty().push(
                s[0],
            ).to_multiset().count(x) + t.to_multiset().count(x));
            assert(s.to_multiset().count(x) == Seq::<RecordView>::empty().push(
                s[0],
            ).to_multiset().count(x) + s.drop_first().to_multiset().count(x)) by {
                assert(seq![s[0]] + s.drop_first() =~= s);
                vstd::seq_lib::lemma_multiset_commutative(seq![s[0]], s.drop_first());
            }
        }
        assert(out.to_multiset() =~= s.to_multiset().insert(r));
    } else {
        assert forall|i: int, j: int| 0 <= i < j < out.len() implies out[i].id <= out[j].id by {
            if i > 0 {
                assert(out[i] == s[i - 1]);
                assert(out[j] == s[j - 1]);
            } else {
                assert(out[j] == s[j - 1]);
                assert(s[0].id <= s[j - 1].id);
            }
        }
        vstd::seq_lib::lemma_multiset_commutative(seq![r], s);
        assert(seq![r] =~= Seq::<RecordView>::empty().push(r));
        assert forall|x: RecordView|
            out.to_multiset().count(x) == s.to_multiset().insert(r).count(x) by {
            assert(out.to_multiset().count(x) == Seq::<RecordView>::empty().push(
                r,
            ).to_multiset().count(x) + s.to_multiset().count(x));
        }
        assert(out.to_multiset() =~= s.to_multiset().insert(r));
    }
}

/// Where the insertion lands: before the first record whose id is above
/// `r.id`.
pub proof fn lemma_insert_rec_at(s: Seq<RecordView>, r: RecordView, k: int)
    requires
        0 <= k <= s.len(),
        forall|i: int| 0 <= i < k ==> s[i].id <= r.id,
        k < s.len() ==> s[k].id > r.id,
    ensures
        insert_rec(s, r) == s.take(k) + seq![r] + s.skip(k),
    decreases k,
{
    if k == 0 {
        if s.len() == 0 {
            assert(insert_rec(s, r) =~= s.take(0) + seq![r] + s.skip(0));
        } else {
            assert(s[0].id > r.id);
            assert(insert_rec(s, r) =~= s.take(0) + seq![r] + s.skip(0));
        }
    } else {
        assert(s[0].id <= r.id);
        let t = s.drop_first();
        assert forall|i: int| 0 <= i < k - 1 implies t[i].id <= r.id by {
            assert(t[i] == s[i + 1]);
        }
        if k - 1 < t.len() {
            assert(t[k - 1] == s[k]);
        }
        lemma_insert_rec_at(t, r, k - 1);
        assert(insert_rec(s, r) == seq![s[0]] + (t.take(k - 1) + seq![r] + t.skip(k - 1)));
        assert(seq![s[0]] + (t.take(k - 1) + seq![r] + t.skip(k - 1)) =~= s.take(k) + seq![r]
            + s.skip(k));
    }
}

/// The sort spec orders its input and keeps exactly its records.
pub proof fn lemma_sort_spec_props(s: Seq<RecordView>)
    ensures
        sorted_by_id(sort_spec(s)),
        sort_spec(s).to_multiset() == s.to_multiset(),
    decreases s.len(),
{
    broadcast use vstd::seq_lib::group_to_multiset_ensures;

    if s.len() == 0 {
    } else {
        lemma_sort_spec_props(s.drop_last());
        lemma_insert_rec_props(sort_spec(s.drop_last()), s.last());
        assert(s.drop_last().push(s.last()) =~= s);
        assert(s.drop_last().push(s.last()).to_multiset() =~= s.drop_last().to_multiset().insert(
            s.last(),
        ));
    }
}

/// Distinct ids position-wise give distinct ids with multiplicity.
proof fn lemma_distinct_mdistinct(s: Seq<RecordView>)
    requires
        distinct_ids(s),
    ensures
        mdistinct(s.to_multiset()),
{
    broadcast use vstd::seq_lib::group_to_multiset_ensures;

    assert(s.no_duplicates());
    s.lemma_multiset_has_no_duplicates();
    assert forall|x: RecordView| #[trigger] s.to_multiset().count(x) <= 1 by {
        if s.to_multiset().count(x) > 0 {
            assert(s.to_multiset().contains(x));
        }
    }
    assert forall|x: RecordView, y: RecordView|
        #[trigger] s.to_multiset().contains(x) && #[trigger] s.to_multiset().contains(y) && x
            != y implies x.id != y.id by {
        assert(s.contains(x));
        assert(s.contains(y));
        let i = choose|i: int| 0 <= i < s.len() && s[i] == x;
        let j = choose|j: int| 0 <= j < s.len() && s[j] == y;
        assert(i != j);
    }
}

/// Two sorted sequences of the same id-distinct records are equal.
proof fn lemma_sorted_unique(a: Seq<RecordView>, b: Seq<RecordView>)
    requires
        sorted_by_id(a),
        sorted_by_id(b),
        a.to_multiset() == b.to_multiset(),
        mdistinct(a.to_multiset()),
    ensures
        a == b,
    decreases a.len(),
{
    broadcast use vstd::seq_lib::group_to_multiset_ensures;
    broadcast use vstd::multiset::group_multiset_axioms;

    if a.len() == 0 {
        assert(b.to_multiset().len() == 0);
        assert(a =~= b);
    } else {
        assert(a.to_multiset().len() == a.len());
        assert(b.to_multiset().len() == b.len());
        assert(b.len() == a.len());
        assert(a.contains(a[0]));
        assert(b.to_multiset().contains(a[0]));
        assert(b.contains(a[0]));
        let j = choose|j: int| 0 <= j < b.len() && b[j] == a[0];
        assert(b.contains(b[0]));
        assert(a.to_multiset().contains(b[0]));
        assert(a.contains(b[0]));
        let k = choose|k: int| 0 <= k < a.len() && a[k] == b[0];
        assert(a[0].id <= a[k].id);
        assert(b[0].id <= b[j].id);
        assert(a[0].id == b[0].id);
        if a[0] != b[0] {
            assert(a.to_multiset().contains(a[0]));
            assert(a.to_multiset().contains(b[0]));
            assert(false);
        }
        lemma_to_multiset_drop_first(a);
        lemma_to_multiset_drop_first(b);
        assert(a.drop_first().to_multiset() == b.drop_first().to_multiset());
        assert forall|x: RecordView| #[trigger]
            a.drop_first().to_multiset().count(x) <= 1 by {
            assert(a.to_multiset().remove(a[0]).count(x) <= a.to_multiset().count(x));
        }
        assert forall|x: RecordView, y: RecordView|
            #[trigger] a.drop_first().to_multiset().contains(x)
                && #[trigger] a.drop_first().to_multiset().contains(y) && x != y implies x.id
            != y.id by {
            assert(a.to_multiset().remove(a[0]).count(x) <= a.to_multiset().count(x));
            assert(a.to_multiset().remove(a[0]).count(y) <= a.to_multiset().count(y));
            assert(a.to_multiset().contains(x));
            assert(a.to_multiset().contains(y));
        }
        assert forall|i: int, j2: int|
            0 <= i < j2 < a.drop_first().len() implies a.drop_first()[i].id
            <= a.drop_first()[j2].id by {
            assert(a.drop_first()[i] == a[i + 1]);
            assert(a.drop_first()[j2] == a[j2 + 1]);
        }
        assert forall|i: int, j2: int|
            0 <= i < j2 < b.drop_first().len() implies b.drop_first()[i].id
            <= b.drop_first()[j2].id by {
            assert(b.drop_first()[i] == b[i + 1]);
            assert(b.drop_first()[j2] == b[j2 + 1]);
        }
        lemma_sorted_unique(a.drop_first(), b.drop_first());
        assert forall|i: int| 0 <= i < a.len() implies a[i] == b[i] by {
            if i > 0 {
                assert(a.drop_first()[i - 1] == b.drop_first()[i - 1]);
            }
        }
        assert(a =~= b);
    }
}

/// Law: the merged order never depends on completion order. Any two
/// multiset-equal gatherings of records with pairwise distinct ids — the same
/// per-file results joined in any shuffle — sort to the same sequence.
pub proof fn lemma_merge_order_independent(a: Seq<RecordView>, b: Seq<RecordView>)
    requires
        distinct_ids(a),
        a.to_multiset() == b.to_multiset(),
    ensures
        sort_spec(a) == sort_spec(b),
{
    lemma_sort_spec_props(a);
    lemma_sort_spec_props(b);
    lemma_distinct_mdistinct(a);
    lemma_sorted_unique(sort_spec(a), sort_spec(b));
}

/// Concatenating results in either order gathers the same records.
pub proof fn lemma_concat_commutes(x: Seq<RecordView>, y: Seq<RecordView>)
    ensures
        (x + y).to_multiset() == (y + x).to_multiset(),
{
    vstd::seq_lib::lemma_multiset_commutative(x, y);
    vstd::seq_lib::lemma_multiset_commutative(y, x);
    broadcast use vstd::multiset::group_multiset_axioms;

    assert((x + y).to_multiset() =~= (y + x).to_multiset());
}

/// Sort the gathered records by id, stably.
pub fn sort_records(recs: Vec<LogRecord>) -> (r: Vec<LogRecord>)
    ensures
        record_views(r@) == sort_spec(record_views(recs@)),
{
    let ghost orig = record_views(recs@);
    let mut input = recs;
    let mut out: Vec<LogRecord> = Vec::new();
    proof {
        assert(record_views(input@) =~~= orig.skip(0));
        assert(record_views(out@) =~~= sort_spec(orig.take(0)));
    }
    while input.len() > 0
        invariant
            out@.len() + input@.len() == orig.len(),
            record_views(input@) == orig.skip(out@.len() as int),
            record_views(out@) == sort_spec(orig.take(out@.len() as int)),
        decreases input@.len(),
    {
        let ghost n = out@.len() as int;
        let ghost old_in = input@;
        let rec = input.remove(0);
        proof {
            assert(rec@ == record_views(old_in)[0]);
            assert(orig.skip(n)[0] == orig[n]);
            assert(rec@ == orig[n]);
            assert forall|x: int|
                0 <= x < input@.len() implies record_views(input@)[x] == orig.skip(n + 1)[x] by {
                assert(input@[x] == old_in[x + 1]);
                assert(record_views(old_in)[x + 1] == old_in[x + 1]@);
                assert(orig.skip(n)[x + 1] == orig[n + 1 + x]);
                assert(orig.skip(n + 1)[x] == orig[n + 1 + x]);
            }
            assert(record_views(input@) =~~= orig.skip(n + 1));
        }
        let ghost prev = record_views(out@);
        let mut k: usize = 0;
        while k < out.len() && out[k].id <= rec.id
            invariant
                k <= out@.len(),
                prev == record_views(out@),
                forall|x: int| 0 <= x < k ==> prev[x].id <= rec@.id,
            decreases out@.len() - k,
        {
            proof {
                assert(prev[k as int] == out@[k as int]@);
            }
            k = k + 1;
        }
        proof {
            if k < out@.len() {
                assert(prev[k as int] == out@[k as int]@);
            }
            lemma_insert_rec_at(prev, rec@, k as int);
        }
        out.insert(k, rec);
        proof {
            assert(record_views(out@) =~~= prev.take(k as int) + seq![rec@] + prev.skip(k as int));
            assert(orig.take(n + 1).drop_last() =~~= orig.take(n));
            assert(orig.take(n + 1).last() == orig[n]);
            assert(record_views(out@) =~~= sort_spec(orig.take(n + 1)));
        }
    }
    proof {
        assert(orig.take(orig.len() as int) =~~= orig);
    }
    out
}

} // verus!
