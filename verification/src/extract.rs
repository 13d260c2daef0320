//! Extraction: keep the complete entries of a parsed channel, project them
//! to items, and order them by title with a stable sort.

use vstd::prelude::*;
use vstd::multiset::Multiset;
use vstd::seq_lib::lemma_multiset_commutative;

use crate::feed::{FeedItem, FeedItemView, RawEntry, RawEntryView, items_view, entries_view};
use crate::order::{
    lex_leq, lemma_lex_refl, lemma_lex_total, lemma_lex_trans, str_leq,
};

verus! {

broadcast use vstd::seq_lib::group_to_multiset_ensures;

/// A raw entry is complete when both its title and its enclosure URL are
/// present.
pub open spec fn complete(e: RawEntryView) -> bool {
    e.title is Some && e.url is Some
}

/// The item a complete raw entry projects to.
pub open spec fn project(e: RawEntryView) -> FeedItemView {
    FeedItemView {
        title: match e.title {
            Some(t) => t,
            None => Seq::empty(),
        },
        url: match e.url {
            Some(u) => u,
            None => Seq::empty(),
        },
    }
}

/// The complete entries of `s`, projected to items, in input order.
pub open spec fn projections(s: Seq<RawEntryView>) -> Seq<FeedItemView>
    decreases s.len(),
{
    if s.len() == 0 {
        Seq::empty()
    } else {
        projections(s.drop_last()) + (if complete(s.last()) {
            seq![project(s.last())]
        } else {
            Seq::empty()
        })
    }
}

/// Insertion of `x` into `s` after every element whose title is at most the
/// title of `x`: the step of a stable insertion sort.
pub open spec fn insert_sorted(x: FeedItemView, s: Seq<FeedItemView>) -> Seq<FeedItemView>
    decreases s.len(),
{
    if s.len() == 0 {
        seq![x]
    } else if lex_leq(s[0].title, x.title) {
        seq![s[0]] + insert_sorted(x, s.drop_first())
    } else {
        seq![x] + s
    }
}

/// The position `insert_sorted` places `x` at.
spec fn ins_idx(x: FeedItemView, s: Seq<FeedItemView>) -> int
    decreases s.len(),
{
    if s.len() == 0 {
        0
    } else if lex_leq(s[0].title, x.title) {
        1 + ins_idx(x, s.drop_first())
    } else {
        0
    }
}

/// Stable insertion sort of items by title.
pub open spec fn sort_by_title(s: Seq<FeedItemView>) -> Seq<FeedItemView>
    decreases s.len(),
{
    if s.len() == 0 {
        Seq::empty()
    } else {
        insert_sorted(s.last(), sort_by_title(s.drop_last()))
    }
}

/// The items are in ascending title order.
pub open spec fn sorted_by_title(s: Seq<FeedItemView>) -> bool {
    forall|i: int, j: int| 0 <= i <= j < s.len() ==> lex_leq(s[i].title, s[j].title)
}

/// The subsequence of `s` whose items carry the title `t`, in order.
pub open spec fn with_title(s: Seq<FeedItemView>, t: Seq<char>) -> Seq<FeedItemView>
    decreases s.len(),
{
    if s.len() == 0 {
        Seq::empty()
    } else {
        with_title(s.drop_last(), t) + (if s.last().title == t {
            seq![s.last()]
        } else {
            Seq::empty()
        })
    }
}

proof fn lemma_insert_decomp(x: FeedItemView, s: Seq<FeedItemView>)
    ensures
        0 <= ins_idx(x, s) <= s.len(),
        forall|j: int| 0 <= j < ins_idx(x, s) ==> lex_leq(#[trigger] s[j].title, x.title),
        ins_idx(x, s) < s.len() ==> !lex_leq(s[ins_idx(x, s)].title, x.title),
        insert_sorted(x, s) == s.take(ins_idx(x, s)) + seq![x] + s.skip(ins_idx(x, s)),
    decreases s.len(),
{
    if s.len() == 0 {
        assert(insert_sorted(x, s) =~= s.take(0) + seq![x] + s.skip(0));
    } else if lex_leq(s[0].title, x.title) {
        let d = s.drop_first();
        lemma_insert_decomp(x, d);
        let i = ins_idx(x, d);
        assert(s.take(i + 1) =~= seq![s[0]] + d.take(i));
        assert(s.skip(i + 1) =~= d.skip(i));
        assert(insert_sorted(x, s) =~= s.take(i + 1) + seq![x] + s.skip(i + 1));
        assert forall|j: int| 0 <= j < ins_idx(x, s) implies lex_leq(
            #[trigger] s[j].title,
            x.title,
        ) by {
            if j > 0 {
                assert(s[j] == d[j - 1]);
            }
        }
    } else {
        assert(insert_sorted(x, s) =~= s.take(0) + seq![x] + s.skip(0));
    }
}

proof fn lemma_insert_sorted_sorted(x: FeedItemView, s: Seq<FeedItemView>)
    requires
        sorted_by_title(s),
    ensures
        sorted_by_title(insert_sorted(x, s)),
{
    lemma_insert_decomp(x, s);
    let i = ins_idx(x, s);
    let r = insert_sorted(x, s);
    if i < s.len() {
        lemma_lex_total(s[i].title, x.title);
    }
    assert forall|a: int, b: int| 0 <= a <= b < r.len() implies lex_leq(
        r[a].title,
        r[b].title,
    ) by {
        if a < i {
            assert(r[a] == s[a]);
        }
        if a > i {
            assert(r[a] == s[a - 1]);
        }
        if b < i {
            assert(r[b] == s[b]);
        }
        if b > i {
            assert(r[b] == s[b - 1]);
        }
        if a == b {
            lemma_lex_refl(r[a].title);
        } else if b < i || a > i {
            // both from s, indices in order
        } else if a < i && b == i {
            // r[b] == x and s[a] precedes x
        } else if a == i && b > i {
            // r[a] == x, x precedes s[i], s[i] is at most s[b-1]
            lemma_lex_trans(x.title, s[i].title, s[b - 1].title);
        } else if a < i && b > i {
            // both from s
        }
    }
}

proof fn lemma_insert_sorted_multiset(x: FeedItemView, s: Seq<FeedItemView>)
    ensures
        insert_sorted(x, s).to_multiset() == s.to_multiset().insert(x),
{
    lemma_insert_decomp(x, s);
    let i = ins_idx(x, s);
    lemma_multiset_commutative(s.take(i) + seq![x], s.skip(i));
    lemma_multiset_commutative(s.take(i), seq![x]);
    lemma_multiset_commutative(s.take(i), s.skip(i));
    assert(s.take(i) + s.skip(i) =~= s);
    assert(seq![x].to_multiset() =~= Multiset::empty().insert(x)) by {
        assert(seq![x] =~= Seq::<FeedItemView>::empty().push(x));
        assert(Seq::<FeedItemView>::empty().to_multiset() =~= Multiset::<FeedItemView>::empty());
    }
    assert(insert_sorted(x, s).to_multiset() =~= s.to_multiset().insert(x));
}

proof fn lemma_with_title_concat(u: Seq<FeedItemView>, v: Seq<FeedItemView>, t: Seq<char>)
    ensures
        with_title(u + v, t) == with_title(u, t) + with_title(v, t),
    decreases v.len(),
{
    if v.len() == 0 {
        assert(u + v =~= u);
        assert(with_title(u, t) + with_title(v, t) =~= with_title(u, t));
    } else {
        assert((u + v).drop_last() =~= u + v.drop_last());
        assert((u + v).last() == v.last());
        lemma_with_title_concat(u, v.drop_last(), t);
        assert(with_title(u, t) + with_title(v, t) =~= with_title(u, t) + (with_title(
            v.drop_last(),
            t,
        ) + (if v.last().title == t {
            seq![v.last()]
        } else {
            Seq::<FeedItemView>::empty()
        })));
    }
}

proof fn lemma_with_title_absent(s: Seq<FeedItemView>, t: Seq<char>)
    requires
        forall|j: int| 0 <= j < s.len() ==> (#[trigger] s[j].title) != t,
    ensures
        with_title(s, t) == Seq::<FeedItemView>::empty(),
    decreases s.len(),
{
    if s.len() > 0 {
        lemma_with_title_absent(s.drop_last(), t);
        assert(with_title(s, t) =~= Seq::<FeedItemView>::empty());
    }
}

proof fn lemma_with_title_insert(x: FeedItemView, s: Seq<FeedItemView>, t: Seq<char>)
    requires
        sorted_by_title(s),
    ensures
        with_title(insert_sorted(x, s), t) == with_title(s, t) + (if x.title == t {
            seq![x]
        } else {
            Seq::<FeedItemView>::empty()
        }),
{
    lemma_insert_decomp(x, s);
    let i = ins_idx(x, s);
    let pre = s.take(i);
    let post = s.skip(i);
    lemma_with_title_concat(pre + seq![x], post, t);
    lemma_with_title_concat(pre, seq![x], t);
    lemma_with_title_concat(pre, post, t);
    assert(pre + post =~= s);
    assert(with_title(seq![x], t) == (if x.title == t {
        seq![x]
    } else {
        Seq::<FeedItemView>::empty()
    })) by {
        assert(seq![x].drop_last() =~= Seq::<FeedItemView>::empty());
        assert(with_title(seq![x].drop_last(), t) == Seq::<FeedItemView>::empty());
        assert(seq![x].last() == x);
        assert(with_title(seq![x], t) =~= Seq::<FeedItemView>::empty() + (if x.title == t {
            seq![x]
        } else {
            Seq::<FeedItemView>::empty()
        }));
        assert(Seq::<FeedItemView>::empty() + (if x.title == t {
            seq![x]
        } else {
            Seq::<FeedItemView>::empty()
        }) =~= (if x.title == t {
            seq![x]
        } else {
            Seq::<FeedItemView>::empty()
        }));
    }
    if x.title == t {
        // no element at or after the insertion point carries the title of x
        assert forall|j: int| 0 <= j < post.len() implies (#[trigger] post[j].title) != t by {
            if post[j].title == t {
                assert(post[j] == s[i + j]);
                assert(lex_leq(s[i].title, s[i + j].title));
                lemma_lex_refl(x.title);
                lemma_lex_trans(s[i].title, s[i + j].title, x.title);
            }
        }
        lemma_with_title_absent(post, t);
        assert(with_title(insert_sorted(x, s), t) =~= with_title(s, t) + seq![x]);
    } else {
        assert(with_title(insert_sorted(x, s), t) =~= with_title(s, t));
    }
}

/// The sorted sequence is in ascending title order.
pub proof fn lemma_sort_sorted(s: Seq<FeedItemView>)
    ensures
        sorted_by_title(sort_by_title(s)),
    decreases s.len(),
{
    if s.len() > 0 {
        lemma_sort_sorted(s.drop_last());
        lemma_insert_sorted_sorted(s.last(), sort_by_title(s.drop_last()));
    }
}

/// The sort permutes its input: no item appears or disappears.
pub proof fn lemma_sort_permutation(s: Seq<FeedItemView>)
    ensures
        sort_by_title(s).to_multiset() == s.to_multiset(),
    decreases s.len(),
{
    if s.len() > 0 {
        lemma_sort_permutation(s.drop_last());
        lemma_insert_sorted_multiset(s.last(), sort_by_title(s.drop_last()));
        assert(s.drop_last().push(s.last()) =~= s);
        assert(s.drop_last().push(s.last()).to_multiset() =~= s.drop_last().to_multiset().insert(
            s.last(),
        ));
    }
}

/// The sort is stable: items that share a title keep their input order.
pub proof fn lemma_sort_stable(s: Seq<FeedItemView>, t: Seq<char>)
    ensures
        with_title(sort_by_title(s), t) == with_title(s, t),
    decreases s.len(),
{
    if s.len() > 0 {
        lemma_sort_stable(s.drop_last(), t);
        lemma_sort_sorted(s.drop_last());
        lemma_with_title_insert(s.last(), sort_by_title(s.drop_last()), t);
    }
}

proof fn lemma_projections_contains(raw: Seq<RawEntryView>, x: FeedItemView)
    ensures
        projections(raw).contains(x) <==> exists|i: int|
            0 <= i < raw.len() && complete(#[trigger] raw[i]) && project(raw[i]) == x,
    decreases raw.len(),
{
    if raw.len() > 0 {
        let d = raw.drop_last();
        lemma_projections_contains(d, x);
        let p = projections(raw);
        let pd = projections(d);
        if complete(raw.last()) && project(raw.last()) == x {
            assert(p[p.len() - 1] == x);
            assert(p.contains(x));
            assert(complete(raw[raw.len() - 1]) && project(raw[raw.len() - 1]) == x);
        } else if p.contains(x) {
            let k = choose|k: int| 0 <= k < p.len() && p[k] == x;
            assert(k < pd.len());
            assert(pd[k] == x);
            assert(pd.contains(x));
            let i = choose|i: int| 0 <= i < d.len() && complete(#[trigger] d[i]) && project(d[i])
                == x;
            assert(complete(raw[i]) && project(raw[i]) == x);
        } else if exists|i: int|
            0 <= i < raw.len() && complete(#[trigger] raw[i]) && project(raw[i]) == x {
            let i = choose|i: int|
                0 <= i < raw.len() && complete(#[trigger] raw[i]) && project(raw[i]) == x;
            assert(i < d.len());
            assert(complete(d[i]) && project(d[i]) == x);
            assert(pd.contains(x));
            let k = choose|k: int| 0 <= k < pd.len() && pd[k] == x;
            assert(p[k] == x);
            assert(p.contains(x));
        }
    }
}

/// Extraction keeps exactly the complete entries: an item stands in the
/// extracted sequence precisely when some entry with a present title and a
/// present enclosure URL projects to it.
pub proof fn lemma_extract_exact(raw: Seq<RawEntryView>, x: FeedItemView)
    ensures
        sort_by_title(projections(raw)).contains(x) <==> exists|i: int|
            0 <= i < raw.len() && complete(#[trigger] raw[i]) && project(raw[i]) == x,
{
    lemma_sort_permutation(projections(raw));
    lemma_projections_contains(raw, x);
    if sort_by_title(projections(raw)).contains(x) {
        assert(projections(raw).to_multiset().count(x) > 0);
    }
    if projections(raw).contains(x) {
        assert(sort_by_title(projections(raw)).to_multiset().count(x) > 0);
    }
}

/// Extraction orders the items by title under a stable total order: the
/// result is sorted, and entries that share a title keep their input order.
pub proof fn lemma_extract_sorted_stable(raw: Seq<RawEntryView>, t: Seq<char>)
    ensures
        sorted_by_title(sort_by_title(projections(raw))),
        with_title(sort_by_title(projections(raw)), t) == with_title(projections(raw), t),
{
    lemma_sort_sorted(projections(raw));
    lemma_sort_stable(projections(raw), t);
}

fn insert_item(out: &mut Vec<FeedItem>, item: FeedItem)
    ensures
        items_view(final(out)@) == insert_sorted(item@, items_view(old(out)@)),
{
    let ghost v = items_view(out@);
    let mut idx: usize = 0;
    while idx < out.len() && str_leq(out[idx].title.as_str(), item.title.as_str())
        invariant
            out@ == old(out)@,
            v == items_view(out@),
            idx <= out.len(),
            forall|j: int| 0 <= j < idx ==> lex_leq(#[trigger] v[j].title, item@.title),
        decreases out.len() - idx,
    {
        idx = idx + 1;
    }
    proof {
        lemma_insert_decomp(item@, v);
        let i = ins_idx(item@, v);
        if i < idx {
            assert(lex_leq(v[i].title, item@.title));
        }
        if (idx as int) < i {
            assert(lex_leq(v[idx as int].title, item@.title));
        }
        assert(i == idx as int);
    }
    out.insert(idx, item);
    proof {
        assert(items_view(out@) =~= v.take(idx as int) + seq![item@] + v.skip(idx as int));
    }
}

proof fn lemma_projections_len(s: Seq<RawEntryView>)
    ensures
        projections(s).len() <= s.len(),
    decreases s.len(),
{
    if s.len() > 0 {
        lemma_projections_len(s.drop_last());
    }
}

/// How many entries extraction drops: those lacking a title or an
/// enclosure URL, so that the silent filtering stays observable.
pub fn rejected_count(entries: &Vec<RawEntry>) -> (r: usize)
    ensures
        r == entries@.len() - projections(entries_view(entries@)).len(),
{
    let ghost ev = entries_view(entries@);
    let n = entries.len();
    let mut count: usize = 0;
    proof {
        assert(ev.take(0) =~= Seq::<RawEntryView>::empty());
    }
    let mut i: usize = 0;
    while i < n
        invariant
            n == entries.len(),
            ev == entries_view(entries@),
            i <= n,
            count == i - projections(ev.take(i as int)).len(),
        decreases n - i,
    {
        let dropped = match (&entries[i].title, &entries[i].url) {
            (Some(_), Some(_)) => false,
            _ => true,
        };
        if dropped {
            count = count + 1;
        }
        proof {
            assert(dropped == !complete(ev[i as int]));
            let p = ev.take(i + 1);
            assert(p.drop_last() =~= ev.take(i as int));
            assert(p.last() == ev[i as int]);
            lemma_projections_len(ev.take(i as int));
        }
        i = i + 1;
    }
    proof {
        assert(ev.take(n as int) =~= ev);
    }
    count
}

/// Extracts the downloadable items of a channel: keeps exactly the entries
/// with a present title and a present enclosure URL, and yields them sorted
/// by title under a stable total order.
pub fn get_items(entries: &Vec<RawEntry>) -> (r: Vec<FeedItem>)
    ensures
        items_view(r@) == sort_by_title(projections(entries_view(entries@))),
{
    let ghost ev = entries_view(entries@);
    let mut out: Vec<FeedItem> = Vec::new();
    let n = entries.len();
    proof {
        assert(ev.take(0) =~= Seq::<RawEntryView>::empty());
        assert(items_view(out@) =~= Seq::<FeedItemView>::empty());
    }
    let mut i: usize = 0;
    while i < n
        invariant
            n == entries.len(),
            ev == entries_view(entries@),
            i <= n,
            items_view(out@) == sort_by_title(projections(ev.take(i as int))),
        decreases n - i,
    {
        let ghost prev = items_view(out@);
        match (&entries[i].title, &entries[i].url) {
            (Some(t), Some(u)) => {
                let item = FeedItem { title: t.clone(), url: u.clone() };
                proof {
                    assert(complete(ev[i as int]));
                    assert(item@ == project(ev[i as int]));
                }
                insert_item(&mut out, item);
            },
            _ => {
                proof {
                    assert(!complete(ev[i as int]));
                }
            },
        }
        proof {
            let p = ev.take(i + 1);
            assert(p.drop_last() =~= ev.take(i as int));
            assert(p.last() == ev[i as int]);
            if complete(ev[i as int]) {
                let q = projections(ev.take(i as int)).push(project(ev[i as int]));
                assert(projections(p) =~= q);
                assert(q.drop_last() =~= projections(ev.take(i as int)));
                assert(sort_by_title(q) == insert_sorted(
                    project(ev[i as int]),
                    sort_by_title(projections(ev.take(i as int))),
                ));
            } else {
                assert(projections(p) =~= projections(ev.take(i as int)));
            }
        }
        i = i + 1;
    }
    proof {
        assert(ev.take(n as int) =~= ev);
    }
    out
}

} // verus!
