//! In-memory sorting by the comparison key, and the two-way and k-way merges.
use crate::record::{log_cmp, log_le, sorted_logs, views, GourceLogFormat, LogView};
use core::cmp::Ordering;
use vstd::multiset::Multiset;
use vstd::prelude::*;
use vstd::seq_lib::lemma_multiset_commutative;

verus! {

broadcast use vstd::seq_lib::group_to_multiset_ensures;

/// The stable merge of two sequences: on equal keys the left one goes first.
pub open spec fn merge_spec(a: Seq<LogView>, b: Seq<LogView>) -> Seq<LogView>
    decreases a.len() + b.len(),
{
    if a.len() == 0 {
        b
    } else if b.len() == 0 {
        a
    } else if log_le(a[0], b[0]) {
        seq![a[0]] + merge_spec(a.drop_first(), b)
    } else {
        seq![b[0]] + merge_spec(a, b.drop_first())
    }
}

/// Every element of `s` comes no earlier than `x`.
pub open spec fn all_after(x: LogView, s: Seq<LogView>) -> bool {
    forall|i: int| 0 <= i < s.len() ==> log_le(x, #[trigger] s[i])
}

proof fn lemma_cons_multiset(x: LogView, s: Seq<LogView>)
    ensures
        (seq![x] + s).to_multiset() == s.to_multiset().insert(x),
{
    lemma_multiset_commutative(seq![x], s);
    assert(seq![x] =~= Seq::<LogView>::empty().push(x));
}

proof fn lemma_split_first(s: Seq<LogView>)
    requires
        s.len() > 0,
    ensures
        s == seq![s[0]] + s.drop_first(),
        s.to_multiset() == s.drop_first().to_multiset().insert(s[0]),
{
    assert(s =~= seq![s[0]] + s.drop_first());
    lemma_cons_multiset(s[0], s.drop_first());
}

pub proof fn lemma_merge_multiset(a: Seq<LogView>, b: Seq<LogView>)
    ensures
        merge_spec(a, b).to_multiset() == a.to_multiset().add(b.to_multiset()),
    decreases a.len() + b.len(),
{
    if a.len() == 0 {
        assert(a.to_multiset() =~= Multiset::empty());
        assert(b.to_multiset().add(Multiset::empty()) =~= b.to_multiset());
    } else if b.len() == 0 {
        assert(b.to_multiset() =~= Multiset::empty());
        assert(a.to_multiset().add(Multiset::empty()) =~= a.to_multiset());
    } else if log_le(a[0], b[0]) {
        lemma_merge_multiset(a.drop_first(), b);
        lemma_split_first(a);
        lemma_cons_multiset(a[0], merge_spec(a.drop_first(), b));
        assert(merge_spec(a, b).to_multiset() =~= a.to_multiset().add(b.to_multiset()));
    } else {
        lemma_merge_multiset(a, b.drop_first());
        lemma_split_first(b);
        lemma_cons_multiset(b[0], merge_spec(a, b.drop_first()));
        assert(merge_spec(a, b).to_multiset() =~= a.to_multiset().add(b.to_multiset()));
    }
}

proof fn lemma_all_after_multiset(x: LogView, s: Seq<LogView>, t: Seq<LogView>)
    requires
        all_after(x, s),
        t.to_multiset().subset_of(s.to_multiset()),
    ensures
        all_after(x, t),
{
    assert forall|i: int| 0 <= i < t.len() implies log_le(x, #[trigger] t[i]) by {
        assert(t.contains(t[i]));
        assert(t.to_multiset().count(t[i]) > 0);
        assert(s.to_multiset().count(t[i]) > 0);
        assert(s.contains(t[i]));
        let k = choose|k: int| 0 <= k < s.len() && s[k] == t[i];
        assert(log_le(x, s[k]));
    }
}

proof fn lemma_cons_sorted(x: LogView, s: Seq<LogView>)
    requires
        sorted_logs(s),
        all_after(x, s),
    ensures
        sorted_logs(seq![x] + s),
{
    let t = seq![x] + s;
    assert forall|i: int, j: int| 0 <= i < j < t.len() implies log_le(
        #[trigger] t[i],
        #[trigger] t[j],
    ) by {
        if i == 0 {
            assert(t[j] == s[j - 1]);
        } else {
            assert(t[i] == s[i - 1] && t[j] == s[j - 1]);
        }
    }
}

proof fn lemma_sorted_head(s: Seq<LogView>, y: LogView)
    requires
        sorted_logs(s),
        s.len() > 0,
        log_le(y, s[0]),
    ensures
        all_after(y, s),
{
    assert forall|i: int| 0 <= i < s.len() implies log_le(y, #[trigger] s[i]) by {
        if i > 0 {
            crate::record::lemma_log_cmp_trans(y, s[0], s[i]);
        }
    }
}

pub proof fn lemma_merge_sorted(a: Seq<LogView>, b: Seq<LogView>)
    requires
        sorted_logs(a),
        sorted_logs(b),
    ensures
        sorted_logs(merge_spec(a, b)),
    decreases a.len() + b.len(),
{
    if a.len() > 0 && b.len() > 0 {
        crate::record::lemma_log_cmp_facts(a[0], b[0]);
        if log_le(a[0], b[0]) {
            let rest = merge_spec(a.drop_first(), b);
            assert(sorted_logs(a.drop_first()));
            lemma_merge_sorted(a.drop_first(), b);
            lemma_merge_multiset(a.drop_first(), b);
            let ab = a.drop_first() + b;
            lemma_multiset_commutative(a.drop_first(), b);
            lemma_sorted_head(b, a[0]);
            assert(all_after(a[0], ab)) by {
                assert forall|i: int| 0 <= i < ab.len() implies log_le(a[0], #[trigger] ab[i]) by {
                    if i < a.len() - 1 {
                        assert(ab[i] == a[i + 1]);
                    } else {
                        assert(ab[i] == b[i - (a.len() - 1)]);
                    }
                }
            }
            lemma_all_after_multiset(a[0], ab, rest);
            lemma_cons_sorted(a[0], rest);
        } else {
            let rest = merge_spec(a, b.drop_first());
            assert(sorted_logs(b.drop_first()));
            lemma_merge_sorted(a, b.drop_first());
            lemma_merge_multiset(a, b.drop_first());
            let ab = a + b.drop_first();
            lemma_multiset_commutative(a, b.drop_first());
            lemma_sorted_head(a, b[0]);
            assert(all_after(b[0], ab)) by {
                assert forall|i: int| 0 <= i < ab.len() implies log_le(b[0], #[trigger] ab[i]) by {
                    if i < a.len() {
                        assert(ab[i] == a[i]);
                    } else {
                        assert(ab[i] == b[i - a.len() + 1]);
                    }
                }
            }
            lemma_all_after_multiset(b[0], ab, rest);
            lemma_cons_sorted(b[0], rest);
        }
    }
}

/// Merges two sorted runs into one; on equal keys the record of `a` goes first.
pub fn merge_two(a: Vec<GourceLogFormat>, b: Vec<GourceLogFormat>) -> (r: Vec<GourceLogFormat>)
    ensures
        views(r@) == merge_spec(views(a@), views(b@)),
{
    let ghost va = views(a@);
    let ghost vb = views(b@);
    let mut out: Vec<GourceLogFormat> = Vec::new();
    let mut i: usize = 0;
    let mut j: usize = 0;
    assert(va.skip(0) =~= va);
    assert(vb.skip(0) =~= vb);
    while i < a.len() || j < b.len()
        invariant
            i <= a@.len(),
            j <= b@.len(),
            va == views(a@),
            vb == views(b@),
            views(out@) + merge_spec(va.skip(i as int), vb.skip(j as int)) == merge_spec(va, vb),
        decreases a.len() + b.len() - i - j,
    {
        let ghost sa = va.skip(i as int);
        let ghost sb = vb.skip(j as int);
        let take_a = if i >= a.len() {
            false
        } else if j >= b.len() {
            true
        } else {
            a[i].le_key(&b[j])
        };
        if take_a {
            out.push(a[i].duplicate());
            proof {
                assert(sa[0] == a@[i as int]@);
                assert(sa.drop_first() =~= va.skip(i + 1));
                if sb.len() == 0 {
                    assert(sa =~= seq![sa[0]] + sa.drop_first());
                }
            }
            i = i + 1;
        } else {
            out.push(b[j].duplicate());
            proof {
                assert(sb[0] == b@[j as int]@);
                assert(sb.drop_first() =~= vb.skip(j + 1));
                if sa.len() == 0 {
                    assert(sb =~= seq![sb[0]] + sb.drop_first());
                }
            }
            j = j + 1;
        }
        proof {
            let o = views(out@);
            assert(o =~= o.drop_last().push(o.last()));
        }
        assert(views(out@) + merge_spec(va.skip(i as int), vb.skip(j as int)) =~= merge_spec(
            va,
            vb,
        ));
    }
    assert(views(out@) =~= merge_spec(va, vb));
    out
}

fn sort_range(v: &Vec<GourceLogFormat>, lo: usize, hi: usize) -> (r: Vec<GourceLogFormat>)
    requires
        lo <= hi <= v@.len(),
    ensures
        sorted_logs(views(r@)),
        views(r@).to_multiset() == views(v@.subrange(lo as int, hi as int)).to_multiset(),
    decreases hi - lo,
{
    if hi - lo == 0 {
        let r: Vec<GourceLogFormat> = Vec::new();
        assert(views(r@) =~= views(v@.subrange(lo as int, hi as int)));
        r
    } else if hi - lo == 1 {
        let mut r: Vec<GourceLogFormat> = Vec::new();
        r.push(v[lo].duplicate());
        assert(views(r@) =~= views(v@.subrange(lo as int, hi as int)));
        r
    } else {
        let mid = lo + (hi - lo) / 2;
        let left = sort_range(v, lo, mid);
        let right = sort_range(v, mid, hi);
        let r = merge_two(left, right);
        proof {
            lemma_merge_sorted(views(left@), views(right@));
            lemma_merge_multiset(views(left@), views(right@));
            let whole = views(v@.subrange(lo as int, hi as int));
            let l = views(v@.subrange(lo as int, mid as int));
            let h = views(v@.subrange(mid as int, hi as int));
            assert(whole =~= l + h);
            lemma_multiset_commutative(l, h);
        }
        r
    }
}

/// Sorts records by the comparison key: the result is ordered and holds the
/// same records.
pub fn sort_records(v: &Vec<GourceLogFormat>) -> (r: Vec<GourceLogFormat>)
    ensures
        sorted_logs(views(r@)),
        views(r@).to_multiset() == views(v@).to_multiset(),
{
    let r = sort_range(v, 0, v.len());
    assert(v@.subrange(0, v@.len() as int) =~= v@);
    r
}

/// Picks the source whose current record comes first: the smallest head by the
/// key, and of equal heads the one of the lowest index. Nothing when every
/// source is exhausted.
pub fn select_min(heads: &Vec<Option<GourceLogFormat>>) -> (r: Option<usize>)
    ensures
        r is None <==> forall|j: int| 0 <= j < heads@.len() ==> (#[trigger] heads@[j]) is None,
        r matches Some(i) ==> i < heads@.len() && heads@[i as int] is Some && forall|j: int|
            0 <= j < heads@.len() && (#[trigger] heads@[j]) is Some ==> log_le(
                heads@[i as int]->Some_0@,
                heads@[j]->Some_0@,
            ) && (j < i ==> log_cmp(heads@[i as int]->Some_0@, heads@[j]->Some_0@)
                == Ordering::Less),
{
    let mut best: Option<usize> = None;
    let mut k: usize = 0;
    while k < heads.len()
        invariant
            k <= heads@.len(),
            best is None <==> forall|j: int| 0 <= j < k ==> (#[trigger] heads@[j]) is None,
            best matches Some(i) ==> i < k && heads@[i as int] is Some && forall|j: int|
                0 <= j < k && (#[trigger] heads@[j]) is Some ==> log_le(
                    heads@[i as int]->Some_0@,
                    heads@[j]->Some_0@,
                ) && (j < i ==> log_cmp(heads@[i as int]->Some_0@, heads@[j]->Some_0@)
                    == Ordering::Less),
        decreases heads.len() - k,
    {
        match &heads[k] {
            None => {},
            Some(h) => {
                match best {
                    None => {
                        proof {
                            crate::record::lemma_log_cmp_facts(h@, h@);
                        }
                        best = Some(k);
                    },
                    Some(i) => {
                        let c = match &heads[i] {
                            Some(b) => h.cmp_key(b),
                            None => Ordering::Greater,
                        };
                        match c {
                            Ordering::Less => {
                                proof {
                                    let hb = heads@[i as int]->Some_0@;
                                    crate::record::lemma_log_cmp_facts(h@, hb);
                                    crate::record::lemma_log_cmp_facts(h@, h@);
                                    assert forall|j: int|
                                        0 <= j < k + 1 && (#[trigger] heads@[j]) is Some implies log_le(
                                        h@,
                                        heads@[j]->Some_0@,
                                    ) && (j < k ==> log_cmp(h@, heads@[j]->Some_0@)
                                        == Ordering::Less) by {
                                        if j < k {
                                            let hj = heads@[j]->Some_0@;
                                            crate::record::lemma_log_cmp_facts(h@, hj);
                                            crate::record::lemma_log_cmp_facts(hb, hj);
                                            crate::record::lemma_log_cmp_trans(h@, hb, hj);
                                            if log_cmp(h@, hj) == Ordering::Equal {
                                                assert(h@ == hj);
                                            }
                                        }
                                    }
                                }
                                best = Some(k);
                            },
                            _ => {
                                proof {
                                    let hb = heads@[i as int]->Some_0@;
                                    crate::record::lemma_log_cmp_facts(h@, hb);
                                }
                            },
                        }
                    },
                }
            },
        }
        k = k + 1;
    }
    best
}

/// Advances source `i` of a merge: hands back its current head and puts
/// `next`, that source's following record, in its place.
pub fn take_head(
    heads: &mut Vec<Option<GourceLogFormat>>,
    i: usize,
    next: Option<GourceLogFormat>,
) -> (r: Option<GourceLogFormat>)
    requires
        i < old(heads)@.len(),
    ensures
        final(heads)@ == old(heads)@.update(i as int, next),
        r is Some <==> old(heads)@[i as int] is Some,
        r matches Some(x) ==> x@ == old(heads)@[i as int]->Some_0@,
{
    let r = match &heads[i] {
        Some(h) => Some(h.duplicate()),
        None => None,
    };
    heads.set(i, next);
    r
}

} // verus!
