use vstd::prelude::*;

use crate::tal_parse::ann_views;
use crate::types::{Annotation, AnnotationView};

verus! {

broadcast use vstd::seq_lib::group_seq_properties, vstd::seq_lib::group_to_multiset_ensures;

/// `x` placed after every element whose onset is not later than its own.
pub open spec fn insert_by_onset(s: Seq<AnnotationView>, x: AnnotationView) -> Seq<AnnotationView>
    decreases s.len(),
{
    if s.len() == 0 {
        seq![x]
    } else if s[s.len() - 1].onset <= x.onset {
        s.push(x)
    } else {
        insert_by_onset(s.subrange(0, s.len() - 1), x).push(s[s.len() - 1])
    }
}

/// The annotations ordered by onset; equal onsets keep their order.
pub open spec fn sort_by_onset(s: Seq<AnnotationView>) -> Seq<AnnotationView>
    decreases s.len(),
{
    if s.len() == 0 {
        Seq::empty()
    } else {
        insert_by_onset(sort_by_onset(s.subrange(0, s.len() - 1)), s[s.len() - 1])
    }
}

pub open spec fn onset_sorted(s: Seq<AnnotationView>) -> bool {
    forall|i: int, j: int| 0 <= i <= j < s.len() ==> #[trigger] s[i].onset <= #[trigger] s[j].onset
}

proof fn lemma_insert_shape(s: Seq<AnnotationView>, x: AnnotationView, j: int)
    requires
        0 <= j <= s.len(),
        forall|k: int| j <= k < s.len() ==> #[trigger] s[k].onset > x.onset,
        j > 0 ==> s[j - 1].onset <= x.onset,
    ensures
        insert_by_onset(s, x) == s.subrange(0, j) + seq![x] + s.subrange(j, s.len() as int),
    decreases s.len(),
{
    if s.len() == 0 {
        assert(seq![x] =~= s.subrange(0, j) + seq![x] + s.subrange(j, s.len() as int));
    } else if s[s.len() - 1].onset <= x.onset {
        assert(j == s.len());
        assert(s.push(x) =~= s.subrange(0, j) + seq![x] + s.subrange(j, s.len() as int));
    } else {
        let t = s.subrange(0, s.len() - 1);
        lemma_insert_shape(t, x, j);
        assert(insert_by_onset(t, x).push(s[s.len() - 1]) =~= s.subrange(0, j) + seq![x]
            + s.subrange(j, s.len() as int));
    }
}

proof fn lemma_insert_sorted(s: Seq<AnnotationView>, x: AnnotationView)
    requires
        onset_sorted(s),
    ensures
        onset_sorted(insert_by_onset(s, x)),
        insert_by_onset(s, x).to_multiset() == s.to_multiset().insert(x),
    decreases s.len(),
{
    if s.len() == 0 {
        assert(seq![x].to_multiset() =~= s.to_multiset().insert(x));
    } else if s[s.len() - 1].onset <= x.onset {
        assert(s.push(x).to_multiset() =~= s.to_multiset().insert(x));
    } else {
        let t = s.subrange(0, s.len() - 1);
        let l = s[s.len() - 1];
        lemma_insert_sorted(t, x);
        let u = insert_by_onset(t, x);
        assert forall|i: int, j: int| 0 <= i <= j < u.push(l).len() implies #[trigger] u.push(
            l,
        )[i].onset <= #[trigger] u.push(l)[j].onset by {
            if j == u.len() {
                if i < u.len() {
                    assert(u.to_multiset().contains(u[i]));
                    assert(t.to_multiset().insert(x).contains(u[i]));
                    if u[i] != x {
                        assert(t.to_multiset().contains(u[i]));
                                    let k = choose|k: int| 0 <= k < t.len() && t[k] == u[i];
                        assert(s[k] == t[k]);
                    }
                }
            }
        }
        assert(s =~= t.push(l));
        assert(u.push(l).to_multiset() =~= s.to_multiset().insert(x));
    }
}

/// The annotations, sorted: ordered by onset, and holding exactly what went in.
pub proof fn lemma_sort_by_onset(s: Seq<AnnotationView>)
    ensures
        onset_sorted(sort_by_onset(s)),
        sort_by_onset(s).to_multiset() == s.to_multiset(),
    decreases s.len(),
{
    if s.len() == 0 {
    } else {
        let t = s.subrange(0, s.len() - 1);
        lemma_sort_by_onset(t);
        lemma_insert_sorted(sort_by_onset(t), s[s.len() - 1]);
        assert(s =~= t.push(s[s.len() - 1]));
    }
}

/// Orders annotations by onset, keeping the order of equal onsets.
pub fn sort_annotations(input: Vec<Annotation>) -> (r: Vec<Annotation>)
    ensures
        ann_views(r@) == sort_by_onset(ann_views(input@)),
        onset_sorted(ann_views(r@)),
{
    let ghost all = ann_views(input@);
    let mut rest = input;
    let mut out: Vec<Annotation> = Vec::new();
    let ghost taken: int = 0;
    assert(ann_views(out@) =~= sort_by_onset(all.subrange(0, 0)));
    while rest.len() > 0
        invariant
            0 <= taken <= all.len(),
            ann_views(rest@) == all.subrange(taken, all.len() as int),
            ann_views(out@) == sort_by_onset(all.subrange(0, taken)),
        decreases rest@.len(),
    {
        let ghost rest_before = rest@;
        assert(ann_views(rest_before).len() == rest_before.len());
        assert(taken < all.len());
        let x = rest.remove(0);
        let ghost xv = x@;
        assert(xv == all[taken]) by {
            assert(x == rest_before[0]);
            assert(ann_views(rest_before)[0] == x@);
            assert(all.subrange(taken, all.len() as int)[0] == all[taken]);
        }
        proof {
            lemma_sort_by_onset(all.subrange(0, taken));
        }
        let ghost before = ann_views(out@);
        let mut j: usize = out.len();
        while j > 0 && out[j - 1].onset > x.onset
            invariant
                j <= out@.len(),
                before == ann_views(out@),
                forall|k: int| j <= k < out@.len() ==> #[trigger] out@[k].onset > x.onset,
            decreases j,
        {
            j -= 1;
        }
        proof {
            assert forall|k: int| j <= k < before.len() implies #[trigger] before[k].onset
                > xv.onset by {
                assert(before[k] == out@[k]@);
            }
            if j > 0 {
                assert(before[j - 1] == out@[j - 1]@);
            }
            lemma_insert_shape(before, xv, j as int);
        }
        out.insert(j, x);
        proof {
            assert(ann_views(out@) =~= before.subrange(0, j as int) + seq![xv] + before.subrange(
                j as int,
                before.len() as int,
            ));
            let nt = taken + 1;
            assert(all.subrange(0, nt).subrange(0, taken) =~= all.subrange(0, taken));
            assert(all.subrange(0, nt)[taken] == xv);
            taken = nt;
            assert(rest@ =~= rest_before.subrange(1, rest_before.len() as int));
            assert forall|i: int| 0 <= i < rest@.len() implies ann_views(rest@)[i] == all.subrange(
                taken,
                all.len() as int,
            )[i] by {
                assert(rest@[i] == rest_before[i + 1]);
                assert(ann_views(rest_before)[i + 1] == all.subrange(taken - 1, all.len() as int)[i
                    + 1]);
            }
            assert(ann_views(rest@) =~= all.subrange(taken, all.len() as int));
        }
    }
    proof {
        assert(all.subrange(0, taken) =~= all);
        lemma_sort_by_onset(all);
    }
    out
}

} // verus!
