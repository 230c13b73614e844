use vstd::prelude::*;

use crate::model::{models_view, ModelInfo, ModelView};
use crate::text::chars_of;

verus! {

// ---------------------------------------------------------------------------
// The order of strings
// ---------------------------------------------------------------------------

/// `a <= b` in the order of `String`: lexicographic by code point (which is
/// the byte order of their UTF-8).
pub open spec fn text_le(a: Seq<char>, b: Seq<char>) -> bool
    decreases a.len(),
{
    if a.len() == 0 {
        true
    } else if b.len() == 0 {
        false
    } else if a[0] != b[0] {
        a[0] < b[0]
    } else {
        text_le(a.drop_first(), b.drop_first())
    }
}

pub proof fn lemma_text_le_reflexive(a: Seq<char>)
    ensures
        text_le(a, a),
    decreases a.len(),
{
    if a.len() > 0 {
        lemma_text_le_reflexive(a.drop_first());
    }
}

pub proof fn lemma_text_le_total(a: Seq<char>, b: Seq<char>)
    ensures
        text_le(a, b) || text_le(b, a),
    decreases a.len(),
{
    if a.len() > 0 && b.len() > 0 && a[0] == b[0] {
        lemma_text_le_total(a.drop_first(), b.drop_first());
    }
}

pub proof fn lemma_text_le_antisymmetric(a: Seq<char>, b: Seq<char>)
    requires
        text_le(a, b),
        text_le(b, a),
    ensures
        a == b,
    decreases a.len(),
{
    if a.len() > 0 && b.len() > 0 {
        lemma_text_le_antisymmetric(a.drop_first(), b.drop_first());
        assert(a =~= seq![a[0]] + a.drop_first());
        assert(b =~= seq![b[0]] + b.drop_first());
    } else {
        assert(a =~= b);
    }
}

pub proof fn lemma_text_le_transitive(a: Seq<char>, b: Seq<char>, c: Seq<char>)
    requires
        text_le(a, b),
        text_le(b, c),
    ensures
        text_le(a, c),
    decreases a.len(),
{
    if a.len() > 0 && b.len() > 0 && c.len() > 0 && a[0] == b[0] && b[0] == c[0] {
        lemma_text_le_transitive(a.drop_first(), b.drop_first(), c.drop_first());
    }
}

/// `text_le` on characters.
pub fn text_le_chars(a: &Vec<char>, b: &Vec<char>) -> (r: bool)
    ensures
        r == text_le(a@, b@),
{
    let mut i: usize = 0;
    assert(a@.skip(0) =~= a@);
    assert(b@.skip(0) =~= b@);
    while i < a.len() && i < b.len() && a[i] == b[i]
        invariant
            i <= a@.len(),
            i <= b@.len(),
            text_le(a@, b@) == text_le(a@.skip(i as int), b@.skip(i as int)),
        decreases a.len() - i,
    {
        assert(a@.skip(i as int).drop_first() =~= a@.skip(i + 1));
        assert(b@.skip(i as int).drop_first() =~= b@.skip(i + 1));
        i = i + 1;
    }
    if i == a.len() {
        true
    } else if i == b.len() {
        false
    } else {
        a[i] < b[i]
    }
}

// ---------------------------------------------------------------------------
// The orders of models
// ---------------------------------------------------------------------------

/// The two orders that the inventory is sorted in.
#[derive(Clone, Copy, Debug, PartialEq, Eq, Structural)]
pub enum SortOrder {
    /// By name.
    ByName,
    /// By provider, then by name.
    ByProviderThenName,
}

/// `a` may come before `b` in the order `o`.
pub open spec fn model_le(o: SortOrder, a: ModelView, b: ModelView) -> bool {
    match o {
        SortOrder::ByName => text_le(a.name, b.name),
        SortOrder::ByProviderThenName => if a.provider == b.provider {
            text_le(a.name, b.name)
        } else {
            text_le(a.provider, b.provider)
        },
    }
}

/// `a` and `b` have the same sort key in the order `o`.
pub open spec fn same_key(o: SortOrder, a: ModelView, b: ModelView) -> bool {
    match o {
        SortOrder::ByName => a.name == b.name,
        SortOrder::ByProviderThenName => a.provider == b.provider && a.name == b.name,
    }
}

/// The models of `s` whose sort key in the order `o` is that of `k`, in the
/// order of `s`.
pub open spec fn with_key(s: Seq<ModelView>, o: SortOrder, k: ModelView) -> Seq<ModelView>
    decreases s.len(),
{
    if s.len() == 0 {
        seq![]
    } else if same_key(o, s.last(), k) {
        with_key(s.drop_last(), o, k).push(s.last())
    } else {
        with_key(s.drop_last(), o, k)
    }
}

/// `s` is in the order `o`.
pub open spec fn sorted_by(o: SortOrder, s: Seq<ModelView>) -> bool {
    forall|i: int, j: int| 0 <= i < j < s.len() ==> model_le(o, #[trigger] s[i], #[trigger] s[j])
}

/// `out` is `inp` sorted stably in the order `o`: it is in that order, and
/// the models of each sort key come in the order they had in `inp`.
pub open spec fn stably_sorted(o: SortOrder, out: Seq<ModelView>, inp: Seq<ModelView>) -> bool {
    &&& out.len() == inp.len()
    &&& sorted_by(o, out)
    &&& forall|k: ModelView| #[trigger] with_key(out, o, k) == with_key(inp, o, k)
}

pub proof fn lemma_model_le_total(o: SortOrder, a: ModelView, b: ModelView)
    ensures
        model_le(o, a, b) || model_le(o, b, a),
{
    lemma_text_le_total(a.name, b.name);
    lemma_text_le_total(a.provider, b.provider);
}

pub proof fn lemma_model_le_transitive(o: SortOrder, a: ModelView, b: ModelView, c: ModelView)
    requires
        model_le(o, a, b),
        model_le(o, b, c),
    ensures
        model_le(o, a, c),
{
    match o {
        SortOrder::ByName => {
            lemma_text_le_transitive(a.name, b.name, c.name);
        },
        SortOrder::ByProviderThenName => {
            if a.provider == b.provider && b.provider == c.provider {
                lemma_text_le_transitive(a.name, b.name, c.name);
            } else if a.provider != b.provider && b.provider != c.provider {
                if a.provider == c.provider {
                    lemma_text_le_antisymmetric(a.provider, b.provider);
                } else {
                    lemma_text_le_transitive(a.provider, b.provider, c.provider);
                }
            }
        },
    }
}

pub proof fn lemma_same_key_le(o: SortOrder, a: ModelView, b: ModelView)
    requires
        same_key(o, a, b),
    ensures
        model_le(o, a, b),
{
    lemma_text_le_reflexive(a.name);
}

pub proof fn lemma_le_both_same_key(o: SortOrder, a: ModelView, b: ModelView)
    requires
        model_le(o, a, b),
        model_le(o, b, a),
    ensures
        same_key(o, a, b),
{
    match o {
        SortOrder::ByName => {
            lemma_text_le_antisymmetric(a.name, b.name);
        },
        SortOrder::ByProviderThenName => {
            if a.provider != b.provider {
                lemma_text_le_antisymmetric(a.provider, b.provider);
            }
            lemma_text_le_antisymmetric(a.name, b.name);
        },
    }
}

pub proof fn lemma_with_key_append(s: Seq<ModelView>, t: Seq<ModelView>, o: SortOrder, k: ModelView)
    ensures
        with_key(s + t, o, k) == with_key(s, o, k) + with_key(t, o, k),
    decreases t.len(),
{
    if t.len() == 0 {
        assert(s + t =~= s);
        assert(with_key(s, o, k) + with_key(t, o, k) =~= with_key(s, o, k));
    } else {
        lemma_with_key_append(s, t.drop_last(), o, k);
        assert((s + t).drop_last() =~= s + t.drop_last());
        assert((s + t).last() == t.last());
        if same_key(o, t.last(), k) {
            assert(with_key(s + t, o, k) =~= with_key(s, o, k) + with_key(t, o, k));
        } else {
            assert(with_key(s + t, o, k) =~= with_key(s, o, k) + with_key(t, o, k));
        }
    }
}

pub proof fn lemma_with_key_single(x: ModelView, o: SortOrder, k: ModelView)
    ensures
        with_key(seq![x], o, k) == if same_key(o, x, k) {
            seq![x]
        } else {
            Seq::<ModelView>::empty()
        },
{
    let sx = seq![x];
    assert(sx.drop_last() =~= Seq::<ModelView>::empty());
    assert(sx.last() == x);
    assert(with_key(Seq::<ModelView>::empty(), o, k) == Seq::<ModelView>::empty());
    if same_key(o, x, k) {
        assert(Seq::<ModelView>::empty().push(x) =~= sx);
    }
}

pub proof fn lemma_with_key_none(s: Seq<ModelView>, o: SortOrder, k: ModelView)
    requires
        forall|i: int| 0 <= i < s.len() ==> !same_key(o, #[trigger] s[i], k),
    ensures
        with_key(s, o, k) == Seq::<ModelView>::empty(),
    decreases s.len(),
{
    if s.len() > 0 {
        lemma_with_key_none(s.drop_last(), o, k);
        assert(!same_key(o, s[s.len() - 1], k));
    }
}

pub proof fn lemma_same_key_transitive(o: SortOrder, a: ModelView, b: ModelView, c: ModelView)
    requires
        same_key(o, a, b),
        same_key(o, b, c),
    ensures
        same_key(o, a, c),
{
}

pub proof fn lemma_same_key_symmetric(o: SortOrder, a: ModelView, b: ModelView)
    requires
        same_key(o, a, b),
    ensures
        same_key(o, b, a),
{
}

// ---------------------------------------------------------------------------
// What a stable sort keeps
// ---------------------------------------------------------------------------

pub proof fn lemma_with_key_member(s: Seq<ModelView>, o: SortOrder, k: ModelView, m: ModelView)
    ensures
        with_key(s, o, k).contains(m) <==> (s.contains(m) && same_key(o, m, k)),
    decreases s.len(),
{
    if s.len() > 0 {
        lemma_with_key_member(s.drop_last(), o, k, m);
        assert(s =~= s.drop_last().push(s.last()));
        if s.contains(m) && !s.drop_last().contains(m) {
            let j = choose|j: int| 0 <= j < s.len() && s[j] == m;
            if j < s.len() - 1 {
                assert(s.drop_last()[j] == m);
            }
        }
        if with_key(s, o, k).contains(m) && !with_key(s.drop_last(), o, k).contains(m) {
            let j = choose|j: int| 0 <= j < with_key(s, o, k).len() && with_key(s, o, k)[j] == m;
            if same_key(o, s.last(), k) {
                if j < with_key(s, o, k).len() - 1 {
                    assert(with_key(s.drop_last(), o, k)[j] == m);
                }
            }
        }
        if s.drop_last().contains(m) {
            let j = choose|j: int| 0 <= j < s.drop_last().len() && s.drop_last()[j] == m;
            assert(s[j] == m);
        }
        if with_key(s.drop_last(), o, k).contains(m) && same_key(o, s.last(), k) {
            let j = choose|j: int|
                0 <= j < with_key(s.drop_last(), o, k).len() && with_key(s.drop_last(), o, k)[j]
                    == m;
            assert(with_key(s, o, k)[j] == m);
        }
        if s.last() == m && same_key(o, m, k) {
            assert(with_key(s, o, k)[with_key(s, o, k).len() - 1] == m);
        }
    }
}

pub proof fn lemma_with_key_count(s: Seq<ModelView>, o: SortOrder, m: ModelView)
    ensures
        s.to_multiset().count(m) == with_key(s, o, m).to_multiset().count(m),
    decreases s.len(),
{
    broadcast use vstd::multiset::group_multiset_axioms;

    if s.len() == 0 {
        s.to_multiset_ensures();
        with_key(s, o, m).to_multiset_ensures();
        vstd::multiset::lemma_multiset_empty_len(s.to_multiset());
        vstd::multiset::lemma_multiset_empty_len(with_key(s, o, m).to_multiset());
    } else {
        lemma_with_key_count(s.drop_last(), o, m);
        assert(s =~= s.drop_last().push(s.last()));
        s.drop_last().to_multiset_ensures();
        with_key(s.drop_last(), o, m).to_multiset_ensures();
    }
}

/// A stable sort neither drops, nor adds, nor repeats a model: its result
/// holds each model as many times as its input does.
pub proof fn lemma_stable_sort_is_permutation(o: SortOrder, out: Seq<ModelView>, inp: Seq<ModelView>)
    requires
        stably_sorted(o, out, inp),
    ensures
        out.to_multiset() == inp.to_multiset(),
{
    assert forall|m: ModelView| out.to_multiset().count(m) == inp.to_multiset().count(m) by {
        lemma_with_key_count(out, o, m);
        lemma_with_key_count(inp, o, m);
        assert(with_key(out, o, m) == with_key(inp, o, m));
    }
    assert(out.to_multiset() =~= inp.to_multiset());
}

/// A stable sort holds exactly the models of its input.
pub proof fn lemma_stably_sorted_same_models(o: SortOrder, out: Seq<ModelView>, inp: Seq<ModelView>)
    requires
        stably_sorted(o, out, inp),
    ensures
        forall|m: ModelView| out.contains(m) <==> inp.contains(m),
{
    assert forall|m: ModelView| out.contains(m) <==> inp.contains(m) by {
        lemma_with_key_member(out, o, m, m);
        lemma_with_key_member(inp, o, m, m);
        assert(with_key(out, o, m) == with_key(inp, o, m));
    }
}

pub proof fn lemma_sorted_classes_determine(o: SortOrder, a: Seq<ModelView>, b: Seq<ModelView>)
    requires
        sorted_by(o, a),
        sorted_by(o, b),
        forall|k: ModelView| #[trigger] with_key(a, o, k) == with_key(b, o, k),
    ensures
        a == b,
    decreases a.len(),
{
    if b.len() > 0 && a.len() == 0 {
        let y = b.last();
        lemma_with_key_member(b, o, y, y);
        lemma_with_key_member(a, o, y, y);
        assert(b[b.len() - 1] == y);
        assert(with_key(a, o, y) == with_key(b, o, y));
    } else if a.len() > 0 && b.len() == 0 {
        let x = a.last();
        lemma_with_key_member(a, o, x, x);
        lemma_with_key_member(b, o, x, x);
        assert(a[a.len() - 1] == x);
        assert(with_key(a, o, x) == with_key(b, o, x));
    } else if a.len() > 0 {
        let x = a.last();
        let y = b.last();
        assert(a[a.len() - 1] == x);
        assert(b[b.len() - 1] == y);
        lemma_with_key_member(a, o, x, x);
        lemma_with_key_member(b, o, x, x);
        lemma_with_key_member(a, o, y, y);
        lemma_with_key_member(b, o, y, y);
        assert(with_key(a, o, x) == with_key(b, o, x));
        assert(with_key(a, o, y) == with_key(b, o, y));
        // `x` is in `b`, so it does not come after `y`; and the other way round.
        let j = choose|j: int| 0 <= j < b.len() && b[j] == x;
        if j < b.len() - 1 {
            assert(model_le(o, b[j], b[b.len() - 1]));
        } else {
            lemma_same_key_le(o, x, x);
        }
        let i = choose|i: int| 0 <= i < a.len() && a[i] == y;
        if i < a.len() - 1 {
            assert(model_le(o, a[i], a[a.len() - 1]));
        } else {
            lemma_same_key_le(o, y, y);
        }
        lemma_le_both_same_key(o, x, y);
        // The last of the models with that key is `x` in `a` and `y` in `b`.
        assert(with_key(a, o, x) == with_key(a.drop_last(), o, x).push(x));
        assert(with_key(b, o, x) == with_key(b.drop_last(), o, x).push(y));
        assert(with_key(a, o, x).last() == x);
        assert(x == y);
        assert forall|k: ModelView| #[trigger] with_key(a.drop_last(), o, k) == with_key(
            b.drop_last(),
            o,
            k,
        ) by {
            assert(with_key(a, o, k) == with_key(b, o, k));
            if same_key(o, x, k) {
                assert(with_key(a.drop_last(), o, k) =~= with_key(a, o, k).drop_last());
                assert(with_key(b.drop_last(), o, k) =~= with_key(b, o, k).drop_last());
            }
        }
        assert(sorted_by(o, a.drop_last())) by {
            assert forall|p: int, q: int| 0 <= p < q < a.drop_last().len() implies model_le(
                o,
                #[trigger] a.drop_last()[p],
                #[trigger] a.drop_last()[q],
            ) by {
                assert(a.drop_last()[p] == a[p] && a.drop_last()[q] == a[q]);
            }
        }
        assert(sorted_by(o, b.drop_last())) by {
            assert forall|p: int, q: int| 0 <= p < q < b.drop_last().len() implies model_le(
                o,
                #[trigger] b.drop_last()[p],
                #[trigger] b.drop_last()[q],
            ) by {
                assert(b.drop_last()[p] == b[p] && b.drop_last()[q] == b[q]);
            }
        }
        lemma_sorted_classes_determine(o, a.drop_last(), b.drop_last());
        assert(a =~= a.drop_last().push(x));
        assert(b =~= b.drop_last().push(y));
    }
}

/// A stable sort has one result: any two sequences that are `inp` sorted
/// stably in the order `o` are the same.
pub proof fn lemma_stable_sort_unique(
    o: SortOrder,
    a: Seq<ModelView>,
    b: Seq<ModelView>,
    inp: Seq<ModelView>,
)
    requires
        stably_sorted(o, a, inp),
        stably_sorted(o, b, inp),
    ensures
        a == b,
{
    assert forall|k: ModelView| #[trigger] with_key(a, o, k) == with_key(b, o, k) by {
        assert(with_key(a, o, k) == with_key(inp, o, k));
        assert(with_key(b, o, k) == with_key(inp, o, k));
    }
    lemma_sorted_classes_determine(o, a, b);
}

/// `a` may come before `b` in the order `o`.
pub fn model_le_exec(o: SortOrder, a: &ModelInfo, b: &ModelInfo) -> (r: bool)
    ensures
        r == model_le(o, a@, b@),
{
    let an = chars_of(a.name.as_str());
    let bn = chars_of(b.name.as_str());
    match o {
        SortOrder::ByName => text_le_chars(&an, &bn),
        SortOrder::ByProviderThenName => {
            let ap = chars_of(a.provider.as_str());
            let bp = chars_of(b.provider.as_str());
            if crate::text::chars_equal(&ap, &bp) {
                text_le_chars(&an, &bn)
            } else {
                text_le_chars(&ap, &bp)
            }
        },
    }
}

/// `models` sorted stably in the order `o`, as `sort_by` sorts them.
pub fn sort_models(models: Vec<ModelInfo>, o: SortOrder) -> (out: Vec<ModelInfo>)
    ensures
        stably_sorted(o, models_view(out@), models_view(models@)),
{
    let mut models = models;
    let ghost inp = models_view(models@);
    let n = models.len();
    let mut out: Vec<ModelInfo> = Vec::new();
    let mut i: usize = 0;
    proof {
        assert forall|k: ModelView| #[trigger]
            with_key(models_view(out@), o, k) == with_key(inp.take(0), o, k) by {
            assert(models_view(out@) =~= Seq::<ModelView>::empty());
            assert(inp.take(0) =~= Seq::<ModelView>::empty());
        }
    }
    while i < n
        invariant
            n == inp.len(),
            i <= n,
            models_view(models@) == inp.skip(i as int),
            out@.len() == i,
            sorted_by(o, models_view(out@)),
            forall|k: ModelView| #[trigger]
                with_key(models_view(out@), o, k) == with_key(inp.take(i as int), o, k),
        decreases n - i,
    {
        let ghost before = models_view(out@);
        let ghost rest = models@;
        assert(rest.len() == models_view(rest).len());
        let x = models.remove(0);
        assert(x@ == inp[i as int]) by {
            assert(inp.skip(i as int)[0] == inp[i as int]);
            assert(models_view(rest)[0] == rest[0]@);
        }
        assert forall|j: int| 0 <= j < models@.len() implies #[trigger] models_view(models@)[j]
            == inp.skip(i + 1)[j] by {
            assert(models@[j] == rest[j + 1]);
            assert(models_view(rest)[j + 1] == rest[j + 1]@);
            assert(inp.skip(i as int)[j + 1] == inp.skip(i + 1)[j]);
        }
        assert(models_view(models@) =~= inp.skip(i + 1));
        // The first model that must come after `x`.
        let mut p: usize = 0;
        while p < out.len() && model_le_exec(o, &out[p], &x)
            invariant
                p <= out@.len(),
                before == models_view(out@),
                forall|j: int| 0 <= j < p ==> model_le(o, #[trigger] before[j], x@),
            decreases out.len() - p,
        {
            p = p + 1;
        }
        proof {
            // Every model from `p` on must come after `x`.
            assert forall|j: int| p <= j < before.len() implies !model_le(o, #[trigger] before[j], x@)
                && model_le(o, x@, before[j]) by {
                if model_le(o, before[j], x@) {
                    lemma_model_le_transitive(o, before[p as int], before[j], x@);
                }
                lemma_model_le_total(o, x@, before[j]);
            }
        }
        out.insert(p, x);
        let ghost after = models_view(out@);
        proof {
            assert(after =~= before.take(p as int) + seq![x@] + before.skip(p as int));
            assert forall|a: int, b: int| 0 <= a < b < after.len() implies model_le(
                o,
                #[trigger] after[a],
                #[trigger] after[b],
            ) by {
                if a < p && b == p {
                } else if a < p && b > p {
                    assert(after[b] == before[b - 1]);
                } else if a == p {
                    assert(after[b] == before[b - 1]);
                } else if b < p {
                } else {
                    assert(after[a] == before[a - 1]);
                    assert(after[b] == before[b - 1]);
                }
            }
            assert(inp.take(i + 1) =~= inp.take(i as int).push(x@));
            assert forall|k: ModelView| #[trigger] with_key(after, o, k) == with_key(
                inp.take(i + 1),
                o,
                k,
            ) by {
                let lo = before.take(p as int);
                let hi = before.skip(p as int);
                assert(before =~= lo + hi);
                lemma_with_key_append(lo, hi, o, k);
                lemma_with_key_append(lo + seq![x@], hi, o, k);
                lemma_with_key_append(lo, seq![x@], o, k);
                lemma_with_key_single(x@, o, k);
                assert(inp.take(i + 1).drop_last() =~= inp.take(i as int));
                if same_key(o, x@, k) {
                    assert forall|j: int| 0 <= j < hi.len() implies !same_key(
                        o,
                        #[trigger] hi[j],
                        k,
                    ) by {
                        assert(hi[j] == before[p + j]);
                        if same_key(o, hi[j], k) {
                            lemma_same_key_symmetric(o, x@, k);
                            lemma_same_key_transitive(o, hi[j], k, x@);
                            lemma_same_key_le(o, hi[j], x@);
                        }
                    }
                    lemma_with_key_none(hi, o, k);
                    assert(with_key(after, o, k) =~= with_key(before, o, k).push(x@));
                } else {
                    assert(with_key(after, o, k) =~= with_key(before, o, k));
                }
            }
        }
        i = i + 1;
    }
    assert(inp.take(n as int) =~= inp);
    out
}

} // verus!
