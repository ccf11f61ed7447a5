//! Stable sorting by a lexicographic key of up to four integers.
use vstd::prelude::*;

verus! {

broadcast use vstd::seq_lib::group_seq_properties;

/// A sort key: four integers compared lexicographically.
pub type SortKey = (u64, u64, u64, u64);

/// Lexicographic order on sort keys.
pub open spec fn key_le(a: SortKey, b: SortKey) -> bool {
    a.0 < b.0 || (a.0 == b.0 && (a.1 < b.1 || (a.1 == b.1 && (a.2 < b.2 || (a.2 == b.2 && a.3
        <= b.3)))))
}

/// Executable lexicographic comparison of sort keys.
pub fn key_le_exec(a: SortKey, b: SortKey) -> (r: bool)
    ensures
        r == key_le(a, b),
{
    a.0 < b.0 || (a.0 == b.0 && (a.1 < b.1 || (a.1 == b.1 && (a.2 < b.2 || (a.2 == b.2 && a.3
        <= b.3)))))
}

/// Values that are ordered by a sort key.
pub trait Keyed: Sized {
    spec fn spec_key(&self) -> SortKey;

    fn key(&self) -> (k: SortKey)
        ensures
            k == self.spec_key(),
    ;
}

/// Every element's key is at most the key of every later element.
pub open spec fn sorted_by_key<T: Keyed>(s: Seq<T>) -> bool {
    forall|i: int, j: int|
        0 <= i <= j < s.len() ==> #[trigger] key_le(s[i].spec_key(), s[j].spec_key())
}

/// The elements of `s` whose key is `k`, in their order in `s`.
pub open spec fn key_class<T: Keyed>(s: Seq<T>, k: SortKey) -> Seq<T> {
    s.filter(has_key(k))
}

/// The predicate "has key `k`".
pub open spec fn has_key<T: Keyed>(k: SortKey) -> spec_fn(T) -> bool {
    |x: T| x.spec_key() == k
}

/// `out` is `inp` stably sorted: ordered by key, and the elements of each key
/// keep their order from `inp`.
pub open spec fn is_stable_sort_of<T: Keyed>(out: Seq<T>, inp: Seq<T>) -> bool {
    &&& sorted_by_key(out)
    &&& forall|k: SortKey| #[trigger] key_class(out, k) == key_class(inp, k)
}

proof fn lemma_key_le_total(a: SortKey, b: SortKey)
    ensures
        key_le(a, b) || key_le(b, a),
        key_le(a, b) && key_le(b, a) ==> a == b,
{
}

proof fn lemma_key_le_trans(a: SortKey, b: SortKey, c: SortKey)
    requires
        key_le(a, b),
        key_le(b, c),
    ensures
        key_le(a, c),
{
}

/// A sorted sequence's key classes together make up the whole sequence, so a
/// stable sort preserves every element's number of occurrences.
pub proof fn lemma_stable_sort_same_length<T: Keyed>(out: Seq<T>, inp: Seq<T>, x: T)
    requires
        is_stable_sort_of(out, inp),
    ensures
        key_class(out, x.spec_key()).len() == key_class(inp, x.spec_key()).len(),
{
    assert(key_class(out, x.spec_key()) == key_class(inp, x.spec_key()));
}

proof fn lemma_filter_empty_when_no_match<T: Keyed>(s: Seq<T>, k: SortKey)
    requires
        forall|i: int| 0 <= i < s.len() ==> #[trigger] s[i].spec_key() != k,
    ensures
        key_class(s, k) == Seq::<T>::empty(),
{
    let pred = has_key::<T>(k);
    assert(s.all(|x: T| !pred(x))) by {
        assert forall|i: int| 0 <= i < s.len() implies (|x: T| !pred(x))(#[trigger] s[i]) by {}
    }
    s.lemma_all_neg_filter_empty(pred);
    assert(key_class(s, k) =~= Seq::<T>::empty());
}

/// Inserting `x` behind all elements whose key is at most its own keeps a sorted
/// sequence sorted and appends `x` to its key class.
proof fn lemma_insert_at_upper_bound<T: Keyed>(s: Seq<T>, p: int, x: T)
    requires
        sorted_by_key(s),
        0 <= p <= s.len(),
        forall|i: int| 0 <= i < p ==> key_le(#[trigger] s[i].spec_key(), x.spec_key()),
        forall|i: int| p <= i < s.len() ==> !key_le(#[trigger] s[i].spec_key(), x.spec_key()),
    ensures
        sorted_by_key(s.insert(p, x)),
        forall|k: SortKey|
            #[trigger] key_class(s.insert(p, x), k) == if k == x.spec_key() {
                key_class(s, k).push(x)
            } else {
                key_class(s, k)
            },
{
    let t = s.insert(p, x);
    assert forall|i: int, j: int| 0 <= i <= j < t.len() implies #[trigger] key_le(
        t[i].spec_key(),
        t[j].spec_key(),
    ) by {
        let xk = x.spec_key();
        if i < p && j < p {
            assert(key_le(s[i].spec_key(), s[j].spec_key()));
        } else if i < p && j == p {
        } else if i < p && j > p {
            assert(key_le(s[i].spec_key(), s[j - 1].spec_key()));
        } else if i == p && j == p {
            lemma_key_le_total(xk, xk);
        } else if i == p && j > p {
            lemma_key_le_total(xk, s[j - 1].spec_key());
        } else {
            assert(key_le(s[i - 1].spec_key(), s[j - 1].spec_key()));
        }
    }
    assert forall|k: SortKey|
        #[trigger] key_class(t, k) == if k == x.spec_key() {
            key_class(s, k).push(x)
        } else {
            key_class(s, k)
        } by {
        let pred = has_key::<T>(k);
        let a = s.take(p);
        let b = s.skip(p);
        assert(s == a + b);
        assert(t == a.push(x) + b);
        Seq::filter_distributes_over_add(a, b, pred);
        Seq::filter_distributes_over_add(a.push(x), b, pred);
        a.lemma_filter_push(x, pred);
        if k == x.spec_key() {
            assert forall|i: int| 0 <= i < b.len() implies #[trigger] b[i].spec_key() != k by {
                assert(b[i] == s[p + i]);
                lemma_key_le_total(k, k);
            }
            lemma_filter_empty_when_no_match(b, k);
            assert(key_class(b, k) == Seq::<T>::empty());
            assert(a.filter(pred) + b.filter(pred) == a.filter(pred));
            assert(a.filter(pred).push(x) + b.filter(pred) == a.filter(pred).push(x));
        }
    }
}

/// Position after the leading elements of `s` whose key is at most `k`
/// (for sorted `s`: where an element with key `k` goes behind its equals).
pub open spec fn upper_pos<T: Keyed>(s: Seq<T>, k: SortKey) -> int
    decreases s.len(),
{
    if s.len() == 0 || !key_le(s[0].spec_key(), k) {
        0
    } else {
        1 + upper_pos(s.drop_first(), k)
    }
}

/// Stable sort by key: each element in turn is inserted behind all elements placed
/// so far whose key is at most its own.
pub open spec fn spec_stable_sort<T: Keyed>(s: Seq<T>) -> Seq<T>
    decreases s.len(),
{
    if s.len() == 0 {
        s
    } else {
        let sorted = spec_stable_sort(s.drop_last());
        sorted.insert(upper_pos(sorted, s.last().spec_key()), s.last())
    }
}

proof fn lemma_upper_pos_split<T: Keyed>(s: Seq<T>, k: SortKey)
    requires
        sorted_by_key(s),
    ensures
        0 <= upper_pos(s, k) <= s.len(),
        forall|i: int| 0 <= i < upper_pos(s, k) ==> key_le(#[trigger] s[i].spec_key(), k),
        forall|i: int| upper_pos(s, k) <= i < s.len() ==> !key_le(#[trigger] s[i].spec_key(), k),
    decreases s.len(),
{
    if s.len() > 0 {
        let t = s.drop_first();
        assert(sorted_by_key(t)) by {
            assert forall|i: int, j: int| 0 <= i <= j < t.len() implies #[trigger] key_le(
                t[i].spec_key(),
                t[j].spec_key(),
            ) by {
                assert(key_le(s[i + 1].spec_key(), s[j + 1].spec_key()));
            }
        }
        lemma_upper_pos_split(t, k);
        if !key_le(s[0].spec_key(), k) {
            assert forall|i: int| 0 <= i < s.len() implies !key_le(#[trigger] s[i].spec_key(), k) by {
                assert(key_le(s[0].spec_key(), s[i].spec_key()));
                if key_le(s[i].spec_key(), k) {
                    lemma_key_le_trans(s[0].spec_key(), s[i].spec_key(), k);
                }
            }
        } else {
            assert forall|i: int| 0 <= i < upper_pos(s, k) implies key_le(
                #[trigger] s[i].spec_key(),
                k,
            ) by {
                if i > 0 {
                    assert(s[i] == t[i - 1]);
                }
            }
            assert forall|i: int| upper_pos(s, k) <= i < s.len() implies !key_le(
                #[trigger] s[i].spec_key(),
                k,
            ) by {
                assert(s[i] == t[i - 1]);
            }
        }
    }
}

proof fn lemma_upper_pos_unique<T: Keyed>(s: Seq<T>, k: SortKey, p: int)
    requires
        sorted_by_key(s),
        0 <= p <= s.len(),
        forall|i: int| 0 <= i < p ==> key_le(#[trigger] s[i].spec_key(), k),
        forall|i: int| p <= i < s.len() ==> !key_le(#[trigger] s[i].spec_key(), k),
    ensures
        p == upper_pos(s, k),
{
    lemma_upper_pos_split(s, k);
    let u = upper_pos(s, k);
    if p < u {
        assert(key_le(s[p].spec_key(), k));
    } else if u < p {
        assert(key_le(s[u].spec_key(), k));
    }
}

/// Law: the stable sort is ordered by key, and keeps the elements of each key in
/// their input order (so it is a rearrangement of its input).
pub proof fn lemma_spec_stable_sort_is_stable<T: Keyed>(s: Seq<T>)
    ensures
        is_stable_sort_of(spec_stable_sort(s), s),
        spec_stable_sort(s).len() == s.len(),
    decreases s.len(),
{
    if s.len() > 0 {
        let rest = s.drop_last();
        let x = s.last();
        lemma_spec_stable_sort_is_stable(rest);
        let sorted = spec_stable_sort(rest);
        lemma_upper_pos_split(sorted, x.spec_key());
        lemma_insert_at_upper_bound(sorted, upper_pos(sorted, x.spec_key()), x);
        assert(s == rest.push(x));
        assert forall|k: SortKey| #[trigger] key_class(spec_stable_sort(s), k) == key_class(s, k) by {
            rest.lemma_filter_push(x, has_key::<T>(k));
        }
    }
}

/// Law: a sequence already sorted by key is its own stable sort.
pub proof fn lemma_stable_sort_of_sorted<T: Keyed>(s: Seq<T>)
    requires
        sorted_by_key(s),
    ensures
        spec_stable_sort(s) == s,
    decreases s.len(),
{
    if s.len() > 0 {
        let rest = s.drop_last();
        let x = s.last();
        assert(sorted_by_key(rest)) by {
            assert forall|i: int, j: int| 0 <= i <= j < rest.len() implies #[trigger] key_le(
                rest[i].spec_key(),
                rest[j].spec_key(),
            ) by {
                assert(key_le(s[i].spec_key(), s[j].spec_key()));
            }
        }
        lemma_stable_sort_of_sorted(rest);
        assert forall|i: int| 0 <= i < rest.len() implies key_le(
            #[trigger] rest[i].spec_key(),
            x.spec_key(),
        ) by {
            assert(key_le(s[i].spec_key(), s[s.len() - 1].spec_key()));
        }
        lemma_upper_pos_unique(rest, x.spec_key(), rest.len() as int);
        assert(rest.insert(rest.len() as int, x) == s);
    }
}

/// Whether some element of `s` has key `k`, told by its key class.
proof fn lemma_key_class_nonempty<T: Keyed>(s: Seq<T>, k: SortKey)
    ensures
        key_class(s, k).len() > 0 <==> exists|i: int|
            0 <= i < s.len() && #[trigger] s[i].spec_key() == k,
{
    let pred = has_key::<T>(k);
    if key_class(s, k).len() > 0 {
        let f = key_class(s, k);
        s.lemma_filter_pred(pred, 0);
        s.lemma_filter_contains_rev(pred, f[0]);
        let i = choose|i: int| 0 <= i < s.len() && s[i] == f[0];
        assert(s[i].spec_key() == k);
    }
    if exists|i: int| 0 <= i < s.len() && #[trigger] s[i].spec_key() == k {
        let i = choose|i: int| 0 <= i < s.len() && #[trigger] s[i].spec_key() == k;
        s.lemma_filter_contains(pred, i);
    }
}

proof fn lemma_sorted_drop_last_keyed<T: Keyed>(s: Seq<T>)
    requires
        sorted_by_key(s),
        s.len() > 0,
    ensures
        sorted_by_key(s.drop_last()),
{
    let t = s.drop_last();
    assert forall|i: int, j: int| 0 <= i <= j < t.len() implies #[trigger] key_le(
        t[i].spec_key(),
        t[j].spec_key(),
    ) by {
        assert(key_le(s[i].spec_key(), s[j].spec_key()));
    }
}

/// Two sequences sorted by key with the same key classes are equal: a stable sort is
/// determined by its input.
proof fn lemma_sorted_same_classes_equal<T: Keyed>(a: Seq<T>, b: Seq<T>)
    requires
        sorted_by_key(a),
        sorted_by_key(b),
        forall|k: SortKey| #[trigger] key_class(a, k) == key_class(b, k),
    ensures
        a == b,
    decreases a.len() + b.len(),
{
    if a.len() == 0 && b.len() == 0 {
        return;
    }
    if a.len() == 0 {
        let k = b.last().spec_key();
        lemma_key_class_nonempty(b, k);
        lemma_key_class_nonempty(a, k);
        assert(key_class(a, k) == key_class(b, k));
        assert(b[b.len() - 1].spec_key() == k);
        assert(false);
    }
    if b.len() == 0 {
        let k = a.last().spec_key();
        lemma_key_class_nonempty(b, k);
        lemma_key_class_nonempty(a, k);
        assert(key_class(a, k) == key_class(b, k));
        assert(a[a.len() - 1].spec_key() == k);
        assert(false);
    }
    let x = a.last();
    let y = b.last();
    let ka = x.spec_key();
    let kb = y.spec_key();
    lemma_key_class_nonempty(a, kb);
    lemma_key_class_nonempty(b, kb);
    lemma_key_class_nonempty(a, ka);
    lemma_key_class_nonempty(b, ka);
    assert(key_class(a, kb) == key_class(b, kb));
    assert(key_class(a, ka) == key_class(b, ka));
    assert(b[b.len() - 1].spec_key() == kb);
    assert(a[a.len() - 1].spec_key() == ka);
    let i = choose|i: int| 0 <= i < a.len() && #[trigger] a[i].spec_key() == kb;
    let j = choose|j: int| 0 <= j < b.len() && #[trigger] b[j].spec_key() == ka;
    assert(key_le(a[i].spec_key(), a[a.len() - 1].spec_key()));
    assert(key_le(b[j].spec_key(), b[b.len() - 1].spec_key()));
    lemma_key_le_total(ka, kb);
    let a1 = a.drop_last();
    let b1 = b.drop_last();
    assert(a1.push(x) == a);
    assert(b1.push(y) == b);
    a1.lemma_filter_push(x, has_key::<T>(ka));
    b1.lemma_filter_push(y, has_key::<T>(ka));
    assert(x == key_class(a, ka).last());
    assert(y == key_class(b, ka).last());
    assert forall|k: SortKey| #[trigger] key_class(a1, k) == key_class(b1, k) by {
        a1.lemma_filter_push(x, has_key::<T>(k));
        b1.lemma_filter_push(y, has_key::<T>(k));
        assert(key_class(a, k) == key_class(b, k));
        if k == ka {
            assert(key_class(a1, k) == key_class(a, k).drop_last());
            assert(key_class(b1, k) == key_class(b, k).drop_last());
        }
    }
    lemma_sorted_drop_last_keyed(a);
    lemma_sorted_drop_last_keyed(b);
    lemma_sorted_same_classes_equal(a1, b1);
}

/// Law: a stable sort holds exactly the elements of its input.
pub proof fn lemma_stable_sort_contains<T: Keyed>(s: Seq<T>, x: T)
    ensures
        spec_stable_sort(s).contains(x) <==> s.contains(x),
{
    lemma_spec_stable_sort_is_stable(s);
    let out = spec_stable_sort(s);
    let k = x.spec_key();
    let pred = has_key::<T>(k);
    assert(key_class(out, k) == key_class(s, k));
    if s.contains(x) {
        let i = choose|i: int| 0 <= i < s.len() && s[i] == x;
        s.lemma_filter_contains(pred, i);
        out.lemma_filter_contains_rev(pred, x);
    }
    if out.contains(x) {
        let i = choose|i: int| 0 <= i < out.len() && out[i] == x;
        out.lemma_filter_contains(pred, i);
        s.lemma_filter_contains_rev(pred, x);
    }
}

/// Stable merge of two sequences by key: on equal keys the element of `a` comes first.
pub open spec fn merge_by_key<T: Keyed>(a: Seq<T>, b: Seq<T>) -> Seq<T>
    decreases a.len() + b.len(),
{
    if a.len() == 0 {
        b
    } else if b.len() == 0 {
        a
    } else if key_le(a[0].spec_key(), b[0].spec_key()) {
        seq![a[0]] + merge_by_key(a.drop_first(), b)
    } else {
        seq![b[0]] + merge_by_key(a, b.drop_first())
    }
}

/// A key at most every key of `a` and of `b` is at most every key of their merge.
proof fn lemma_merge_lower_bound<T: Keyed>(a: Seq<T>, b: Seq<T>, low: SortKey)
    requires
        forall|i: int| 0 <= i < a.len() ==> key_le(low, #[trigger] a[i].spec_key()),
        forall|i: int| 0 <= i < b.len() ==> key_le(low, #[trigger] b[i].spec_key()),
    ensures
        forall|i: int|
            0 <= i < merge_by_key(a, b).len() ==> key_le(low, #[trigger] merge_by_key(a, b)[i].spec_key()),
    decreases a.len() + b.len(),
{
    if a.len() > 0 && b.len() > 0 {
        let m = merge_by_key(a, b);
        if key_le(a[0].spec_key(), b[0].spec_key()) {
            let a1 = a.drop_first();
            assert forall|i: int| 0 <= i < a1.len() implies key_le(low, #[trigger] a1[i].spec_key()) by {
                assert(a1[i] == a[i + 1]);
            }
            lemma_merge_lower_bound(a1, b, low);
            assert forall|i: int| 0 <= i < m.len() implies key_le(low, #[trigger] m[i].spec_key()) by {
                if i > 0 {
                    assert(m[i] == merge_by_key(a1, b)[i - 1]);
                }
            }
        } else {
            let b1 = b.drop_first();
            assert forall|i: int| 0 <= i < b1.len() implies key_le(low, #[trigger] b1[i].spec_key()) by {
                assert(b1[i] == b[i + 1]);
            }
            lemma_merge_lower_bound(a, b1, low);
            assert forall|i: int| 0 <= i < m.len() implies key_le(low, #[trigger] m[i].spec_key()) by {
                if i > 0 {
                    assert(m[i] == merge_by_key(a, b1)[i - 1]);
                }
            }
        }
    }
}

proof fn lemma_sorted_drop_first<T: Keyed>(s: Seq<T>)
    requires
        sorted_by_key(s),
        s.len() > 0,
    ensures
        sorted_by_key(s.drop_first()),
        forall|i: int| 0 <= i < s.drop_first().len() ==> key_le(
            s[0].spec_key(),
            #[trigger] s.drop_first()[i].spec_key(),
        ),
{
    let t = s.drop_first();
    assert forall|i: int, j: int| 0 <= i <= j < t.len() implies #[trigger] key_le(
        t[i].spec_key(),
        t[j].spec_key(),
    ) by {
        assert(key_le(s[i + 1].spec_key(), s[j + 1].spec_key()));
    }
    assert forall|i: int| 0 <= i < t.len() implies key_le(
        s[0].spec_key(),
        #[trigger] t[i].spec_key(),
    ) by {
        assert(key_le(s[0].spec_key(), s[i + 1].spec_key()));
    }
}

/// The element in front of a sorted sequence whose keys are all at least its own
/// keeps it sorted.
proof fn lemma_sorted_prepend<T: Keyed>(h: T, r: Seq<T>)
    requires
        sorted_by_key(r),
        forall|i: int| 0 <= i < r.len() ==> key_le(h.spec_key(), #[trigger] r[i].spec_key()),
    ensures
        sorted_by_key(seq![h] + r),
{
    let m = seq![h] + r;
    assert forall|i: int, j: int| 0 <= i <= j < m.len() implies #[trigger] key_le(
        m[i].spec_key(),
        m[j].spec_key(),
    ) by {
        if i == 0 {
            if j == 0 {
                lemma_key_le_total(h.spec_key(), h.spec_key());
            } else {
                assert(m[j] == r[j - 1]);
            }
        } else {
            assert(m[i] == r[i - 1]);
            assert(m[j] == r[j - 1]);
            assert(key_le(r[i - 1].spec_key(), r[j - 1].spec_key()));
        }
    }
}

/// The merge of two sorted sequences is sorted and holds, for each key, the
/// elements of `a` of that key followed by those of `b`.
proof fn lemma_merge_sorted<T: Keyed>(a: Seq<T>, b: Seq<T>)
    requires
        sorted_by_key(a),
        sorted_by_key(b),
    ensures
        sorted_by_key(merge_by_key(a, b)),
        merge_by_key(a, b).len() == a.len() + b.len(),
        forall|k: SortKey| #[trigger] key_class(merge_by_key(a, b), k) == key_class(a, k)
            + key_class(b, k),
    decreases a.len() + b.len(),
{
    reveal(Seq::filter);
    if a.len() == 0 {
        assert forall|k: SortKey| #[trigger] key_class(merge_by_key(a, b), k) == key_class(a, k)
            + key_class(b, k) by {
            assert(key_class(a, k) == Seq::<T>::empty());
            assert(Seq::<T>::empty() + key_class(b, k) == key_class(b, k));
        }
    } else if b.len() == 0 {
        assert forall|k: SortKey| #[trigger] key_class(merge_by_key(a, b), k) == key_class(a, k)
            + key_class(b, k) by {
            assert(key_class(b, k) == Seq::<T>::empty());
            assert(key_class(a, k) + Seq::<T>::empty() == key_class(a, k));
        }
    } else {
        let m = merge_by_key(a, b);
        if key_le(a[0].spec_key(), b[0].spec_key()) {
            let h = a[0];
            let a1 = a.drop_first();
            lemma_sorted_drop_first(a);
            lemma_merge_sorted(a1, b);
            let r = merge_by_key(a1, b);
            assert forall|j: int| 0 <= j < b.len() implies key_le(
                h.spec_key(),
                #[trigger] b[j].spec_key(),
            ) by {
                assert(key_le(b[0].spec_key(), b[j].spec_key()));
                lemma_key_le_trans(h.spec_key(), b[0].spec_key(), b[j].spec_key());
            }
            lemma_merge_lower_bound(a1, b, h.spec_key());
            lemma_sorted_prepend(h, r);
            assert(m == seq![h] + r);
            assert(a == seq![h] + a1);
            assert forall|k: SortKey| #[trigger] key_class(m, k) == key_class(a, k) + key_class(
                b,
                k,
            ) by {
                r.lemma_filter_prepend(h, has_key::<T>(k));
                a1.lemma_filter_prepend(h, has_key::<T>(k));
                assert(key_class(r, k) == key_class(a1, k) + key_class(b, k));
                let e: Seq<T> = if h.spec_key() == k {
                    seq![h]
                } else {
                    Seq::empty()
                };
                assert(e + (key_class(a1, k) + key_class(b, k)) == (e + key_class(a1, k))
                    + key_class(b, k));
            }
        } else {
            let h = b[0];
            let b1 = b.drop_first();
            lemma_sorted_drop_first(b);
            lemma_merge_sorted(a, b1);
            let r = merge_by_key(a, b1);
            lemma_key_le_total(a[0].spec_key(), b[0].spec_key());
            assert forall|j: int| 0 <= j < a.len() implies key_le(
                h.spec_key(),
                #[trigger] a[j].spec_key(),
            ) by {
                assert(key_le(a[0].spec_key(), a[j].spec_key()));
                lemma_key_le_trans(h.spec_key(), a[0].spec_key(), a[j].spec_key());
            }
            lemma_merge_lower_bound(a, b1, h.spec_key());
            lemma_sorted_prepend(h, r);
            assert(m == seq![h] + r);
            assert(b == seq![h] + b1);
            assert forall|k: SortKey| #[trigger] key_class(m, k) == key_class(a, k) + key_class(
                b,
                k,
            ) by {
                r.lemma_filter_prepend(h, has_key::<T>(k));
                b1.lemma_filter_prepend(h, has_key::<T>(k));
                assert(key_class(r, k) == key_class(a, k) + key_class(b1, k));
                if h.spec_key() == k {
                    // An element of `a` with key k would lie before h in key order.
                    if key_class(a, k).len() > 0 {
                        lemma_key_class_nonempty(a, k);
                        let i = choose|i: int| 0 <= i < a.len() && #[trigger] a[i].spec_key() == k;
                        assert(key_le(a[0].spec_key(), a[i].spec_key()));
                        lemma_key_le_total(a[0].spec_key(), k);
                        assert(false);
                    }
                    assert(key_class(a, k) == Seq::<T>::empty());
                    assert(seq![h] + (Seq::<T>::empty() + key_class(b1, k)) == Seq::<T>::empty()
                        + (seq![h] + key_class(b1, k)));
                } else {
                    assert(Seq::<T>::empty() + key_class(b1, k) == key_class(b1, k));
                }
            }
        }
    }
}

/// Merges two vectors stably by key.
fn merge_runs<T: Keyed + Copy>(a: &Vec<T>, b: &Vec<T>) -> (out: Vec<T>)
    ensures
        out@ == merge_by_key(a@, b@),
{
    let mut out: Vec<T> = Vec::new();
    let mut i: usize = 0;
    let mut j: usize = 0;
    proof {
        assert(a@.skip(0) == a@);
        assert(b@.skip(0) == b@);
        assert(out@ + merge_by_key(a@, b@) == merge_by_key(a@, b@));
    }
    while i < a.len() || j < b.len()
        invariant
            i <= a.len(),
            j <= b.len(),
            out@ + merge_by_key(a@.skip(i as int), b@.skip(j as int)) == merge_by_key(a@, b@),
        decreases a.len() - i + b.len() - j,
    {
        let ghost sa = a@.skip(i as int);
        let ghost sb = b@.skip(j as int);
        let ghost before = out@;
        if i < a.len() && (j >= b.len() || key_le_exec(a[i].key(), b[j].key())) {
            let x = a[i];
            proof {
                assert(sa[0] == x);
                assert(sa.drop_first() == a@.skip(i + 1));
                if sb.len() == 0 {
                    assert(sa == seq![x] + sa.drop_first());
                    assert(merge_by_key(sa.drop_first(), sb) == sa.drop_first());
                } else {
                    assert(sb[0] == b@[j as int]);
                }
                assert(merge_by_key(sa, sb) == seq![x] + merge_by_key(a@.skip(i + 1), sb));
            }
            out.push(x);
            proof {
                assert(out@ + merge_by_key(a@.skip(i + 1), sb) == before + merge_by_key(sa, sb));
            }
            i = i + 1;
        } else {
            let y = b[j];
            proof {
                assert(sb[0] == y);
                assert(sb.drop_first() == b@.skip(j + 1));
                if sa.len() == 0 {
                    assert(sb == seq![y] + sb.drop_first());
                    assert(merge_by_key(sa, sb.drop_first()) == sb.drop_first());
                } else {
                    assert(sa[0] == a@[i as int]);
                }
                assert(merge_by_key(sa, sb) == seq![y] + merge_by_key(sa, b@.skip(j + 1)));
            }
            out.push(y);
            proof {
                assert(out@ + merge_by_key(sa, b@.skip(j + 1)) == before + merge_by_key(sa, sb));
            }
            j = j + 1;
        }
    }
    proof {
        assert(a@.skip(i as int).len() == 0);
        assert(b@.skip(j as int).len() == 0);
        assert(out@ + merge_by_key(a@.skip(i as int), b@.skip(j as int)) == out@);
    }
    out
}

/// Sorts `v[lo..hi]` stably by key (merge sort).
fn merge_sort_range<T: Keyed + Copy>(v: &Vec<T>, lo: usize, hi: usize) -> (out: Vec<T>)
    requires
        lo <= hi <= v.len(),
    ensures
        sorted_by_key(out@),
        out@.len() == hi - lo,
        forall|k: SortKey| #[trigger] key_class(out@, k) == key_class(v@.subrange(lo as int, hi as int), k),
    decreases hi - lo,
{
    if hi - lo <= 1 {
        let mut out: Vec<T> = Vec::new();
        if hi > lo {
            out.push(v[lo]);
            proof {
                lemma_key_le_total(v@[lo as int].spec_key(), v@[lo as int].spec_key());
            }
        }
        proof {
            assert(out@ == v@.subrange(lo as int, hi as int));
        }
        out
    } else {
        let mid = lo + (hi - lo) / 2;
        let left = merge_sort_range(v, lo, mid);
        let right = merge_sort_range(v, mid, hi);
        let out = merge_runs(&left, &right);
        proof {
            lemma_merge_sorted(left@, right@);
            let whole = v@.subrange(lo as int, hi as int);
            assert(whole == v@.subrange(lo as int, mid as int) + v@.subrange(mid as int, hi as int));
            assert forall|k: SortKey| #[trigger] key_class(out@, k) == key_class(whole, k) by {
                Seq::filter_distributes_over_add(
                    v@.subrange(lo as int, mid as int),
                    v@.subrange(mid as int, hi as int),
                    has_key::<T>(k),
                );
                assert(key_class(left@, k) == key_class(v@.subrange(lo as int, mid as int), k));
                assert(key_class(right@, k) == key_class(v@.subrange(mid as int, hi as int), k));
            }
        }
        out
    }
}

/// Sorts by key, keeping elements with equal keys in their input order.
pub fn stable_sort_by_key<T: Keyed + Copy>(v: &Vec<T>) -> (out: Vec<T>)
    ensures
        out@ == spec_stable_sort(v@),
        is_stable_sort_of(out@, v@),
        out@.len() == v@.len(),
{
    let out = merge_sort_range(v, 0, v.len());
    proof {
        assert(v@.subrange(0, v@.len() as int) == v@);
        lemma_spec_stable_sort_is_stable(v@);
        let sorted = spec_stable_sort(v@);
        assert forall|k: SortKey| #[trigger] key_class(out@, k) == key_class(sorted, k) by {
            assert(key_class(out@, k) == key_class(v@, k));
            assert(key_class(sorted, k) == key_class(v@, k));
        }
        lemma_sorted_same_classes_equal(out@, sorted);
    }
    out
}

} // verus!
