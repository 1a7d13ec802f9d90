//! Label sets: refusing a name written twice, ordering labels by name, and
//! lining a sample's labels up with the label names of its family.
use vstd::prelude::*;
use crate::text::{chars_eq, chars_eq_str, copy_chars, texts};
use crate::types::{pairs_view, ErrorModel, Error, Invalid, ParseError, PrometheusType};

verus! {

/// Whether text `a` sorts before text `b`, character by character.
pub open spec fn text_lt(a: Seq<char>, b: Seq<char>) -> bool
    decreases a.len(),
{
    if b.len() == 0 {
        false
    } else if a.len() == 0 {
        true
    } else if a[0] != b[0] {
        a[0] < b[0]
    } else {
        text_lt(a.drop_first(), b.drop_first())
    }
}

pub fn text_less(a: &Vec<char>, b: &Vec<char>) -> (r: bool)
    ensures
        r == text_lt(a@, b@),
{
    let mut i: usize = 0;
    assert(a@.skip(0) =~= a@);
    assert(b@.skip(0) =~= b@);
    while i < a.len() && i < b.len() && a[i] == b[i]
        invariant
            i <= a.len(),
            i <= b.len(),
            text_lt(a@, b@) == text_lt(a@.skip(i as int), b@.skip(i as int)),
        decreases a.len() - i,
    {
        assert(a@.skip(i as int).drop_first() =~= a@.skip(i + 1));
        assert(b@.skip(i as int).drop_first() =~= b@.skip(i + 1));
        i = i + 1;
    }
    if i == b.len() {
        false
    } else if i == a.len() {
        true
    } else {
        assert(a@.skip(i as int)[0] == a@[i as int]);
        assert(b@.skip(i as int)[0] == b@[i as int]);
        a[i] < b[i]
    }
}

/// Whether some label of `ls` has the name `n`.
pub open spec fn has_label(ls: Seq<(Seq<char>, Seq<char>)>, n: Seq<char>) -> bool
    decreases ls.len(),
{
    if ls.len() == 0 {
        false
    } else {
        has_label(ls.drop_last(), n) || ls.last().0 == n
    }
}

/// The value of the first label of `ls` named `n`.
pub open spec fn label_value(ls: Seq<(Seq<char>, Seq<char>)>, n: Seq<char>) -> Option<Seq<char>>
    decreases ls.len(),
{
    if ls.len() == 0 {
        None
    } else if ls[0].0 == n {
        Some(ls[0].1)
    } else {
        label_value(ls.drop_first(), n)
    }
}

/// The first label name written a second time, reading from the left.
pub open spec fn first_duplicate(ls: Seq<(Seq<char>, Seq<char>)>) -> Option<Seq<char>>
    decreases ls.len(),
{
    if ls.len() == 0 {
        None
    } else {
        match first_duplicate(ls.drop_last()) {
            Some(n) => Some(n),
            None => if has_label(ls.drop_last(), ls.last().0) {
                Some(ls.last().0)
            } else {
                None
            },
        }
    }
}

/// `p` put into the name-sorted `s`, after the labels whose names do not
/// sort after its own.
pub open spec fn insert_sorted(s: Seq<(Seq<char>, Seq<char>)>, p: (Seq<char>, Seq<char>)) -> Seq<
    (Seq<char>, Seq<char>),
>
    decreases s.len(),
{
    if s.len() == 0 || !text_lt(p.0, s.last().0) {
        s.push(p)
    } else {
        insert_sorted(s.drop_last(), p).push(s.last())
    }
}

/// The labels sorted by name, stably.
pub open spec fn sort_labels(ls: Seq<(Seq<char>, Seq<char>)>) -> Seq<(Seq<char>, Seq<char>)>
    decreases ls.len(),
{
    if ls.len() == 0 {
        seq![]
    } else {
        insert_sorted(sort_labels(ls.drop_last()), ls.last())
    }
}

/// A label list as a sample or exemplar takes it: refused if a name occurs
/// twice, else sorted by name.
pub open spec fn checked_labels(ls: Seq<(Seq<char>, Seq<char>)>) -> Result<
    Seq<(Seq<char>, Seq<char>)>,
    ErrorModel,
> {
    match first_duplicate(ls) {
        Some(n) => Err(ParseError::InvalidMetric(Invalid::DuplicateLabel(n))),
        None => Ok(sort_labels(ls)),
    }
}

fn has_label_exec(ls: &Vec<(Vec<char>, Vec<char>)>, upto: usize, n: &Vec<char>) -> (r: bool)
    requires
        upto <= ls.len(),
    ensures
        r == has_label(pairs_view(ls@).take(upto as int), n@),
{
    let mut i: usize = 0;
    let mut found = false;
    while i < upto
        invariant
            i <= upto <= ls.len(),
            found == has_label(pairs_view(ls@).take(i as int), n@),
        decreases upto - i,
    {
        assert(pairs_view(ls@).take(i + 1).drop_last() =~= pairs_view(ls@).take(i as int));
        if chars_eq(&ls[i].0, n) {
            found = true;
        }
        i = i + 1;
    }
    found
}

/// `p` put into the name-sorted `s`.
fn insert_label(s: &mut Vec<(Vec<char>, Vec<char>)>, p: (Vec<char>, Vec<char>))
    ensures
        pairs_view(final(s)@) == insert_sorted(pairs_view(old(s)@), (p.0@, p.1@)),
    decreases old(s).len(),
{
    let ghost s0 = pairs_view(s@);
    let ghost pv = (p.0@, p.1@);
    if s.len() == 0 || !text_less(&p.0, &s[s.len() - 1].0) {
        s.push(p);
        assert(pairs_view(s@) =~= s0.push(pv));
    } else {
        let last = s.pop().unwrap();
        let ghost lv = (last.0@, last.1@);
        assert(pairs_view(s@) =~= s0.drop_last());
        insert_label(s, p);
        let ghost mid = pairs_view(s@);
        s.push(last);
        assert(pairs_view(s@) =~= mid.push(lv));
    }
}

/// The labels of a sample or exemplar: refused if a name occurs twice,
/// else sorted by name.
pub fn parse_labels(raw: &Vec<(Vec<char>, Vec<char>)>) -> (r: Result<Vec<(Vec<char>, Vec<char>)>, Error>)
    ensures
        match checked_labels(pairs_view(raw@)) {
            Ok(ls) => r matches Ok(v) && pairs_view(v@) == ls,
            Err(e) => r matches Err(x) && crate::types::error_view(x) == e,
        },
{
    let mut sorted: Vec<(Vec<char>, Vec<char>)> = Vec::new();
    let mut i: usize = 0;
    assert(pairs_view(sorted@) =~= Seq::<(Seq<char>, Seq<char>)>::empty());
    while i < raw.len()
        invariant
            i <= raw.len(),
            first_duplicate(pairs_view(raw@).take(i as int)) is None,
            pairs_view(sorted@) == sort_labels(pairs_view(raw@).take(i as int)),
        decreases raw.len() - i,
    {
        assert(pairs_view(raw@).take(i + 1).drop_last() =~= pairs_view(raw@).take(i as int));
        if has_label_exec(raw, i, &raw[i].0) {
            proof {
                lemma_duplicate_stays(pairs_view(raw@), i + 1);
            }
            return Err(ParseError::InvalidMetric(Invalid::DuplicateLabel(copy_chars(&raw[i].0))));
        }
        insert_label(&mut sorted, (copy_chars(&raw[i].0), copy_chars(&raw[i].1)));
        i = i + 1;
    }
    assert(pairs_view(raw@).take(raw.len() as int) =~= pairs_view(raw@));
    Ok(sorted)
}

proof fn lemma_duplicate_stays(ls: Seq<(Seq<char>, Seq<char>)>, k: int)
    requires
        0 <= k <= ls.len(),
        first_duplicate(ls.take(k)) is Some,
    ensures
        first_duplicate(ls) == first_duplicate(ls.take(k)),
    decreases ls.len() - k,
{
    if k < ls.len() {
        assert(ls.take(k + 1).drop_last() =~= ls.take(k));
        lemma_duplicate_stays(ls, k + 1);
    } else {
        assert(ls.take(k) =~= ls);
    }
}

/// The labels that a family of the given type keeps apart when samples
/// carry different label sets: `le` in histograms, `quantile` in summaries.
pub open spec fn is_reserved(family_type: Option<PrometheusType>, n: Seq<char>) -> bool {
    (family_type == Some(PrometheusType::Histogram) && n == "le"@) || (family_type == Some(
        PrometheusType::Summary,
    ) && n == "quantile"@)
}

/// The family's label names after a sample with labels `ls` (non-strict
/// mode): each new name that is not reserved is added, in the order of `ls`.
pub open spec fn merged_names(names: Seq<Seq<char>>, ls: Seq<(Seq<char>, Seq<char>)>, family_type: Option<PrometheusType>) -> Seq<Seq<char>>
    decreases ls.len(),
{
    if ls.len() == 0 {
        names
    } else {
        let m = merged_names(names, ls.drop_last(), family_type);
        if !m.contains(ls.last().0) && !is_reserved(family_type, ls.last().0) {
            m.push(ls.last().0)
        } else {
            m
        }
    }
}

/// The values a sample gives the names: its own, or the empty text.
pub open spec fn values_for(names: Seq<Seq<char>>, ls: Seq<(Seq<char>, Seq<char>)>) -> Seq<Seq<char>> {
    names.map_values(|n: Seq<char>| match label_value(ls, n) {
        Some(v) => v,
        None => seq![],
    })
}

/// The reserved labels that a sample carries, `le` first, as (names, values).
pub open spec fn reserved_tail(ls: Seq<(Seq<char>, Seq<char>)>) -> (Seq<Seq<char>>, Seq<Seq<char>>) {
    let le: (Seq<Seq<char>>, Seq<Seq<char>>) = match label_value(ls, "le"@) {
        Some(v) => (seq!["le"@], seq![v]),
        None => (seq![], seq![]),
    };
    match label_value(ls, "quantile"@) {
        Some(v) => (le.0.push("quantile"@), le.1.push(v)),
        None => le,
    }
}

pub fn label_value_exec(ls: &Vec<(Vec<char>, Vec<char>)>, n: &Vec<char>) -> (r: Option<Vec<char>>)
    ensures
        match label_value(pairs_view(ls@), n@) {
            Some(v) => r matches Some(x) && x@ == v,
            None => r is None,
        },
{
    let mut i: usize = 0;
    assert(pairs_view(ls@).skip(0) =~= pairs_view(ls@));
    while i < ls.len()
        invariant
            i <= ls.len(),
            label_value(pairs_view(ls@), n@) == label_value(pairs_view(ls@).skip(i as int), n@),
        decreases ls.len() - i,
    {
        assert(pairs_view(ls@).skip(i as int)[0] == (ls@[i as int].0@, ls@[i as int].1@));
        if chars_eq(&ls[i].0, n) {
            return Some(copy_chars(&ls[i].1));
        }
        assert(pairs_view(ls@).skip(i as int).drop_first() =~= pairs_view(ls@).skip(i + 1));
        i = i + 1;
    }
    None
}

pub fn contains_text(v: &Vec<Vec<char>>, n: &Vec<char>) -> (r: bool)
    ensures
        r == texts(v@).contains(n@),
{
    let mut i: usize = 0;
    while i < v.len()
        invariant
            i <= v.len(),
            forall|j: int| 0 <= j < i ==> texts(v@)[j] != n@,
        decreases v.len() - i,
    {
        if chars_eq(&v[i], n) {
            assert(texts(v@)[i as int] == n@);
            return true;
        }
        i = i + 1;
    }
    false
}

/// Whether `n` is reserved for the family type.
pub fn reserved(family_type: Option<PrometheusType>, n: &Vec<char>) -> (r: bool)
    ensures
        r == is_reserved(family_type, n@),
{
    (family_type == Some(PrometheusType::Histogram) && chars_eq_str(n, "le")) || (family_type
        == Some(PrometheusType::Summary) && chars_eq_str(n, "quantile"))
}

proof fn lemma_text_lt_irreflexive(a: Seq<char>)
    ensures
        !text_lt(a, a),
    decreases a.len(),
{
    if a.len() > 0 {
        lemma_text_lt_irreflexive(a.drop_first());
    }
}

proof fn lemma_text_lt_transitive(a: Seq<char>, b: Seq<char>, c: Seq<char>)
    requires
        text_lt(a, b),
        text_lt(b, c),
    ensures
        text_lt(a, c),
    decreases a.len(),
{
    if a.len() > 0 && b.len() > 0 && c.len() > 0 && a[0] == b[0] && b[0] == c[0] {
        lemma_text_lt_transitive(a.drop_first(), b.drop_first(), c.drop_first());
    }
}

proof fn lemma_text_lt_total(a: Seq<char>, b: Seq<char>)
    ensures
        a == b || text_lt(a, b) || text_lt(b, a),
    decreases a.len(),
{
    if a.len() > 0 && b.len() > 0 {
        if a[0] == b[0] {
            lemma_text_lt_total(a.drop_first(), b.drop_first());
            if a.drop_first() == b.drop_first() {
                assert(a =~= seq![a[0]] + a.drop_first());
                assert(b =~= seq![b[0]] + b.drop_first());
            }
        } else {
            assert(a[0] != b[0]);
        }
    } else if a.len() == 0 && b.len() == 0 {
        assert(a =~= b);
    }
}

/// `!(b < a)` and `!(c < b)` give `!(c < a)`.
proof fn lemma_text_le_transitive(a: Seq<char>, b: Seq<char>, c: Seq<char>)
    requires
        !text_lt(b, a),
        !text_lt(c, b),
    ensures
        !text_lt(c, a),
{
    if text_lt(c, a) {
        lemma_text_lt_total(a, b);
        if text_lt(a, b) {
            lemma_text_lt_transitive(c, a, b);
        }
    }
}

/// Labels in order of their names.
pub open spec fn labels_sorted(s: Seq<(Seq<char>, Seq<char>)>) -> bool {
    forall|i: int, j: int| 0 <= i < j < s.len() ==> !text_lt(#[trigger] s[j].0, #[trigger] s[i].0)
}

/// No label of `s` has a name that sorts after `b`.
pub open spec fn names_at_most(s: Seq<(Seq<char>, Seq<char>)>, b: Seq<char>) -> bool {
    forall|i: int| 0 <= i < s.len() ==> !text_lt(b, #[trigger] s[i].0)
}

proof fn lemma_insert_sorted(s: Seq<(Seq<char>, Seq<char>)>, p: (Seq<char>, Seq<char>))
    requires
        labels_sorted(s),
    ensures
        labels_sorted(insert_sorted(s, p)),
        insert_sorted(s, p).to_multiset() =~= s.to_multiset().insert(p),
        forall|b: Seq<char>|
            names_at_most(s, b) && !text_lt(b, p.0) ==> #[trigger] names_at_most(insert_sorted(s, p), b),
    decreases s.len(),
{
    broadcast use vstd::seq_lib::group_to_multiset_ensures;
    if s.len() == 0 || !text_lt(p.0, s.last().0) {
        let r = s.push(p);
        assert forall|i: int, j: int| 0 <= i < j < r.len() implies !text_lt(#[trigger] r[j].0, #[trigger] r[i].0) by {
            if j < s.len() {
                assert(r[i] == s[i] && r[j] == s[j]);
            } else if i < s.len() - 1 {
                assert(!text_lt(s.last().0, s[i].0));
                lemma_text_le_transitive(s[i].0, s.last().0, p.0);
            }
        }
        assert forall|b: Seq<char>| names_at_most(s, b) && !text_lt(b, p.0) implies #[trigger] names_at_most(r, b) by {
            assert forall|i: int| 0 <= i < r.len() implies !text_lt(b, #[trigger] r[i].0) by {
                if i < s.len() {
                    assert(r[i] == s[i]);
                }
            }
        }
    } else {
        let last = s.last();
        let front = s.drop_last();
        assert(labels_sorted(front)) by {
            assert forall|i: int, j: int| 0 <= i < j < front.len() implies !text_lt(#[trigger] front[j].0, #[trigger] front[i].0) by {
                assert(front[i] == s[i] && front[j] == s[j]);
            }
        }
        lemma_insert_sorted(front, p);
        let mid = insert_sorted(front, p);
        assert(names_at_most(front, last.0)) by {
            assert forall|i: int| 0 <= i < front.len() implies !text_lt(last.0, #[trigger] front[i].0) by {
                assert(front[i] == s[i]);
            }
        }
        lemma_text_lt_total(p.0, last.0);
        if text_lt(last.0, p.0) {
            lemma_text_lt_transitive(p.0, last.0, p.0);
            lemma_text_lt_irreflexive(p.0);
        }
        assert(names_at_most(mid, last.0));
        let r = mid.push(last);
        assert forall|i: int, j: int| 0 <= i < j < r.len() implies !text_lt(#[trigger] r[j].0, #[trigger] r[i].0) by {
            if j < mid.len() {
                assert(r[i] == mid[i] && r[j] == mid[j]);
            } else {
                assert(r[i] == mid[i]);
            }
        }
        assert(s =~= front.push(last));
        assert forall|b: Seq<char>| names_at_most(s, b) && !text_lt(b, p.0) implies #[trigger] names_at_most(r, b) by {
            assert(names_at_most(front, b)) by {
                assert forall|i: int| 0 <= i < front.len() implies !text_lt(b, #[trigger] front[i].0) by {
                    assert(front[i] == s[i]);
                }
            }
            assert(names_at_most(mid, b));
            assert(!text_lt(b, s[s.len() - 1].0));
            assert forall|i: int| 0 <= i < r.len() implies !text_lt(b, #[trigger] r[i].0) by {
                if i < mid.len() {
                    assert(r[i] == mid[i]);
                }
            }
        }
    }
}

/// Law: the labels of a sample or exemplar come out ordered by name, and
/// they are the labels that were written, each as often.
pub proof fn lemma_sorted_labels(ls: Seq<(Seq<char>, Seq<char>)>)
    ensures
        labels_sorted(sort_labels(ls)),
        sort_labels(ls).to_multiset() =~= ls.to_multiset(),
    decreases ls.len(),
{
    broadcast use vstd::seq_lib::group_to_multiset_ensures;
    if ls.len() > 0 {
        lemma_sorted_labels(ls.drop_last());
        lemma_insert_sorted(sort_labels(ls.drop_last()), ls.last());
        assert(ls =~= ls.drop_last().push(ls.last()));
    }
}


/// Law: the family's label names after a non-strict sample are its earlier
/// names and then each label name of the sample, save a histogram's `le`
/// and a summary's `quantile`: a name is among them exactly when it was
/// before or the sample carries it and it is not one of those two.
pub proof fn lemma_merged_names_leave_out_le_and_quantile(
    names: Seq<Seq<char>>,
    ls: Seq<(Seq<char>, Seq<char>)>,
    family_type: Option<PrometheusType>,
    n: Seq<char>,
)
    ensures
        merged_names(names, ls, family_type).contains(n) <==> names.contains(n) || (has_label(ls, n)
            && !(family_type == Some(PrometheusType::Histogram) && n == "le"@) && !(family_type == Some(
            PrometheusType::Summary,
        ) && n == "quantile"@)),
    decreases ls.len(),
{
    if ls.len() > 0 {
        lemma_merged_names_leave_out_le_and_quantile(names, ls.drop_last(), family_type, n);
        let m = merged_names(names, ls.drop_last(), family_type);
        if !m.contains(ls.last().0) && !is_reserved(family_type, ls.last().0) {
            assert(m.push(ls.last().0).contains(n) <==> m.contains(n) || n == ls.last().0) by {
                if m.push(ls.last().0).contains(n) && !m.contains(n) {
                    let k = choose|k: int| 0 <= k < m.push(ls.last().0).len() && m.push(ls.last().0)[k] == n;
                    assert(k == m.len());
                }
                if m.contains(n) {
                    let k = choose|k: int| 0 <= k < m.len() && m[k] == n;
                    assert(m.push(ls.last().0)[k] == n);
                }
                if n == ls.last().0 {
                    assert(m.push(ls.last().0)[m.len() as int] == n);
                }
            }
        }
    }
}

} // verus!
