//! Parsing a Prometheus text exposition: the grammar's families, each read
//! sample by sample into a family, checked and finished.
use vstd::prelude::*;
use crate::family::{
    agree_on, read_alike, add_help, add_type, check_family, copy_texts, effective_type, lemma_process_keeps_well_formed,
    process_spec, same_kind, set_or_test_name, value_present, well_formed, holds_value,
};
use crate::labels::{
    checked_labels, contains_text, label_value, sort_labels, label_value_exec, merged_names, parse_labels,
    reserved, reserved_tail, values_for,
};
use crate::mediamtx::{annotate_mediamtx_metrics, annotation};
use crate::number::{parse_i64, parse_i64_spec, MetricNumber};
use crate::syntax::{
    groups_view, items_view, scan, scan_exposition, ExemplarLine, ExemplarLineModel, Item,
    ItemModel, SampleLine, SampleLineModel,
};
use crate::text::{chars_eq, chars_of, copy_chars, texts};
use crate::types::{
    error_view, float_reading, metrics_view, opt_exemplar, pairs_view, type_named,
    CounterValue, Error, ErrorModel, Exemplar, ExemplarModel, FamilyModel, FloatTable, Invalid,
    MetricFamily, MetricFamilyMarshal, MetricFamilyModel, MetricMarshal, MetricModel,
    MetricValueMarshal, MetricsExposition, ParseError, PrometheusType, PrometheusValue,
    PrometheusValueModel, Sample, SampleModel, ValueModel,
};

verus! {

/// A sample value: an `i64` when the text reads as one, else the float
/// that the table gives for it.
pub open spec fn read_value(text: Seq<char>, tab: Seq<(Seq<char>, Option<u64>)>) -> Result<MetricNumber, ErrorModel> {
    match parse_i64_spec(text) {
        Some(i) => Ok(MetricNumber::Int(i)),
        None => match float_reading(tab, text) {
            Some(b) => Ok(MetricNumber::Float(b)),
            None => Err(ParseError::InvalidMetric(Invalid::ValueNotNumber(text))),
        },
    }
}

/// A sample's timestamp, read as a float.
pub open spec fn read_timestamp(ts: Option<Seq<char>>, tab: Seq<(Seq<char>, Option<u64>)>) -> Result<Option<u64>, ErrorModel> {
    match ts {
        None => Ok(None),
        Some(t) => match float_reading(tab, t) {
            Some(b) => Ok(Some(b)),
            None => Err(ParseError::InvalidMetric(Invalid::TimestampNotNumber(t))),
        },
    }
}

/// A sample's exemplar: labels checked and sorted, value and timestamp read as floats.
pub open spec fn read_exemplar(e: Option<ExemplarLineModel>, tab: Seq<(Seq<char>, Option<u64>)>) -> Result<Option<ExemplarModel>, ErrorModel> {
    match e {
        None => Ok(None),
        Some(e) => match checked_labels(e.labels) {
            Err(x) => Err(x),
            Ok(ls) => match float_reading(tab, e.value) {
                None => Err(ParseError::InvalidMetric(Invalid::ExemplarValueNotNumber(e.value))),
                Some(id) => match e.timestamp {
                    None => Ok(Some(ExemplarModel { labels: ls, id, timestamp: None })),
                    Some(t) => match float_reading(tab, t) {
                        None => Err(
                            ParseError::InvalidMetric(Invalid::ExemplarTimestampNotNumber(t)),
                        ),
                        Some(b) => Ok(Some(ExemplarModel { labels: ls, id, timestamp: Some(b) })),
                    },
                },
            },
        },
    }
}

/// The metrics with `k` empty label values appended to each.
pub open spec fn pad_metrics(ms: Seq<MetricModel>, k: nat) -> Seq<MetricModel> {
    ms.map_values(
        |m: MetricModel|
            MetricModel {
                label_values: m.label_values + Seq::new(k, |i: int| Seq::<char>::empty()),
                ..m
            },
    )
}

/// The label names and values a sample is processed with, and the family
/// after it. In strict mode, or for a family without label names yet, the
/// sample's sorted labels. Otherwise the family's names grow by the
/// sample's new names, earlier metrics get empty values for them, the
/// sample gives every family name a value (empty when it lacks it), and
/// its `le` and `quantile` labels follow.
pub open spec fn sample_labels(f: FamilyModel, ls: Seq<(Seq<char>, Seq<char>)>, strict: bool) -> (
    FamilyModel,
    Seq<Seq<char>>,
    Seq<Seq<char>>,
) {
    if !strict && f.label_names is Some {
        let old = f.label_names->0;
        let merged = merged_names(old, ls, f.family_type);
        let added = (merged.len() - old.len()) as nat;
        let tail = reserved_tail(ls);
        (
            FamilyModel {
                label_names: Some(merged),
                metrics: pad_metrics(f.metrics, added),
                ..f
            },
            merged + tail.0,
            values_for(merged, ls) + tail.1,
        )
    } else {
        (f, ls.map_values(|p: (Seq<char>, Seq<char>)| p.0), ls.map_values(|p: (Seq<char>, Seq<char>)| p.1))
    }
}

/// What a family does with a sample line.
pub open spec fn parse_sample_spec(
    s: SampleLineModel,
    f: FamilyModel,
    strict: bool,
    tab: Seq<(Seq<char>, Option<u64>)>,
) -> Result<FamilyModel, ErrorModel> {
    match checked_labels(s.labels) {
        Err(e) => Err(e),
        Ok(ls) => {
            let (f2, names, values) = sample_labels(f, ls, strict);
            match read_value(s.value, tab) {
                Err(e) => Err(e),
                Ok(v) => match read_timestamp(s.timestamp, tab) {
                    Err(e) => Err(e),
                    Ok(ts) => match read_exemplar(s.exemplar, tab) {
                        Err(e) => Err(e),
                        Ok(ex) => process_spec(f2, s.name, v, names, values, ts, ex, strict, tab),
                    },
                },
            }
        },
    }
}

/// What a family does with a descriptor.
pub open spec fn descriptor_spec(it: ItemModel, f: FamilyModel) -> Result<FamilyModel, ErrorModel> {
    match it {
        ItemModel::Help(n, t) => match set_or_test_name(f, n) {
            Err(e) => Err(e),
            Ok(f1) => add_help(f1, t),
        },
        ItemModel::Type(n, w) => match set_or_test_name(f, n) {
            Err(e) => Err(e),
            Ok(f1) => match type_named(w) {
                None => Err(ParseError::InvalidMetric(Invalid::InvalidMetricType(w))),
                Some(t) => add_type(f1, t),
            },
        },
        ItemModel::Sample(_) => Ok(f),
    }
}

pub open spec fn empty_family() -> FamilyModel {
    FamilyModel {
        name: None,
        label_names: None,
        family_type: None,
        help: None,
        unit: None,
        metrics: seq![],
    }
}

/// A family read from its lines in order; a descriptor after a sample is refused.
pub open spec fn family_items(items: Seq<ItemModel>, strict: bool, tab: Seq<(Seq<char>, Option<u64>)>) -> Result<FamilyModel, ErrorModel>
    decreases items.len(),
{
    if items.len() == 0 {
        Ok(empty_family())
    } else {
        match family_items(items.drop_last(), strict, tab) {
            Err(e) => Err(e),
            Ok(f) => match items.last() {
                ItemModel::Sample(s) => parse_sample_spec(s, f, strict, tab),
                d => if f.metrics.len() > 0 {
                    Err(ParseError::InvalidMetric(Invalid::DescriptorAfterSamples))
                } else {
                    descriptor_spec(d, f)
                },
            },
        }
    }
}

/// The finished value of a metric.
pub open spec fn finish_value(v: ValueModel) -> PrometheusValueModel {
    match v {
        ValueModel::Unknown(u) => PrometheusValueModel::Unknown(u->0),
        ValueModel::Gauge(g) => PrometheusValueModel::Gauge(g->0),
        ValueModel::Counter(c) => PrometheusValueModel::Counter(CounterValue { total: c->0, created: None }),
        ValueModel::Histogram(h) => PrometheusValueModel::Histogram(h),
        ValueModel::Summary(s) => PrometheusValueModel::Summary(s),
    }
}

pub open spec fn finish_metric(m: MetricModel) -> SampleModel {
    SampleModel { label_values: m.label_values, timestamp: m.timestamp, value: finish_value(m.value) }
}

/// The finished family: its name, label names (none if unset), type
/// (`Unknown` if unset), help and unit (empty if unset), and samples.
pub open spec fn finish_family(f: FamilyModel) -> MetricFamilyModel {
    MetricFamilyModel {
        family_name: f.name->0,
        label_names: match f.label_names {
            Some(n) => n,
            None => seq![],
        },
        family_type: effective_type(f),
        help: match f.help {
            Some(h) => h,
            None => seq![],
        },
        unit: match f.unit {
            Some(u) => u,
            None => seq![],
        },
        samples: f.metrics.map_values(|m: MetricModel| finish_metric(m)),
    }
}

/// A family read, checked and finished.
#[verifier::opaque]
pub open spec fn parse_family_spec(items: Seq<ItemModel>, strict: bool, tab: Seq<(Seq<char>, Option<u64>)>) -> Result<MetricFamilyModel, ErrorModel> {
    match family_items(items, strict, tab) {
        Err(e) => Err(e),
        Ok(f) => match check_family(f, strict) {
            Err(e) => Err(e),
            Ok(()) => Ok(finish_family(f)),
        },
    }
}

pub open spec fn has_family(fs: Seq<MetricFamilyModel>, name: Seq<char>) -> bool
    decreases fs.len(),
{
    fs.len() > 0 && (has_family(fs.drop_last(), name) || fs.last().family_name == name)
}

/// The families in order; a family whose name an earlier one took is refused.
pub open spec fn families_spec(groups: Seq<Seq<ItemModel>>, strict: bool, tab: Seq<(Seq<char>, Option<u64>)>) -> Result<Seq<MetricFamilyModel>, ErrorModel>
    decreases groups.len(),
{
    if groups.len() == 0 {
        Ok(seq![])
    } else {
        match families_spec(groups.drop_last(), strict, tab) {
            Err(e) => Err(e),
            Ok(fs) => match parse_family_spec(groups.last(), strict, tab) {
                Err(e) => Err(e),
                Ok(fam) => if has_family(fs, fam.family_name) {
                    Err(ParseError::InvalidMetric(Invalid::FamilyAfterFinalised(fam.family_name)))
                } else {
                    Ok(fs.push(fam))
                },
            },
        }
    }
}

/// What parsing an exposition text gives.
pub open spec fn parse_spec(text: Seq<char>, strict: bool, tab: Seq<(Seq<char>, Option<u64>)>) -> Result<Seq<MetricFamilyModel>, ErrorModel> {
    match scan(text) {
        Err(n) => Err(ParseError::ParseError(n as usize)),
        Ok(groups) => families_spec(groups, strict, tab),
    }
}

// ---------------------------------------------------------------------------
// Executable parsing.

fn read_value_exec(text: &Vec<char>, floats: &FloatTable) -> (r: Result<MetricNumber, Error>)
    ensures
        match read_value(text@, floats@) {
            Ok(v) => r matches Ok(x) && x == v,
            Err(e) => r matches Err(x) && error_view(x) == e,
        },
{
    match parse_i64(text) {
        Some(i) => Ok(MetricNumber::Int(i)),
        None => match floats.read(text) {
            Some(b) => Ok(MetricNumber::Float(b)),
            None => Err(ParseError::InvalidMetric(Invalid::ValueNotNumber(copy_chars(text)))),
        },
    }
}

fn read_timestamp_exec(ts: &Option<Vec<char>>, floats: &FloatTable) -> (r: Result<Option<u64>, Error>)
    ensures
        match read_timestamp(
            match ts {
                Some(t) => Some(t@),
                None => None,
            },
            floats@,
        ) {
            Ok(v) => r matches Ok(x) && x == v,
            Err(e) => r matches Err(x) && error_view(x) == e,
        },
{
    match ts {
        None => Ok(None),
        Some(t) => match floats.read(t) {
            Some(b) => Ok(Some(b)),
            None => Err(ParseError::InvalidMetric(Invalid::TimestampNotNumber(copy_chars(t)))),
        },
    }
}

fn parse_exemplar(e: &Option<ExemplarLine>, floats: &FloatTable) -> (r: Result<Option<Exemplar>, Error>)
    ensures
        match read_exemplar(
            match e {
                Some(x) => Some(x@),
                None => None,
            },
            floats@,
        ) {
            Ok(v) => r matches Ok(x) && opt_exemplar(x) == v,
            Err(err) => r matches Err(x) && error_view(x) == err,
        },
{
    match e {
        None => Ok(None),
        Some(e) => match parse_labels(&e.labels) {
            Err(x) => Err(x),
            Ok(ls) => match floats.read(&e.value) {
                None => Err(ParseError::InvalidMetric(Invalid::ExemplarValueNotNumber(copy_chars(&e.value)))),
                Some(id) => match &e.timestamp {
                    None => Ok(Some(Exemplar { labels: ls, id, timestamp: None })),
                    Some(t) => match floats.read(t) {
                        None => Err(ParseError::InvalidMetric(Invalid::ExemplarTimestampNotNumber(copy_chars(t)))),
                        Some(b) => Ok(Some(Exemplar { labels: ls, id, timestamp: Some(b) })),
                    },
                },
            },
        },
    }
}

proof fn lemma_merged_grows(names: Seq<Seq<char>>, ls: Seq<(Seq<char>, Seq<char>)>, t: Option<PrometheusType>)
    ensures
        merged_names(names, ls, t).len() >= names.len(),
        merged_names(names, ls, t).subrange(0, names.len() as int) == names,
    decreases ls.len(),
{
    if ls.len() > 0 {
        lemma_merged_grows(names, ls.drop_last(), t);
        let m = merged_names(names, ls.drop_last(), t);
        assert(m.push(ls.last().0).subrange(0, names.len() as int) =~= m.subrange(0, names.len() as int));
    }
}

/// Appends `k` empty label values to every metric of the family.
fn pad_family(family: &mut MetricFamilyMarshal, k: usize)
    ensures
        final(family)@ == (FamilyModel { metrics: pad_metrics(old(family)@.metrics, k as nat), ..old(family)@ }),
{
    let ghost m0 = old(family)@.metrics;
    let mut i: usize = 0;
    while i < family.metrics.len()
        invariant
            i <= family.metrics.len() == m0.len(),
            family@ == (FamilyModel { metrics: family@.metrics, ..old(family)@ }),
            forall|j: int| 0 <= j < i ==> #[trigger] family@.metrics[j] == pad_metrics(m0, k as nat)[j],
            forall|j: int| i <= j < m0.len() ==> #[trigger] family@.metrics[j] == m0[j],
        decreases family.metrics.len() - i,
    {
        let ghost before = family@.metrics;
        let mut m = family.metrics.remove(i);
        let ghost lv0 = texts(m.label_values@);
        let ghost mt = m.timestamp;
        let ghost mval = m.value@;
        assert(m@ == before[i as int]);
        let mut c: usize = 0;
        while c < k
            invariant
                c <= k,
                m.timestamp == mt,
                m.value@ == mval,
                texts(m.label_values@) == lv0 + Seq::new(c as nat, |x: int| Seq::<char>::empty()),
            decreases k - c,
        {
            let ghost b = texts(m.label_values@);
            m.label_values.push(Vec::new());
            assert(texts(m.label_values@) =~= b.push(Seq::<char>::empty()));
            c = c + 1;
            assert(texts(m.label_values@) =~= lv0 + Seq::new(c as nat, |x: int| Seq::<char>::empty()));
        }
        let ghost mv = m@;
        proof {
            let pm = pad_metrics(m0, k as nat)[i as int];
            assert(before[i as int] == m0[i as int]);
            assert(mv.label_values =~= pm.label_values);
            assert(mv == pm);
        }
        family.metrics.insert(i, m);
        assert(metrics_view(family.metrics@) =~= before.update(i as int, mv));
        i = i + 1;
    }
    assert(family@.metrics =~= pad_metrics(m0, k as nat));
}

/// The label names and values of a sample (see `sample_labels`), updating
/// the family in non-strict mode.
fn sample_labels_exec(family: &mut MetricFamilyMarshal, ls: &Vec<(Vec<char>, Vec<char>)>, strict: bool) -> (r: (Vec<Vec<char>>, Vec<Vec<char>>))
    ensures
        ({
            let (f2, n, v) = sample_labels(old(family)@, pairs_view(ls@), strict);
            final(family)@ == f2 && texts(r.0@) == n && texts(r.1@) == v
        }),
        r.0.len() == r.1.len(),
{
    let merging = !strict && family.label_names.is_some();
    if !merging {
        let mut names: Vec<Vec<char>> = Vec::new();
        let mut values: Vec<Vec<char>> = Vec::new();
        let mut i: usize = 0;
        while i < ls.len()
            invariant
                i <= ls.len(),
                names.len() == values.len() == i,
                texts(names@) == pairs_view(ls@).take(i as int).map_values(|p: (Seq<char>, Seq<char>)| p.0),
                texts(values@) == pairs_view(ls@).take(i as int).map_values(|p: (Seq<char>, Seq<char>)| p.1),
            decreases ls.len() - i,
        {
            let ghost bn = texts(names@);
            let ghost bv = texts(values@);
            let ghost pv = pairs_view(ls@);
            names.push(copy_chars(&ls[i].0));
            values.push(copy_chars(&ls[i].1));
            assert(pv[i as int] == (ls@[i as int].0@, ls@[i as int].1@));
            assert(texts(names@) =~= bn.push(ls@[i as int].0@));
            assert(texts(values@) =~= bv.push(ls@[i as int].1@));
            assert(pv.take(i + 1) =~= pv.take(i as int).push(pv[i as int]));
            assert(texts(names@) =~= pairs_view(ls@).take(i + 1).map_values(|p: (Seq<char>, Seq<char>)| p.0));
            assert(texts(values@) =~= pairs_view(ls@).take(i + 1).map_values(|p: (Seq<char>, Seq<char>)| p.1));
            i = i + 1;
        }
        assert(pairs_view(ls@).take(ls.len() as int) =~= pairs_view(ls@));
        return (names, values);
    }
    let ghost f0 = family@;
    let old_names = match &family.label_names {
        Some(n) => copy_texts(n),
        None => Vec::new(),
    };
    let ft = family.family_type;
    let mut merged = copy_texts(&old_names);
    let mut i: usize = 0;
    while i < ls.len()
        invariant
            i <= ls.len(),
            texts(merged@) == merged_names(texts(old_names@), pairs_view(ls@).take(i as int), ft),
        decreases ls.len() - i,
    {
        assert(pairs_view(ls@).take(i + 1).drop_last() =~= pairs_view(ls@).take(i as int));
        let n = &ls[i].0;
        if !contains_text(&merged, n) && !reserved(ft, n) {
            let ghost b = texts(merged@);
            merged.push(copy_chars(n));
            assert(texts(merged@) =~= b.push(n@));
        }
        i = i + 1;
    }
    assert(pairs_view(ls@).take(ls.len() as int) =~= pairs_view(ls@));
    proof {
        lemma_merged_grows(texts(old_names@), pairs_view(ls@), ft);
    }
    let added = merged.len() - old_names.len();
    pad_family(family, added);
    family.label_names = Some(copy_texts(&merged));
    let mut names = copy_texts(&merged);
    let mut values: Vec<Vec<char>> = Vec::new();
    let mut j: usize = 0;
    while j < merged.len()
        invariant
            j <= merged.len(),
            values.len() == j,
            texts(values@) == values_for(texts(merged@), pairs_view(ls@)).take(j as int),
        decreases merged.len() - j,
    {
        let ghost b = texts(values@);
        let v = match label_value_exec(ls, &merged[j]) {
            Some(v) => v,
            None => Vec::new(),
        };
        values.push(v);
        assert(texts(values@) =~= values_for(texts(merged@), pairs_view(ls@)).take(j + 1));
        j = j + 1;
    }
    assert(values_for(texts(merged@), pairs_view(ls@)).take(merged.len() as int) =~= values_for(texts(merged@), pairs_view(ls@)));
    let ghost base_n = texts(names@);
    let ghost base_v = texts(values@);
    let le = chars_of("le");
    let q = chars_of("quantile");
    let mut tail_n: Vec<Vec<char>> = Vec::new();
    let mut tail_v: Vec<Vec<char>> = Vec::new();
    match label_value_exec(ls, &le) {
        Some(v) => {
            tail_n.push(chars_of("le"));
            tail_v.push(v);
        },
        None => {},
    }
    match label_value_exec(ls, &q) {
        Some(v) => {
            tail_n.push(chars_of("quantile"));
            tail_v.push(v);
        },
        None => {},
    }
    assert(texts(tail_n@) =~= reserved_tail(pairs_view(ls@)).0);
    assert(texts(tail_v@) =~= reserved_tail(pairs_view(ls@)).1);
    let mut k: usize = 0;
    while k < tail_n.len()
        invariant
            k <= tail_n.len() == tail_v.len(),
            names.len() == values.len(),
            texts(names@) == base_n + texts(tail_n@).take(k as int),
            texts(values@) == base_v + texts(tail_v@).take(k as int),
        decreases tail_n.len() - k,
    {
        let ghost bn = texts(names@);
        let ghost bv = texts(values@);
        names.push(copy_chars(&tail_n[k]));
        values.push(copy_chars(&tail_v[k]));
        assert(texts(names@) =~= bn.push(tail_n@[k as int]@));
        assert(texts(values@) =~= bv.push(tail_v@[k as int]@));
        assert(texts(tail_n@).take(k + 1) =~= texts(tail_n@).take(k as int).push(tail_n@[k as int]@));
        assert(texts(tail_v@).take(k + 1) =~= texts(tail_v@).take(k as int).push(tail_v@[k as int]@));
        assert(texts(names@) =~= base_n + texts(tail_n@).take(k + 1));
        assert(texts(values@) =~= base_v + texts(tail_v@).take(k + 1));
        k = k + 1;
    }
    assert(texts(tail_n@).take(tail_n.len() as int) =~= texts(tail_n@));
    assert(texts(tail_v@).take(tail_v.len() as int) =~= texts(tail_v@));
    (names, values)
}

/// Reads a sample line into its family.
fn parse_sample(s: &SampleLine, family: &mut MetricFamilyMarshal, strict_mode: bool, floats: &FloatTable) -> (r: Result<(), Error>)
    ensures
        match parse_sample_spec(s@, old(family)@, strict_mode, floats@) {
            Ok(f) => r is Ok && final(family)@ == f,
            Err(e) => r matches Err(x) && error_view(x) == e,
        },
{
    let labels = match parse_labels(&s.labels) {
        Err(e) => {
            return Err(e);
        },
        Ok(l) => l,
    };
    let (names, values) = sample_labels_exec(family, &labels, strict_mode);
    let value = match read_value_exec(&s.value, floats) {
        Err(e) => {
            return Err(e);
        },
        Ok(v) => v,
    };
    let timestamp = match read_timestamp_exec(&s.timestamp, floats) {
        Err(e) => {
            return Err(e);
        },
        Ok(t) => t,
    };
    let exemplar = match parse_exemplar(&s.exemplar, floats) {
        Err(e) => {
            return Err(e);
        },
        Ok(x) => x,
    };
    proof {
        crate::family::lemma_equal_lengths_reach(family@, s.name@, texts(names@), texts(values@), opt_exemplar(exemplar));
    }
    family.process_new_metric(&s.name, value, names, values, timestamp, exemplar, strict_mode, floats)
}

/// Reads a `# HELP` or `# TYPE` line into its family.
fn parse_metric_descriptor(it: &Item, family: &mut MetricFamilyMarshal) -> (r: Result<(), Error>)
    ensures
        match descriptor_spec(it@, old(family)@) {
            Ok(f) => r is Ok && final(family)@ == f,
            Err(e) => r matches Err(x) && error_view(x) == e,
        },
{
    match it {
        Item::Help(n, t) => match family.set_or_test_name(copy_chars(n)) {
            Err(e) => Err(e),
            Ok(()) => family.try_add_help(copy_chars(t)),
        },
        Item::Type(n, w) => match family.set_or_test_name(copy_chars(n)) {
            Err(e) => Err(e),
            Ok(()) => {
                let word = crate::text::string_of(w);
                match PrometheusType::try_from(word.as_str()) {
                    Err(e) => Err(e),
                    Ok(t) => family.try_add_type(t),
                }
            },
        },
        Item::Sample(_) => Ok(()),
    }
}

impl PrometheusValue {
    /// The finished value of a metric that holds one.
    pub fn from(m: MetricValueMarshal) -> (v: PrometheusValue)
        requires
            holds_value(m@),
        ensures
            v@ == finish_value(m@),
    {
        match m {
            MetricValueMarshal::Unknown(u) => PrometheusValue::Unknown(u.unwrap()),
            MetricValueMarshal::Gauge(g) => PrometheusValue::Gauge(g.unwrap()),
            MetricValueMarshal::Counter(c) => PrometheusValue::Counter(
                CounterValue { total: c.unwrap(), created: None },
            ),
            MetricValueMarshal::Histogram(h) => PrometheusValue::Histogram(h),
            MetricValueMarshal::Summary(s) => PrometheusValue::Summary(s),
        }
    }
}

impl Sample {
    /// The finished sample of a metric that holds a value.
    pub fn from(s: MetricMarshal) -> (r: Sample)
        requires
            holds_value(s@.value),
        ensures
            r@ == finish_metric(s@),
    {
        Sample { label_values: s.label_values, timestamp: s.timestamp, value: PrometheusValue::from(s.value) }
    }
}

impl MetricFamily {
    /// The finished family of a named family under construction whose
    /// metrics hold values.
    pub fn from(marshal: MetricFamilyMarshal) -> (r: MetricFamily)
        requires
            marshal@.name is Some,
            forall|i: int| 0 <= i < marshal@.metrics.len() ==> holds_value(#[trigger] marshal@.metrics[i].value),
        ensures
            r@ == finish_family(marshal@),
    {
        let ghost f = marshal@;
        let MetricFamilyMarshal { name, label_names, family_type, help, unit, mut metrics } = marshal;
        let mut samples: Vec<Sample> = Vec::new();
        let ghost total = metrics_view(metrics@);
        let n = metrics.len();
        while metrics.len() > 0
            invariant
                samples.len() + metrics.len() == n == total.len(),
                metrics_view(metrics@) == total.skip(samples.len() as int),
                samples@.map_values(|x: Sample| x@) == total.take(samples.len() as int).map_values(|m: MetricModel| finish_metric(m)),
                forall|i: int| 0 <= i < total.len() ==> holds_value(#[trigger] total[i].value),
            decreases metrics.len(),
        {
            let ghost k = samples.len() as int;
            let ghost mb = metrics@;
            assert(metrics_view(mb)[0] == total.skip(k)[0]);
            let m = metrics.remove(0);
            assert(m == mb[0]);
            assert(metrics_view(metrics@) =~= metrics_view(mb).drop_first());
            assert(m@ == total[k]);
            assert(metrics_view(metrics@) =~= total.skip(k + 1));
            let ghost before = samples@.map_values(|x: Sample| x@);
            let sm = Sample::from(m);
            samples.push(sm);
            assert(samples@.map_values(|x: Sample| x@) =~= before.push(finish_metric(total[k])));
            assert(total.take(k + 1).map_values(|m: MetricModel| finish_metric(m)) =~= total.take(k).map_values(|m: MetricModel| finish_metric(m)).push(finish_metric(total[k])));
        }
        assert(total.take(n as int) =~= total);
        let family_name = name.unwrap();
        let label_names = match label_names {
            Some(n) => n,
            None => Vec::new(),
        };
        let family_type = match family_type {
            Some(t) => t,
            None => PrometheusType::Unknown,
        };
        let help = match help {
            Some(h) => h,
            None => Vec::new(),
        };
        let unit = match unit {
            Some(u) => u,
            None => Vec::new(),
        };
        let r = MetricFamily { family_name, label_names, family_type, help, unit, samples };
        assert(r@.label_names =~= finish_family(f).label_names);
        assert(r@.help =~= finish_family(f).help);
        assert(r@.unit =~= finish_family(f).unit);
        assert(r@.samples =~= finish_family(f).samples);
        r
    }
}

/// The label padding of a non-strict sample keeps a family well formed.
proof fn lemma_sample_labels_keep_well_formed(f: FamilyModel, ls: Seq<(Seq<char>, Seq<char>)>, strict: bool)
    requires
        well_formed(f),
    ensures
        well_formed(sample_labels(f, ls, strict).0),
        sample_labels(f, ls, strict).0.family_type == f.family_type,
        sample_labels(f, ls, strict).0.name == f.name,
{
    let f2 = sample_labels(f, ls, strict).0;
    assert forall|i: int| 0 <= i < f2.metrics.len() implies value_present(#[trigger] f2.metrics[i].value)
        && same_kind(f2.metrics[i].value, crate::types::type_value(effective_type(f2))) by {
        assert(f2.metrics[i].value == f.metrics[i].value);
    }
}

/// A sample that a well-formed family takes leaves it well formed and named.
proof fn lemma_sample_keeps_well_formed(s: SampleLineModel, f: FamilyModel, strict: bool, tab: Seq<(Seq<char>, Option<u64>)>)
    requires
        well_formed(f),
    ensures
        parse_sample_spec(s, f, strict, tab) matches Ok(g) ==> well_formed(g) && g.name is Some,
{
    if let Ok(ls) = checked_labels(s.labels) {
        lemma_sample_labels_keep_well_formed(f, ls, strict);
        let (f2, names, values) = sample_labels(f, ls, strict);
        if let Ok(v) = read_value(s.value, tab) {
            if let Ok(ts) = read_timestamp(s.timestamp, tab) {
                if let Ok(ex) = read_exemplar(s.exemplar, tab) {
                    lemma_process_keeps_well_formed(f2, s.name, v, names, values, ts, ex, strict, tab);
                }
            }
        }
    }
}

proof fn lemma_family_error_stays(items: Seq<ItemModel>, k: int, strict: bool, tab: Seq<(Seq<char>, Option<u64>)>)
    requires
        0 <= k <= items.len(),
        family_items(items.take(k), strict, tab) is Err,
    ensures
        family_items(items, strict, tab) == family_items(items.take(k), strict, tab),
    decreases items.len() - k,
{
    if k < items.len() {
        assert(items.take(k + 1).drop_last() =~= items.take(k));
        lemma_family_error_stays(items, k + 1, strict, tab);
    } else {
        assert(items.take(k) =~= items);
    }
}

/// Reads a family from its lines, checks it and finishes it.
pub fn parse_metric_family(items: &Vec<Item>, strict_mode: bool, floats: &FloatTable) -> (r: Result<MetricFamily, Error>)
    requires
        items.len() > 0,
    ensures
        match parse_family_spec(items_view(items@), strict_mode, floats@) {
            Ok(fm) => r matches Ok(x) && x@ == fm,
            Err(e) => r matches Err(x) && error_view(x) == e,
        },
{
    reveal(parse_family_spec);
    let ghost iv = items_view(items@);
    let mut family = MetricFamilyMarshal::empty();
    let mut i: usize = 0;
    while i < items.len()
        invariant
            i <= items.len(),
            iv == items_view(items@),
            family_items(iv.take(i as int), strict_mode, floats@) == Ok::<FamilyModel, ErrorModel>(family@),
            well_formed(family@),
            i > 0 ==> family@.name is Some,
        decreases items.len() - i,
    {
        assert(iv.take(i + 1).drop_last() =~= iv.take(i as int));
        assert(iv.take(i + 1).last() == items@[i as int]@);
        reveal(parse_family_spec);
        let ghost f0 = family@;
        match &items[i] {
            Item::Sample(s) => {
                proof {
                    lemma_sample_keeps_well_formed(s@, f0, strict_mode, floats@);
                }
                match parse_sample(s, &mut family, strict_mode, floats) {
                    Err(e) => {
                        proof {
                            assert(family_items(iv.take(i + 1), strict_mode, floats@) == Err::<FamilyModel, ErrorModel>(error_view(e)));
                            lemma_family_error_stays(iv, i + 1, strict_mode, floats@);
                        }
                        return Err(e);
                    },
                    Ok(()) => {},
                }
            },
            it => {
                if family.metrics.len() > 0 {
                    proof {
                        assert(family_items(iv.take(i + 1), strict_mode, floats@) == Err::<FamilyModel, ErrorModel>(ParseError::InvalidMetric(Invalid::DescriptorAfterSamples)));
                        lemma_family_error_stays(iv, i + 1, strict_mode, floats@);
                    }
                    return Err(ParseError::InvalidMetric(Invalid::DescriptorAfterSamples));
                }
                match parse_metric_descriptor(it, &mut family) {
                    Err(e) => {
                        proof {
                            assert(family_items(iv.take(i + 1), strict_mode, floats@) == Err::<FamilyModel, ErrorModel>(error_view(e)));
                            lemma_family_error_stays(iv, i + 1, strict_mode, floats@);
                        }
                        return Err(e);
                    },
                    Ok(()) => {
                        assert(family@.metrics.len() == 0);
                    },
                }
            },
        }
        i = i + 1;
    }
    assert(iv.take(items.len() as int) =~= iv);
    proof {
        if family@.metrics.len() > 0 {
            crate::family::lemma_named_family_checkable(family@, family@.metrics, strict_mode);
        }
    }
    match family.validate(strict_mode) {
        Err(e) => Err(e),
        Ok(()) => Ok(MetricFamily::from(family)),
    }
}

fn has_family_exec(fs: &Vec<MetricFamily>, name: &Vec<char>) -> (r: bool)
    ensures
        r == has_family(fs@.map_values(|f: MetricFamily| f@), name@),
{
    let ghost v = fs@.map_values(|f: MetricFamily| f@);
    let mut found = false;
    let mut i: usize = 0;
    while i < fs.len()
        invariant
            i <= fs.len(),
            v == fs@.map_values(|f: MetricFamily| f@),
            found == has_family(v.take(i as int), name@),
        decreases fs.len() - i,
    {
        assert(v.take(i + 1).drop_last() =~= v.take(i as int));
        assert(v.take(i + 1).last() == fs@[i as int]@);
        if chars_eq(&fs[i].family_name, name) {
            found = true;
        }
        i = i + 1;
    }
    assert(v.take(fs.len() as int) =~= v);
    found
}

proof fn lemma_families_error_stays(groups: Seq<Seq<ItemModel>>, k: int, strict: bool, tab: Seq<(Seq<char>, Option<u64>)>)
    requires
        0 <= k <= groups.len(),
        families_spec(groups.take(k), strict, tab) is Err,
    ensures
        families_spec(groups, strict, tab) == families_spec(groups.take(k), strict, tab),
    decreases groups.len() - k,
{
    if k < groups.len() {
        assert(groups.take(k + 1).drop_last() =~= groups.take(k));
        lemma_families_error_stays(groups, k + 1, strict, tab);
    } else {
        assert(groups.take(k) =~= groups);
    }
}

/// Parses a Prometheus text exposition. Texts that are not `i64`s are read
/// as floats through `floats`.
pub fn parse_prometheus(exposition_bytes: &str, strict_mode: bool, floats: &FloatTable) -> (r: Result<MetricsExposition, Error>)
    ensures
        match parse_spec(exposition_bytes@, strict_mode, floats@) {
            Ok(fs) => r matches Ok(x) && x@ == fs,
            Err(e) => r matches Err(x) && error_view(x) == e,
        },
{
    let text = chars_of(exposition_bytes);
    let groups = match scan_exposition(&text) {
        Err(n) => {
            return Err(ParseError::ParseError(n));
        },
        Ok(g) => g,
    };
    let ghost gv = groups_view(groups@);
    proof {
        crate::syntax::lemma_scan_families_nonempty(crate::text::lines(text@));
    }
    let mut families: Vec<MetricFamily> = Vec::new();
    let mut i: usize = 0;
    assert(families@.map_values(|f: MetricFamily| f@) =~= Seq::<MetricFamilyModel>::empty());
    assert(gv.take(0) =~= Seq::<Seq<ItemModel>>::empty());
    while i < groups.len()
        invariant
            i <= groups.len(),
            gv == groups_view(groups@),
            parse_spec(exposition_bytes@, strict_mode, floats@) == families_spec(gv, strict_mode, floats@),
            forall|j: int| 0 <= j < gv.len() ==> #[trigger] gv[j].len() > 0,
            families_spec(gv.take(i as int), strict_mode, floats@) == Ok::<Seq<MetricFamilyModel>, ErrorModel>(
                families@.map_values(|f: MetricFamily| f@),
            ),
        decreases groups.len() - i,
    {
        assert(gv.take(i + 1).drop_last() =~= gv.take(i as int));
        assert(gv.take(i + 1).last() == items_view(groups@[i as int]@));
        assert(gv[i as int].len() > 0);
        match parse_metric_family(&groups[i], strict_mode, floats) {
            Err(e) => {
                proof {
                    assert(families_spec(gv.take(i + 1), strict_mode, floats@) == Err::<Seq<MetricFamilyModel>, ErrorModel>(error_view(e)));
                    lemma_families_error_stays(gv, i + 1, strict_mode, floats@);
                }
                return Err(e);
            },
            Ok(family) => {
                if has_family_exec(&families, &family.family_name) {
                    proof {
                        assert(families_spec(gv.take(i + 1), strict_mode, floats@) == Err::<Seq<MetricFamilyModel>, ErrorModel>(
                            ParseError::InvalidMetric(Invalid::FamilyAfterFinalised(family@.family_name)),
                        ));
                        lemma_families_error_stays(gv, i + 1, strict_mode, floats@);
                    }
                    return Err(ParseError::InvalidMetric(Invalid::FamilyAfterFinalised(copy_chars(&family.family_name))));
                }
                let ghost before = families@.map_values(|f: MetricFamily| f@);
                let ghost fv = family@;
                families.push(family);
                assert(families@.map_values(|f: MetricFamily| f@) =~= before.push(fv));
            },
        }
        i = i + 1;
    }
    assert(gv.take(groups.len() as int) =~= gv);
    Ok(MetricsExposition { families })
}

/// Parses a MediaMTX metrics listing: annotates it, then parses the
/// annotated exposition.
pub fn parse_mediamtx_prometheus(exposition_bytes: &str, strict_mode: bool, floats: &FloatTable) -> (r: Result<MetricsExposition, Error>)
    ensures
        match parse_spec(annotation(exposition_bytes@), strict_mode, floats@) {
            Ok(fs) => r matches Ok(x) && x@ == fs,
            Err(e) => r matches Err(x) && error_view(x) == e,
        },
{
    let annotated_mediamtx = annotate_mediamtx_metrics(exposition_bytes);
    parse_prometheus(annotated_mediamtx.as_str(), strict_mode, floats)
}

/// The texts of a sample line that parsing may read as floats: its label
/// values, its value, its timestamp, and its exemplar's value and timestamp.
pub open spec fn sample_float_texts(s: SampleLineModel) -> Seq<Seq<char>> {
    let labels = s.labels.map_values(|p: (Seq<char>, Seq<char>)| p.1);
    let ts: Seq<Seq<char>> = match s.timestamp {
        Some(t) => seq![t],
        None => seq![],
    };
    let ex: Seq<Seq<char>> = match s.exemplar {
        Some(e) => match e.timestamp {
            Some(t) => seq![e.value, t],
            None => seq![e.value],
        },
        None => seq![],
    };
    labels + seq![s.value] + ts + ex
}

pub open spec fn items_float_texts(items: Seq<ItemModel>) -> Seq<Seq<char>>
    decreases items.len(),
{
    if items.len() == 0 {
        seq![]
    } else {
        items_float_texts(items.drop_last()) + match items.last() {
            ItemModel::Sample(s) => sample_float_texts(s),
            _ => seq![],
        }
    }
}

pub open spec fn groups_float_texts(groups: Seq<Seq<ItemModel>>) -> Seq<Seq<char>>
    decreases groups.len(),
{
    if groups.len() == 0 {
        seq![]
    } else {
        groups_float_texts(groups.drop_last()) + items_float_texts(groups.last())
    }
}

/// The texts of an exposition that parsing may read as floats, in order;
/// none when the text breaks the grammar.
pub open spec fn float_texts_spec(text: Seq<char>) -> Seq<Seq<char>> {
    match scan(text) {
        Err(_) => seq![],
        Ok(groups) => groups_float_texts(groups),
    }
}

fn push_text(out: &mut Vec<Vec<char>>, t: &Vec<char>)
    ensures
        texts(final(out)@) == texts(old(out)@).push(t@),
{
    let ghost b = texts(out@);
    out.push(copy_chars(t));
    assert(texts(out@) =~= b.push(t@));
}

fn sample_float_texts_exec(out: &mut Vec<Vec<char>>, s: &SampleLine)
    ensures
        texts(final(out)@) == texts(old(out)@) + sample_float_texts(s@),
{
    let ghost start = texts(out@);
    let ghost labs = pairs_view(s.labels@).map_values(|p: (Seq<char>, Seq<char>)| p.1);
    let mut i: usize = 0;
    while i < s.labels.len()
        invariant
            i <= s.labels.len(),
            labs == pairs_view(s.labels@).map_values(|p: (Seq<char>, Seq<char>)| p.1),
            texts(out@) == start + labs.take(i as int),
        decreases s.labels.len() - i,
    {
        push_text(out, &s.labels[i].1);
        assert(labs.take(i + 1) =~= labs.take(i as int).push(s.labels@[i as int].1@));
        assert(texts(out@) =~= start + labs.take(i + 1));
        i = i + 1;
    }
    assert(labs.take(s.labels.len() as int) =~= labs);
    let ghost a = texts(out@);
    push_text(out, &s.value);
    let ghost b = texts(out@);
    match &s.timestamp {
        Some(t) => push_text(out, t),
        None => {},
    }
    let ghost c = texts(out@);
    match &s.exemplar {
        Some(e) => {
            push_text(out, &e.value);
            match &e.timestamp {
                Some(t) => push_text(out, t),
                None => {},
            }
        },
        None => {},
    }
    assert(texts(out@) =~= texts(old(out)@) + sample_float_texts(s@));
}

/// The texts of an exposition that parsing may read as floats (see
/// `float_texts_spec`): what a caller reads into the `FloatTable`.
pub fn float_texts(exposition_bytes: &str) -> (r: Vec<Vec<char>>)
    ensures
        texts(r@) == float_texts_spec(exposition_bytes@),
{
    let text = chars_of(exposition_bytes);
    let mut out: Vec<Vec<char>> = Vec::new();
    assert(texts(out@) =~= Seq::<Seq<char>>::empty());
    match scan_exposition(&text) {
        Err(_) => out,
        Ok(groups) => {
            let ghost gv = groups_view(groups@);
            let mut i: usize = 0;
            while i < groups.len()
                invariant
                    i <= groups.len(),
                    gv == groups_view(groups@),
                    texts(out@) == groups_float_texts(gv.take(i as int)),
                decreases groups.len() - i,
            {
                assert(gv.take(i + 1).drop_last() =~= gv.take(i as int));
                let ghost before = texts(out@);
                let g = &groups[i];
                let ghost iv = items_view(g@);
                assert(gv.take(i + 1).last() == iv);
                let mut j: usize = 0;
                while j < g.len()
                    invariant
                        j <= g.len(),
                        iv == items_view(g@),
                        texts(out@) == before + items_float_texts(iv.take(j as int)),
                    decreases g.len() - j,
                {
                    assert(iv.take(j + 1).drop_last() =~= iv.take(j as int));
                    assert(iv.take(j + 1).last() == g@[j as int]@);
                    let ghost mid = texts(out@);
                    match &g[j] {
                        Item::Sample(s) => sample_float_texts_exec(&mut out, s),
                        _ => {},
                    }
                    assert(texts(out@) =~= before + items_float_texts(iv.take(j + 1)));
                    j = j + 1;
                }
                assert(iv.take(g.len() as int) =~= iv);
                i = i + 1;
            }
            assert(gv.take(groups.len() as int) =~= gv);
            out
        },
    }
}

// ---------------------------------------------------------------------------
// Laws of a parsed exposition.

/// Law: a family read from its lines is well formed, and named once it has
/// a line.
pub proof fn lemma_family_items_well_formed(items: Seq<ItemModel>, strict: bool, tab: Seq<(Seq<char>, Option<u64>)>)
    ensures
        family_items(items, strict, tab) matches Ok(f) ==> well_formed(f) && (items.len() > 0 ==> f.name is Some),
    decreases items.len(),
{
    if items.len() > 0 {
        lemma_family_items_well_formed(items.drop_last(), strict, tab);
        if let Ok(f) = family_items(items.drop_last(), strict, tab) {
            match items.last() {
                ItemModel::Sample(s) => {
                    lemma_sample_keeps_well_formed(s, f, strict, tab);
                },
                d => {
                    if f.metrics.len() == 0 {
                        if let Ok(g) = descriptor_spec(d, f) {
                            assert(g.metrics.len() == 0);
                        }
                    }
                },
            }
        }
    }
}

/// A sample value as a complete, checked family holds it: a counter's
/// total and a summary's sum neither negative nor NaN, a histogram that
/// passes the histogram checks.
pub open spec fn sample_value_checked(v: PrometheusValueModel) -> bool {
    match v {
        PrometheusValueModel::Counter(c) => !crate::number::number_negative(c.total)
            && !crate::number::number_is_nan(c.total),
        PrometheusValueModel::Summary(s) => s.sum is Some ==> !crate::number::number_negative(
            s.sum->0,
        ) && !crate::number::number_is_nan(s.sum->0),
        PrometheusValueModel::Histogram(h) => crate::family::check_histogram(h) is Ok,
        _ => true,
    }
}

proof fn lemma_checked_metrics_each(f: FamilyModel, ms: Seq<MetricModel>, strict: bool)
    requires
        crate::family::check_metrics(f, ms, strict) is Ok,
    ensures
        forall|j: int| 0 <= j < ms.len() ==> crate::family::check_metric(f, #[trigger] ms[j], strict) is Ok,
    decreases ms.len(),
{
    if ms.len() > 0 {
        lemma_checked_metrics_each(f, ms.drop_last(), strict);
        assert forall|j: int| 0 <= j < ms.len() implies crate::family::check_metric(f, #[trigger] ms[j], strict) is Ok by {
            if j < ms.len() - 1 {
                assert(ms[j] == ms.drop_last()[j]);
            }
        }
    }
}

proof fn lemma_family_samples_checked(items: Seq<ItemModel>, strict: bool, tab: Seq<(Seq<char>, Option<u64>)>)
    ensures
        parse_family_spec(items, strict, tab) matches Ok(fm) ==> forall|j: int|
            0 <= j < fm.samples.len() ==> sample_value_checked(#[trigger] fm.samples[j].value),
{
    reveal(parse_family_spec);
    lemma_family_items_well_formed(items, strict, tab);
    if let Ok(f) = family_items(items, strict, tab) {
        if check_family(f, strict) is Ok {
            lemma_checked_metrics_each(f, f.metrics, strict);
            let fm = finish_family(f);
            assert forall|j: int| 0 <= j < fm.samples.len() implies sample_value_checked(#[trigger] fm.samples[j].value) by {
                assert(fm.samples[j] == finish_metric(f.metrics[j]));
                assert(value_present(f.metrics[j].value));
                assert(crate::family::check_metric(f, f.metrics[j], strict) is Ok);
            }
        }
    }
}

/// Law: in a parsed exposition no counter total and no summary sum is
/// negative or NaN, and every histogram has buckets, a `+Inf` bucket,
/// cumulative counts, and a sum and count together, the sum not negative
/// unless a bucket bound is, and absent then.
pub proof fn lemma_parsed_values_checked(text: Seq<char>, strict: bool, tab: Seq<(Seq<char>, Option<u64>)>)
    ensures
        parse_spec(text, strict, tab) matches Ok(fs) ==> forall|i: int, j: int|
            0 <= i < fs.len() && 0 <= j < fs[i].samples.len() ==> sample_value_checked(
                #[trigger] fs[i].samples[j].value,
            ),
{
    if let Ok(groups) = scan(text) {
        lemma_families_checked(groups, strict, tab);
    }
}

proof fn lemma_families_checked(groups: Seq<Seq<ItemModel>>, strict: bool, tab: Seq<(Seq<char>, Option<u64>)>)
    ensures
        families_spec(groups, strict, tab) matches Ok(fs) ==> forall|i: int, j: int|
            0 <= i < fs.len() && 0 <= j < fs[i].samples.len() ==> sample_value_checked(
                #[trigger] fs[i].samples[j].value,
            ),
    decreases groups.len(),
{
    if groups.len() > 0 {
        lemma_families_checked(groups.drop_last(), strict, tab);
        lemma_family_samples_checked(groups.last(), strict, tab);
        if let Ok(fs) = families_spec(groups.drop_last(), strict, tab) {
            if let Ok(fam) = parse_family_spec(groups.last(), strict, tab) {
                let all = fs.push(fam);
                assert forall|i: int, j: int| 0 <= i < all.len() && 0 <= j < all[i].samples.len() implies sample_value_checked(#[trigger] all[i].samples[j].value) by {
                    if i < fs.len() {
                        assert(all[i] == fs[i]);
                    }
                }
            }
        }
    }
}

proof fn lemma_has_family(fs: Seq<MetricFamilyModel>, name: Seq<char>)
    ensures
        has_family(fs, name) <==> exists|k: int| 0 <= k < fs.len() && #[trigger] fs[k].family_name == name,
    decreases fs.len(),
{
    if fs.len() > 0 {
        lemma_has_family(fs.drop_last(), name);
        if has_family(fs.drop_last(), name) {
            let k = choose|k: int| 0 <= k < fs.drop_last().len() && #[trigger] fs.drop_last()[k].family_name == name;
            assert(fs[k] == fs.drop_last()[k]);
        }
        if exists|k: int| 0 <= k < fs.len() && #[trigger] fs[k].family_name == name {
            let k = choose|k: int| 0 <= k < fs.len() && #[trigger] fs[k].family_name == name;
            if k < fs.len() - 1 {
                assert(fs.drop_last()[k] == fs[k]);
            }
        }
    }
}

proof fn lemma_families_distinct(groups: Seq<Seq<ItemModel>>, strict: bool, tab: Seq<(Seq<char>, Option<u64>)>)
    ensures
        families_spec(groups, strict, tab) matches Ok(fs) ==> forall|i: int, j: int|
            0 <= i < j < fs.len() ==> #[trigger] fs[i].family_name != #[trigger] fs[j].family_name,
    decreases groups.len(),
{
    if groups.len() > 0 {
        lemma_families_distinct(groups.drop_last(), strict, tab);
        if let Ok(fs) = families_spec(groups.drop_last(), strict, tab) {
            if let Ok(fam) = parse_family_spec(groups.last(), strict, tab) {
                lemma_has_family(fs, fam.family_name);
                if !has_family(fs, fam.family_name) {
                    let all = fs.push(fam);
                    assert forall|i: int, j: int| 0 <= i < j < all.len() implies #[trigger] all[i].family_name != #[trigger] all[j].family_name by {
                        assert(all[i] == fs[i]);
                        if j < fs.len() {
                            assert(all[j] == fs[j]);
                        } else if fs[i].family_name == fam.family_name {
                            assert(0 <= i < fs.len() && fs[i].family_name == fam.family_name);
                        }
                    }
                }
            }
        }
    }
}

/// Law: the families of a parsed exposition have distinct names.
pub proof fn lemma_family_names_distinct(text: Seq<char>, strict: bool, tab: Seq<(Seq<char>, Option<u64>)>)
    ensures
        parse_spec(text, strict, tab) matches Ok(fs) ==> forall|i: int, j: int|
            0 <= i < j < fs.len() ==> #[trigger] fs[i].family_name != #[trigger] fs[j].family_name,
{
    if let Ok(groups) = scan(text) {
        lemma_families_distinct(groups, strict, tab);
    }
}

proof fn lemma_pad_keeps_distinct(ms: Seq<MetricModel>, k: nat)
    requires
        crate::family::distinct_label_sets(ms),
    ensures
        crate::family::distinct_label_sets(pad_metrics(ms, k)),
{
    let p = pad_metrics(ms, k);
    assert forall|a: int, b: int| 0 <= a < b < p.len() implies #[trigger] p[a].label_values != #[trigger] p[b].label_values by {
        let x = ms[a].label_values;
        let y = ms[b].label_values;
        let e = Seq::new(k, |i: int| Seq::<char>::empty());
        if p[a].label_values == p[b].label_values {
            assert(x + e == y + e);
            assert(x.len() == y.len());
            assert(x =~= (x + e).take(x.len() as int));
            assert(y =~= (y + e).take(y.len() as int));
        }
    }
}

proof fn lemma_family_items_distinct(items: Seq<ItemModel>, strict: bool, tab: Seq<(Seq<char>, Option<u64>)>)
    ensures
        family_items(items, strict, tab) matches Ok(f) ==> crate::family::distinct_label_sets(f.metrics),
    decreases items.len(),
{
    if items.len() > 0 {
        lemma_family_items_distinct(items.drop_last(), strict, tab);
        if let Ok(f) = family_items(items.drop_last(), strict, tab) {
            match items.last() {
                ItemModel::Sample(s) => {
                    if let Ok(ls) = checked_labels(s.labels) {
                        let (f2, names, values) = sample_labels(f, ls, strict);
                        if !strict && f.label_names is Some {
                            let old = f.label_names->0;
                            let merged = merged_names(old, ls, f.family_type);
                            lemma_pad_keeps_distinct(f.metrics, (merged.len() - old.len()) as nat);
                        }
                        if let Ok(v) = read_value(s.value, tab) {
                            if let Ok(ts) = read_timestamp(s.timestamp, tab) {
                                if let Ok(ex) = read_exemplar(s.exemplar, tab) {
                                    crate::family::lemma_process_keeps_label_sets_distinct(f2, s.name, v, names, values, ts, ex, strict, tab);
                                }
                            }
                        }
                    }
                },
                d => {
                    if f.metrics.len() == 0 {
                        if let Ok(g) = descriptor_spec(d, f) {
                            assert(g.metrics.len() == 0);
                        }
                    }
                },
            }
        }
    }
}

proof fn lemma_families_distinct_samples(groups: Seq<Seq<ItemModel>>, strict: bool, tab: Seq<(Seq<char>, Option<u64>)>)
    ensures
        families_spec(groups, strict, tab) matches Ok(fs) ==> forall|i: int, a: int, b: int|
            0 <= i < fs.len() && 0 <= a < b < fs[i].samples.len() ==> #[trigger] fs[i].samples[a].label_values
                != #[trigger] fs[i].samples[b].label_values,
    decreases groups.len(),
{
    if groups.len() > 0 {
        lemma_families_distinct_samples(groups.drop_last(), strict, tab);
        if let Ok(fs) = families_spec(groups.drop_last(), strict, tab) {
            if let Ok(fam) = parse_family_spec(groups.last(), strict, tab) {
                reveal(parse_family_spec);
                lemma_family_items_distinct(groups.last(), strict, tab);
                let f = family_items(groups.last(), strict, tab)->Ok_0;
                assert forall|a: int, b: int| 0 <= a < b < fam.samples.len() implies #[trigger] fam.samples[a].label_values != #[trigger] fam.samples[b].label_values by {
                    assert(fam.samples[a].label_values == f.metrics[a].label_values);
                    assert(fam.samples[b].label_values == f.metrics[b].label_values);
                }
                let all = fs.push(fam);
                assert forall|i: int, a: int, b: int| 0 <= i < all.len() && 0 <= a < b < all[i].samples.len() implies #[trigger] all[i].samples[a].label_values != #[trigger] all[i].samples[b].label_values by {
                    if i < fs.len() {
                        assert(all[i] == fs[i]);
                    }
                }
            }
        }
    }
}

/// Law: within a parsed family, no two samples carry the same label values.
pub proof fn lemma_samples_have_distinct_label_values(text: Seq<char>, strict: bool, tab: Seq<(Seq<char>, Option<u64>)>)
    ensures
        parse_spec(text, strict, tab) matches Ok(fs) ==> forall|i: int, a: int, b: int|
            0 <= i < fs.len() && 0 <= a < b < fs[i].samples.len() ==> #[trigger] fs[i].samples[a].label_values
                != #[trigger] fs[i].samples[b].label_values,
{
    if let Ok(groups) = scan(text) {
        lemma_families_distinct_samples(groups, strict, tab);
    }
}

/// Law: a newline at the end of an exposition does not change what it parses
/// to, unless the text ends with a carriage return.
pub proof fn lemma_parse_trailing_newline(text: Seq<char>, strict: bool, tab: Seq<(Seq<char>, Option<u64>)>)
    requires
        text.len() == 0 || text.last() != '\r',
    ensures
        parse_spec(text.push('\n'), strict, tab) == parse_spec(text, strict, tab),
{
    crate::syntax::lemma_scan_trailing_newline(text);
}


proof fn lemma_agree_split(
    t1: Seq<(Seq<char>, Option<u64>)>,
    t2: Seq<(Seq<char>, Option<u64>)>,
    a: Seq<Seq<char>>,
    b: Seq<Seq<char>>,
)
    requires
        agree_on(t1, t2, a + b),
    ensures
        agree_on(t1, t2, a),
        agree_on(t1, t2, b),
{
    assert forall|i: int| 0 <= i < a.len() implies #[trigger] read_alike(t1, t2, a[i]) by {
        assert((a + b)[i] == a[i]);
    }
    assert forall|i: int| 0 <= i < b.len() implies #[trigger] read_alike(t1, t2, b[i]) by {
        assert((a + b)[a.len() + i] == b[i]);
    }
}

/// The value of a label, when there is one, is the value of one of the labels.
proof fn lemma_label_value_from(ls: Seq<(Seq<char>, Seq<char>)>, n: Seq<char>)
    ensures
        label_value(ls, n) matches Some(v) ==> exists|i: int| 0 <= i < ls.len() && #[trigger] ls[i].1 == v,
    decreases ls.len(),
{
    if ls.len() > 0 {
        if ls[0].0 == n {
            assert(ls[0].1 == ls[0].1);
        } else {
            lemma_label_value_from(ls.drop_first(), n);
            if let Some(v) = label_value(ls.drop_first(), n) {
                let i = choose|i: int| 0 <= i < ls.drop_first().len() && #[trigger] ls.drop_first()[i].1 == v;
                assert(ls[i + 1].1 == v);
            }
        }
    }
}

/// The label values a sample is processed with are its own label values or
/// the empty text; a table that reads those alike reads them all alike.
proof fn lemma_sample_labels_alike(
    f: FamilyModel,
    raw: Seq<(Seq<char>, Seq<char>)>,
    strict: bool,
    t1: Seq<(Seq<char>, Option<u64>)>,
    t2: Seq<(Seq<char>, Option<u64>)>,
)
    requires
        agree_on(t1, t2, raw.map_values(|p: (Seq<char>, Seq<char>)| p.1)),
        read_alike(t1, t2, Seq::<char>::empty()),
    ensures
        sample_labels(f, sort_labels(raw), strict).1.len() == sample_labels(f, sort_labels(raw), strict).2.len(),
        agree_on(t1, t2, sample_labels(f, sort_labels(raw), strict).2),
{
    broadcast use vstd::seq_lib::group_to_multiset_ensures;
    let ls = sort_labels(raw);
    let rv = raw.map_values(|p: (Seq<char>, Seq<char>)| p.1);
    crate::labels::lemma_sorted_labels(raw);
    assert forall|i: int| 0 <= i < ls.len() implies #[trigger] read_alike(t1, t2, ls[i].1) by {
        assert(ls.to_multiset().count(ls[i]) > 0);
        assert(raw.contains(ls[i]));
        let k = choose|k: int| 0 <= k < raw.len() && raw[k] == ls[i];
        assert(rv[k] == ls[i].1);
        assert(read_alike(t1, t2, rv[k]));
    }
    assert forall|n: Seq<char>| #[trigger] label_value(ls, n) is Some implies read_alike(t1, t2, label_value(ls, n)->0) by {
        lemma_label_value_from(ls, n);
    }
    let (f2, names, values) = sample_labels(f, ls, strict);
    if !strict && f.label_names is Some {
        let merged = merged_names(f.label_names->0, ls, f.family_type);
        let tail = reserved_tail(ls);
        let vf = values_for(merged, ls);
        assert forall|i: int| 0 <= i < vf.len() implies #[trigger] read_alike(t1, t2, vf[i]) by {
            if label_value(ls, merged[i]) is Some {
                assert(read_alike(t1, t2, label_value(ls, merged[i])->0));
            }
        }
        if label_value(ls, "le"@) is Some {
            assert(read_alike(t1, t2, label_value(ls, "le"@)->0));
        }
        if label_value(ls, "quantile"@) is Some {
            assert(read_alike(t1, t2, label_value(ls, "quantile"@)->0));
        }
        assert forall|i: int| 0 <= i < tail.1.len() implies #[trigger] read_alike(t1, t2, tail.1[i]) by {}
        assert(values == vf + tail.1);
        assert forall|i: int| 0 <= i < values.len() implies #[trigger] read_alike(t1, t2, values[i]) by {
            if i < vf.len() {
                assert(values[i] == vf[i]);
            } else {
                assert(values[i] == tail.1[i - vf.len()]);
            }
        }
    } else {
        assert forall|i: int| 0 <= i < values.len() implies #[trigger] read_alike(t1, t2, values[i]) by {
            assert(values[i] == ls[i].1);
        }
    }
}

/// What a family does with a sample line reads the table only at the
/// line's float texts and the empty text.
proof fn lemma_sample_alike(
    s: SampleLineModel,
    f: FamilyModel,
    strict: bool,
    t1: Seq<(Seq<char>, Option<u64>)>,
    t2: Seq<(Seq<char>, Option<u64>)>,
)
    requires
        agree_on(t1, t2, sample_float_texts(s)),
        read_alike(t1, t2, Seq::<char>::empty()),
    ensures
        parse_sample_spec(s, f, strict, t1) == parse_sample_spec(s, f, strict, t2),
{
    let labels = s.labels.map_values(|p: (Seq<char>, Seq<char>)| p.1);
    let ts: Seq<Seq<char>> = match s.timestamp {
        Some(t) => seq![t],
        None => seq![],
    };
    let ex: Seq<Seq<char>> = match s.exemplar {
        Some(e) => match e.timestamp {
            Some(t) => seq![e.value, t],
            None => seq![e.value],
        },
        None => seq![],
    };
    assert(sample_float_texts(s) == labels + seq![s.value] + ts + ex);
    lemma_agree_split(t1, t2, labels + seq![s.value] + ts, ex);
    lemma_agree_split(t1, t2, labels + seq![s.value], ts);
    lemma_agree_split(t1, t2, labels, seq![s.value]);
    assert(read_alike(t1, t2, seq![s.value][0]));
    if let Some(t) = s.timestamp {
        assert(read_alike(t1, t2, ts[0]));
    }
    if let Some(e) = s.exemplar {
        assert(read_alike(t1, t2, ex[0]));
        if let Some(t) = e.timestamp {
            assert(read_alike(t1, t2, ex[1]));
        }
    }
    assert(read_value(s.value, t1) == read_value(s.value, t2));
    assert(read_timestamp(s.timestamp, t1) == read_timestamp(s.timestamp, t2));
    assert(read_exemplar(s.exemplar, t1) == read_exemplar(s.exemplar, t2));
    if let Ok(ls) = checked_labels(s.labels) {
        lemma_sample_labels_alike(f, s.labels, strict, t1, t2);
        let (f2, names, values) = sample_labels(f, ls, strict);
        if let Ok(v) = read_value(s.value, t1) {
            if let Ok(tsv) = read_timestamp(s.timestamp, t1) {
                if let Ok(exv) = read_exemplar(s.exemplar, t1) {
                    crate::family::lemma_equal_lengths_reach(f2, s.name, names, values, exv);
                    crate::family::lemma_process_alike(f2, s.name, v, names, values, tsv, exv, strict, t1, t2);
                }
            }
        }
    }
}

proof fn lemma_family_items_alike(
    items: Seq<ItemModel>,
    strict: bool,
    t1: Seq<(Seq<char>, Option<u64>)>,
    t2: Seq<(Seq<char>, Option<u64>)>,
)
    requires
        agree_on(t1, t2, items_float_texts(items)),
        read_alike(t1, t2, Seq::<char>::empty()),
    ensures
        family_items(items, strict, t1) == family_items(items, strict, t2),
    decreases items.len(),
{
    if items.len() > 0 {
        let last: Seq<Seq<char>> = match items.last() {
            ItemModel::Sample(s) => sample_float_texts(s),
            _ => seq![],
        };
        lemma_agree_split(t1, t2, items_float_texts(items.drop_last()), last);
        lemma_family_items_alike(items.drop_last(), strict, t1, t2);
        if let Ok(f) = family_items(items.drop_last(), strict, t1) {
            if let ItemModel::Sample(s) = items.last() {
                lemma_sample_alike(s, f, strict, t1, t2);
            }
        }
    }
}

proof fn lemma_families_alike(
    groups: Seq<Seq<ItemModel>>,
    strict: bool,
    t1: Seq<(Seq<char>, Option<u64>)>,
    t2: Seq<(Seq<char>, Option<u64>)>,
)
    requires
        agree_on(t1, t2, groups_float_texts(groups)),
        read_alike(t1, t2, Seq::<char>::empty()),
    ensures
        families_spec(groups, strict, t1) == families_spec(groups, strict, t2),
    decreases groups.len(),
{
    if groups.len() > 0 {
        lemma_agree_split(t1, t2, groups_float_texts(groups.drop_last()), items_float_texts(groups.last()));
        lemma_families_alike(groups.drop_last(), strict, t1, t2);
        lemma_family_items_alike(groups.last(), strict, t1, t2);
        assert(parse_family_spec(groups.last(), strict, t1) == parse_family_spec(groups.last(), strict, t2)) by {
            reveal(parse_family_spec);
        }
    }
}

/// Law: parsing reads the float table only at the texts that `float_texts`
/// lists and at the empty text; two tables that read those alike give the
/// same result.
pub proof fn lemma_parse_reads_listed_floats(
    text: Seq<char>,
    strict: bool,
    t1: Seq<(Seq<char>, Option<u64>)>,
    t2: Seq<(Seq<char>, Option<u64>)>,
)
    requires
        agree_on(t1, t2, float_texts_spec(text)),
        read_alike(t1, t2, Seq::<char>::empty()),
    ensures
        parse_spec(text, strict, t1) == parse_spec(text, strict, t2),
{
    if let Ok(groups) = scan(text) {
        lemma_families_alike(groups, strict, t1, t2);
    }
}

} // verus!
