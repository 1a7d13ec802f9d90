//! A metric family under construction: its descriptors, the samples it
//! takes one by one, and the checks it passes once complete.
use vstd::prelude::*;
use crate::number::{
    as_i64, float_ge, float_lt, ge_float, lt_float, nan, nan_number, negative_number,
    number_as_i64, number_is_nan, number_negative, MetricNumber, ONE,
};
use crate::text::{chars_eq, chars_of, copy_chars, ends_with, ends_with_str, texts, trim_end, trim_end_str};
use crate::types::{
    error_view, float_reading, ignored_labels, multiple_lines, opt_exemplar,
    exemplar_allowed, metrics_view, type_value, BucketModel, Error, ErrorModel,
    Exemplar, ExemplarModel, FamilyModel, FloatTable, HistogramBucket, HistogramModel,
    Invalid, MetricFamilyMarshal, MetricMarshal, MetricModel, MetricValueMarshal, ParseError,
    PrometheusType, Quantile, SummaryModel, ValueModel,
};

verus! {

/// What a sample does to its metric, chosen by the family type and the
/// sample name's suffix.
#[derive(Clone, Copy, PartialEq, Eq, Structural)]
pub enum Action {
    HistogramBucket,
    HistogramCount,
    HistogramSum,
    CounterTotal,
    GaugeValue,
    UnknownValue,
    UntypedValue,
    SummaryCount,
    SummarySum,
    SummaryQuantile,
}

/// The type a family's samples are read as: its declared type, else `Unknown`.
pub open spec fn effective_type(f: FamilyModel) -> PrometheusType {
    match f.family_type {
        Some(t) => t,
        None => PrometheusType::Unknown,
    }
}

/// The handler for a sample name: the suffix it is read with, the label it
/// must carry, and its action. The first suffix that the name ends with
/// wins; every type has a handler for the empty suffix.
pub open spec fn handler(t: PrometheusType, name: Seq<char>) -> (Seq<char>, Option<Seq<char>>, Action) {
    match t {
        PrometheusType::Histogram => if ends_with(name, "_bucket"@) {
            ("_bucket"@, Some("le"@), Action::HistogramBucket)
        } else if ends_with(name, "_count"@) {
            ("_count"@, None, Action::HistogramCount)
        } else if ends_with(name, "_sum"@) {
            ("_sum"@, None, Action::HistogramSum)
        } else {
            (""@, None, Action::HistogramCount)
        },
        PrometheusType::Counter => (""@, None, Action::CounterTotal),
        PrometheusType::Gauge => (""@, None, Action::GaugeValue),
        PrometheusType::Unknown => (""@, None, Action::UnknownValue),
        PrometheusType::Untyped => (""@, None, Action::UntypedValue),
        PrometheusType::Summary => if ends_with(name, "_count"@) {
            ("_count"@, None, Action::SummaryCount)
        } else if ends_with(name, "_sum"@) {
            ("_sum"@, None, Action::SummarySum)
        } else {
            (""@, Some("quantile"@), Action::SummaryQuantile)
        },
    }
}

/// The index of the first occurrence of `x` in `s`, or `-1`.
pub open spec fn first_index(s: Seq<Seq<char>>, x: Seq<char>) -> int
    decreases s.len(),
{
    if s.len() == 0 {
        -1
    } else if s[0] == x {
        0
    } else {
        let k = first_index(s.drop_first(), x);
        if k < 0 {
            -1
        } else {
            k + 1
        }
    }
}

/// The label names and values without the handler's mandatory label, or
/// the error for a sample that lacks it.
pub open spec fn without_mandatory(
    names: Seq<Seq<char>>,
    values: Seq<Seq<char>>,
    mandatory: Option<Seq<char>>,
) -> Result<(Seq<Seq<char>>, Seq<Seq<char>>), ErrorModel> {
    match mandatory {
        None => Ok((names, values)),
        Some(l) => if !names.contains(l) {
            Err(ParseError::InvalidMetric(Invalid::MissingMandatoryLabel(l)))
        } else {
            let i = first_index(names, l);
            Ok((names.remove(i), values.remove(i)))
        },
    }
}

/// `s` without the texts in `ig`.
pub open spec fn without(s: Seq<Seq<char>>, ig: Seq<Seq<char>>) -> Seq<Seq<char>>
    decreases s.len(),
{
    if s.len() == 0 {
        seq![]
    } else if ig.contains(s.last()) {
        without(s.drop_last(), ig)
    } else {
        without(s.drop_last(), ig).push(s.last())
    }
}

/// Whether a sample's label names agree with its family's, leaving out the
/// labels that the sample's name ignores.
pub open spec fn names_match(t: PrometheusType, sample_name: Seq<char>, old: Seq<Seq<char>>, new: Seq<Seq<char>>) -> bool {
    let ig = ignored_labels(t, sample_name);
    without(old, ig) == without(new, ig)
}

/// The family's label names after a sample: set by the first sample; in
/// strict mode a sample that disagrees is refused.
pub open spec fn set_label_names(
    f: FamilyModel,
    sample_name: Seq<char>,
    names: Seq<Seq<char>>,
    strict: bool,
) -> Result<FamilyModel, ErrorModel> {
    match f.label_names {
        None => Ok(FamilyModel { label_names: Some(names), ..f }),
        Some(old) => if !names_match(effective_type(f), sample_name, old, names) && strict {
            Err(ParseError::InvalidMetric(Invalid::LabelSetMismatch(old, names)))
        } else {
            Ok(f)
        },
    }
}

/// The index of the first metric with these label values, or `-1`.
pub open spec fn metric_index(ms: Seq<MetricModel>, values: Seq<Seq<char>>) -> int
    decreases ms.len(),
{
    if ms.len() == 0 {
        -1
    } else if ms[0].label_values == values {
        0
    } else {
        let k = metric_index(ms.drop_first(), values);
        if k < 0 {
            -1
        } else {
            k + 1
        }
    }
}

/// The float bits of a value read as a float.
pub open spec fn float_bits(v: MetricNumber) -> u64 {
    match v {
        MetricNumber::Float(b) => b,
        MetricNumber::Int(_) => 0,
    }
}

/// An integer count as histograms and summaries take it: the value as an
/// `i64`, refused when negative or not integral.
pub open spec fn count_of(v: MetricNumber, summary: bool) -> Result<u64, ErrorModel> {
    match number_as_i64(v) {
        Some(i) => if i < 0 {
            Err(
                ParseError::InvalidMetric(
                    if summary {
                        Invalid::NegativeSummaryCount(i)
                    } else {
                        Invalid::NegativeHistogramCount(i)
                    },
                ),
            )
        } else {
            Ok(i as u64)
        },
        None => Err(
            ParseError::InvalidMetric(
                if summary {
                    Invalid::NonIntegerSummaryCount(float_bits(v))
                } else {
                    Invalid::NonIntegerHistogramCount(float_bits(v))
                },
            ),
        ),
    }
}

/// What the action does to the metric that a sample lands on. `names` and
/// `values` are the sample's full label set; `tab` reads label values as floats.
pub open spec fn act(
    m: MetricModel,
    action: Action,
    v: MetricNumber,
    names: Seq<Seq<char>>,
    values: Seq<Seq<char>>,
    ex: Option<ExemplarModel>,
    tab: Seq<(Seq<char>, Option<u64>)>,
) -> Result<MetricModel, ErrorModel> {
    match action {
        Action::HistogramBucket => {
            let bound = values[first_index(names, "le"@)];
            match float_reading(tab, bound) {
                None => Err(ParseError::InvalidMetric(Invalid::InvalidHistogramBound(bound))),
                Some(b) => match m.value {
                    ValueModel::Histogram(h) => Ok(
                        MetricModel {
                            value: ValueModel::Histogram(
                                HistogramModel {
                                    buckets: h.buckets.push(
                                        BucketModel { count: v, upper_bound: b, exemplar: ex },
                                    ),
                                    ..h
                                },
                            ),
                            ..m
                        },
                    ),
                    _ => Ok(m),
                },
            }
        },
        Action::HistogramCount => match m.value {
            ValueModel::Histogram(h) => match count_of(v, false) {
                Err(e) => Err(e),
                Ok(c) => if h.count is Some {
                    Err(ParseError::DuplicateMetric)
                } else {
                    Ok(
                        MetricModel {
                            value: ValueModel::Histogram(HistogramModel { count: Some(c), ..h }),
                            ..m
                        },
                    )
                },
            },
            _ => Ok(m),
        },
        Action::HistogramSum => match m.value {
            ValueModel::Histogram(h) => if h.sum is Some {
                Err(ParseError::DuplicateMetric)
            } else {
                Ok(
                    MetricModel {
                        value: ValueModel::Histogram(HistogramModel { sum: Some(v), ..h }),
                        ..m
                    },
                )
            },
            _ => Ok(m),
        },
        Action::CounterTotal => match m.value {
            ValueModel::Counter(c) => if c is Some {
                Err(ParseError::DuplicateMetric)
            } else if number_negative(v) || number_is_nan(v) {
                Err(ParseError::InvalidMetric(Invalid::NegativeTotal(v)))
            } else {
                Ok(MetricModel { value: ValueModel::Counter(Some(v)), ..m })
            },
            _ => Ok(m),
        },
        Action::GaugeValue => match m.value {
            ValueModel::Gauge(g) => if g is Some {
                Err(ParseError::DuplicateMetric)
            } else {
                Ok(MetricModel { value: ValueModel::Gauge(Some(v)), ..m })
            },
            _ => Ok(m),
        },
        Action::UnknownValue => match m.value {
            ValueModel::Unknown(_) => Ok(MetricModel { value: ValueModel::Unknown(Some(v)), ..m }),
            _ => Ok(m),
        },
        Action::UntypedValue => match m.value {
            ValueModel::Unknown(u) => if u is Some {
                Err(ParseError::DuplicateMetric)
            } else {
                Ok(MetricModel { value: ValueModel::Unknown(Some(v)), ..m })
            },
            _ => Ok(m),
        },
        Action::SummaryCount => match m.value {
            ValueModel::Summary(s) => match count_of(v, true) {
                Err(e) => Err(e),
                Ok(c) => if s.count is None {
                    Ok(
                        MetricModel {
                            value: ValueModel::Summary(SummaryModel { count: Some(c), ..s }),
                            ..m
                        },
                    )
                } else {
                    Err(ParseError::DuplicateMetric)
                },
            },
            _ => Ok(m),
        },
        Action::SummarySum => if number_negative(v) || number_is_nan(v) {
            Err(ParseError::InvalidMetric(Invalid::NegativeTotal(v)))
        } else {
            match m.value {
                ValueModel::Summary(s) => if s.sum is None {
                    Ok(
                        MetricModel {
                            value: ValueModel::Summary(SummaryModel { sum: Some(v), ..s }),
                            ..m
                        },
                    )
                } else {
                    Err(ParseError::DuplicateMetric)
                },
                _ => Ok(m),
            }
        },
        Action::SummaryQuantile => if !number_is_nan(v) && number_negative(v) {
            Err(ParseError::InvalidMetric(Invalid::NegativeQuantileValue))
        } else {
            let bound = values[first_index(names, "quantile"@)];
            match float_reading(tab, bound) {
                None => Err(ParseError::InvalidMetric(Invalid::InvalidSummaryBound(bound))),
                Some(b) => if crate::number::is_nan(b) || float_lt(b, 0) || float_lt(ONE, b) {
                    Err(ParseError::InvalidMetric(Invalid::SummaryBoundOutOfRange(b)))
                } else {
                    match m.value {
                        ValueModel::Summary(s) => Ok(
                            MetricModel {
                                value: ValueModel::Summary(
                                    SummaryModel {
                                        quantiles: s.quantiles.push(Quantile { quantile: b, value: v }),
                                        ..s
                                    },
                                ),
                                ..m
                            },
                        ),
                        _ => Ok(m),
                    }
                },
            }
        },
    }
}

/// The action applied to the family's metric at index `j`.
pub open spec fn apply_at(
    f: FamilyModel,
    j: int,
    action: Action,
    v: MetricNumber,
    names: Seq<Seq<char>>,
    values: Seq<Seq<char>>,
    ex: Option<ExemplarModel>,
    tab: Seq<(Seq<char>, Option<u64>)>,
) -> Result<FamilyModel, ErrorModel> {
    match act(f.metrics[j], action, v, names, values, ex, tab) {
        Ok(m) => Ok(FamilyModel { metrics: f.metrics.update(j, m), ..f }),
        Err(e) => Err(e),
    }
}

/// The metric lookup and the action, once the label set and family name
/// are settled: a new metric for a new label set; for a known one, the
/// timestamps must not go back nor come and go, and a later line of a
/// single-line type is ignored.
pub open spec fn land(
    f: FamilyModel,
    t: PrometheusType,
    action: Action,
    v: MetricNumber,
    names: Seq<Seq<char>>,
    values: Seq<Seq<char>>,
    label_values: Seq<Seq<char>>,
    ts: Option<u64>,
    ex: Option<ExemplarModel>,
    tab: Seq<(Seq<char>, Option<u64>)>,
) -> Result<FamilyModel, ErrorModel> {
    let j = metric_index(f.metrics, label_values);
    if j >= 0 {
        let m = f.metrics[j];
        if m.timestamp is Some && ts is Some && float_lt(ts->0, m.timestamp->0) {
            Err(
                ParseError::InvalidMetric(
                    Invalid::TimestampsBackwards(m.timestamp->0, ts->0),
                ),
            )
        } else if m.timestamp is Some != ts is Some {
            Err(ParseError::InvalidMetric(Invalid::MissingTimestamp))
        } else if m.timestamp is Some && ts is Some && float_ge(ts->0, m.timestamp->0)
            && !multiple_lines(t) {
            Ok(f)
        } else {
            apply_at(f, j, action, v, names, values, ex, tab)
        }
    } else {
        let f2 = FamilyModel {
            metrics: f.metrics.push(
                MetricModel { label_values, timestamp: ts, value: type_value(t) },
            ),
            ..f
        };
        apply_at(f2, f.metrics.len() as int, action, v, names, values, ex, tab)
    }
}

/// What a family does with a sample: `name`, value `v`, its label `names`
/// and `values`, timestamp and exemplar.
pub open spec fn process_spec(
    f: FamilyModel,
    name: Seq<char>,
    v: MetricNumber,
    names: Seq<Seq<char>>,
    values: Seq<Seq<char>>,
    ts: Option<u64>,
    ex: Option<ExemplarModel>,
    strict: bool,
    tab: Seq<(Seq<char>, Option<u64>)>,
) -> Result<FamilyModel, ErrorModel> {
    let t = effective_type(f);
    if !exemplar_allowed(t, name) && ex is Some {
        Err(ParseError::InvalidMetric(Invalid::ExemplarNotAllowed(t)))
    } else {
        let (suffix, mandatory, action) = handler(t, name);
        match without_mandatory(names, values, mandatory) {
            Err(e) => Err(e),
            Ok((an, av)) => match set_label_names(f, name, an, strict) {
                Err(e) => Err(e),
                Ok(f1) => {
                    let trimmed = trim_end(name, suffix);
                    if f1.name is Some && f1.name->0 != trimmed && strict {
                        Err(
                            ParseError::InvalidMetric(
                                Invalid::FamilyNameMismatch(trimmed, f1.name->0),
                            ),
                        )
                    } else {
                        let f2 = if f1.name is None {
                            FamilyModel { name: Some(trimmed), ..f1 }
                        } else {
                            f1
                        };
                        land(f2, t, action, v, names, values, av, ts, ex, tab)
                    }
                },
            },
        }
    }
}

/// The family after `land`, whatever its result: on success the result; on
/// an error the family as it was, keeping the new (still empty) metric of a
/// label set it did not know.
pub open spec fn land_state(
    f: FamilyModel,
    t: PrometheusType,
    action: Action,
    v: MetricNumber,
    names: Seq<Seq<char>>,
    values: Seq<Seq<char>>,
    label_values: Seq<Seq<char>>,
    ts: Option<u64>,
    ex: Option<ExemplarModel>,
    tab: Seq<(Seq<char>, Option<u64>)>,
) -> FamilyModel {
    match land(f, t, action, v, names, values, label_values, ts, ex, tab) {
        Ok(g) => g,
        Err(_) => if metric_index(f.metrics, label_values) >= 0 {
            f
        } else {
            FamilyModel {
                metrics: f.metrics.push(
                    MetricModel { label_values, timestamp: ts, value: type_value(t) },
                ),
                ..f
            }
        },
    }
}

/// The family after it takes a sample, whatever the result: a refused
/// exemplar, a missing mandatory label or a refused label set leave it as
/// it was; a name that disagrees leaves the label names it settled; past
/// that, what `land` leaves.
pub open spec fn process_state(
    f: FamilyModel,
    name: Seq<char>,
    v: MetricNumber,
    names: Seq<Seq<char>>,
    values: Seq<Seq<char>>,
    ts: Option<u64>,
    ex: Option<ExemplarModel>,
    strict: bool,
    tab: Seq<(Seq<char>, Option<u64>)>,
) -> FamilyModel {
    let t = effective_type(f);
    if !exemplar_allowed(t, name) && ex is Some {
        f
    } else {
        let (suffix, mandatory, action) = handler(t, name);
        match without_mandatory(names, values, mandatory) {
            Err(_) => f,
            Ok((an, av)) => match set_label_names(f, name, an, strict) {
                Err(_) => f,
                Ok(f1) => {
                    let trimmed = trim_end(name, suffix);
                    if f1.name is Some && f1.name->0 != trimmed && strict {
                        f1
                    } else {
                        let f2 = if f1.name is None {
                            FamilyModel { name: Some(trimmed), ..f1 }
                        } else {
                            f1
                        };
                        land_state(f2, t, action, v, names, values, av, ts, ex, tab)
                    }
                },
            },
        }
    }
}

/// The label values reach as far as a sample's mandatory label: where the
/// sample's handler needs a label that the names carry, its first position
/// is a position of the values. (Only such samples index the values.)
pub open spec fn values_reach_mandatory(
    f: FamilyModel,
    name: Seq<char>,
    names: Seq<Seq<char>>,
    values: Seq<Seq<char>>,
    ex: Option<ExemplarModel>,
) -> bool {
    let t = effective_type(f);
    (exemplar_allowed(t, name) || ex is None) ==> match handler(t, name).1 {
        Some(l) => names.contains(l) ==> first_index(names, l) < values.len(),
        None => true,
    }
}

/// A `# HELP` or `# TYPE` name: the family's name, or the first one it gets.
pub open spec fn set_or_test_name(f: FamilyModel, name: Seq<char>) -> Result<FamilyModel, ErrorModel> {
    if f.name is Some && f.name->0 != name {
        Err(ParseError::InvalidMetric(Invalid::FamilyNameConflict(f.name, name)))
    } else {
        Ok(FamilyModel { name: Some(name), ..f })
    }
}

/// A family takes one help text.
pub open spec fn add_help(f: FamilyModel, help: Seq<char>) -> Result<FamilyModel, ErrorModel> {
    if f.help is Some {
        Err(ParseError::InvalidMetric(Invalid::DuplicateHelp))
    } else {
        Ok(FamilyModel { help: Some(help), ..f })
    }
}

/// A family takes one type.
pub open spec fn add_type(f: FamilyModel, t: PrometheusType) -> Result<FamilyModel, ErrorModel> {
    if f.family_type is Some {
        Err(ParseError::InvalidMetric(Invalid::DuplicateType))
    } else {
        Ok(FamilyModel { family_type: Some(t), ..f })
    }
}

// ---------------------------------------------------------------------------
// Checks of a complete family.

pub open spec fn has_inf_bucket(bs: Seq<BucketModel>) -> bool
    decreases bs.len(),
{
    bs.len() > 0 && (has_inf_bucket(bs.drop_last()) || bs.last().upper_bound
        == crate::number::POSITIVE_INFINITY)
}

pub open spec fn has_negative_bucket(bs: Seq<BucketModel>) -> bool
    decreases bs.len(),
{
    bs.len() > 0 && (has_negative_bucket(bs.drop_last()) || crate::number::float_negative(
        bs.last().upper_bound,
    ))
}

/// No bucket count is below the one before it.
pub open spec fn cumulative(bs: Seq<BucketModel>) -> bool
    decreases bs.len(),
{
    bs.len() <= 1 || (cumulative(bs.drop_last()) && !crate::number::number_lt(
        bs.last().count,
        bs[bs.len() - 2].count,
    ))
}

/// The checks of a histogram metric.
pub open spec fn check_histogram(h: HistogramModel) -> Result<(), ErrorModel> {
    if h.buckets.len() == 0 {
        Err(ParseError::InvalidMetric(Invalid::HistogramWithoutBuckets))
    } else if !has_inf_bucket(h.buckets) {
        Err(ParseError::InvalidMetric(Invalid::HistogramWithoutInfBucket(h.buckets)))
    } else if has_negative_bucket(h.buckets) && h.sum is Some {
        Err(ParseError::InvalidMetric(Invalid::HistogramSumWithNegativeBucket))
    } else if !has_negative_bucket(h.buckets) && h.sum is Some && number_negative(h.sum->0) {
        Err(ParseError::InvalidMetric(Invalid::HistogramNegativeSum))
    } else if h.sum is Some && h.count is None {
        Err(ParseError::InvalidMetric(Invalid::CountWithoutSum))
    } else if h.sum is None && h.count is Some {
        Err(ParseError::InvalidMetric(Invalid::SumWithoutCount))
    } else if !cumulative(h.buckets) {
        Err(ParseError::InvalidMetric(Invalid::HistogramNotCumulative))
    } else {
        Ok(())
    }
}

/// The checks of one metric of a complete family.
pub open spec fn check_metric(f: FamilyModel, m: MetricModel, strict: bool) -> Result<(), ErrorModel> {
    let wrong_labels = match f.label_names {
        None => m.label_values.len() > 0,
        Some(ns) => ns.len() != m.label_values.len(),
    };
    if wrong_labels && strict {
        Err(
            ParseError::InvalidMetric(
                Invalid::DifferentLabelSets(f.label_names, m.label_values),
            ),
        )
    } else if f.unit is Some && f.metrics.len() == 0 {
        Err(ParseError::InvalidMetric(Invalid::UnitWithoutSamples))
    } else {
        match m.value {
            ValueModel::Histogram(h) => check_histogram(h),
            _ => Ok(()),
        }
    }
}

/// The first failing check among the given metrics.
pub open spec fn check_metrics(f: FamilyModel, ms: Seq<MetricModel>, strict: bool) -> Result<(), ErrorModel>
    decreases ms.len(),
{
    if ms.len() == 0 {
        Ok(())
    } else {
        match check_metrics(f, ms.drop_last(), strict) {
            Err(e) => Err(e),
            Ok(()) => check_metric(f, ms.last(), strict),
        }
    }
}

/// The label check of a metric can be made: the family has its label names,
/// or the mode is strict and the metric has label values (then the check
/// fails before it needs the names).
pub open spec fn labels_checkable(f: FamilyModel, m: MetricModel, strict: bool) -> bool {
    f.label_names is Some || (strict && m.label_values.len() > 0)
}

/// Every metric whose checks are reached, the earlier ones having passed,
/// can have its label check made.
pub open spec fn metrics_checkable(f: FamilyModel, ms: Seq<MetricModel>, strict: bool) -> bool
    decreases ms.len(),
{
    ms.len() == 0 || (metrics_checkable(f, ms.drop_last(), strict) && (check_metrics(
        f,
        ms.drop_last(),
        strict,
    ) is Err || labels_checkable(f, ms.last(), strict)))
}

/// The checks of a complete family can be made: the counter name check
/// fails first, or every metric reached can be checked.
pub open spec fn family_checkable(f: FamilyModel, strict: bool) -> bool {
    (f.name is Some && f.family_type == Some(PrometheusType::Counter) && !ends_with(
        f.name->0,
        "_total"@,
    ) && strict) || metrics_checkable(f, f.metrics, strict)
}

/// The checks of a complete family.
pub open spec fn check_family(f: FamilyModel, strict: bool) -> Result<(), ErrorModel> {
    if f.name is Some && f.family_type == Some(PrometheusType::Counter) && !ends_with(
        f.name->0,
        "_total"@,
    ) && strict {
        Err(ParseError::InvalidMetric(Invalid::CounterMissingTotalSuffix(f.name->0)))
    } else {
        check_metrics(f, f.metrics, strict)
    }
}

// ---------------------------------------------------------------------------
// Executable family construction.

/// A copy of a list of texts.
pub fn copy_texts(v: &Vec<Vec<char>>) -> (r: Vec<Vec<char>>)
    ensures
        texts(r@) == texts(v@),
{
    let mut r: Vec<Vec<char>> = Vec::new();
    let mut i: usize = 0;
    while i < v.len()
        invariant
            i <= v.len(),
            texts(r@) == texts(v@).take(i as int),
        decreases v.len() - i,
    {
        let ghost before = texts(r@);
        r.push(copy_chars(&v[i]));
        assert(texts(r@) =~= before.push(v@[i as int]@));
        assert(texts(v@).take(i + 1) =~= texts(v@).take(i as int).push(v@[i as int]@));
        i = i + 1;
    }
    assert(texts(v@).take(v.len() as int) =~= texts(v@));
    r
}

/// Whether two lists of texts are equal.
pub fn texts_eq(a: &Vec<Vec<char>>, b: &Vec<Vec<char>>) -> (r: bool)
    ensures
        r == (texts(a@) == texts(b@)),
{
    if a.len() != b.len() {
        assert(texts(a@).len() != texts(b@).len());
        return false;
    }
    let mut i: usize = 0;
    while i < a.len()
        invariant
            i <= a.len() == b.len(),
            forall|k: int| 0 <= k < i ==> texts(a@)[k] == texts(b@)[k],
        decreases a.len() - i,
    {
        if !chars_eq(&a[i], &b[i]) {
            assert(texts(a@)[i as int] != texts(b@)[i as int]);
            return false;
        }
        i = i + 1;
    }
    assert(texts(a@) =~= texts(b@));
    true
}

/// The index of the first occurrence of `x` in `s`.
pub fn first_index_exec(s: &Vec<Vec<char>>, x: &Vec<char>) -> (r: Option<usize>)
    ensures
        match r {
            Some(i) => first_index(texts(s@), x@) == i && i < s.len() && texts(s@).contains(x@),
            None => first_index(texts(s@), x@) == -1 && !texts(s@).contains(x@),
        },
{
    let mut i: usize = 0;
    assert(texts(s@).skip(0) =~= texts(s@));
    while i < s.len()
        invariant
            i <= s.len(),
            forall|k: int| 0 <= k < i ==> texts(s@)[k] != x@,
            first_index(texts(s@), x@) == if first_index(texts(s@).skip(i as int), x@) < 0 {
                -1
            } else {
                first_index(texts(s@).skip(i as int), x@) + i
            },
        decreases s.len() - i,
    {
        assert(texts(s@).skip(i as int)[0] == s@[i as int]@);
        if chars_eq(&s[i], x) {
            assert(texts(s@)[i as int] == x@);
            return Some(i);
        }
        assert(texts(s@).skip(i as int).drop_first() =~= texts(s@).skip(i + 1));
        i = i + 1;
    }
    assert(texts(s@).skip(i as int).len() == 0);
    assert forall|k: int| 0 <= k < texts(s@).len() implies texts(s@)[k] != x@ by {}
    None
}

/// `s` without the texts in `ig`.
fn without_exec(s: &Vec<Vec<char>>, ig: &Vec<Vec<char>>) -> (r: Vec<Vec<char>>)
    ensures
        texts(r@) == without(texts(s@), texts(ig@)),
{
    let mut r: Vec<Vec<char>> = Vec::new();
    let mut i: usize = 0;
    while i < s.len()
        invariant
            i <= s.len(),
            texts(r@) == without(texts(s@).take(i as int), texts(ig@)),
        decreases s.len() - i,
    {
        assert(texts(s@).take(i + 1).drop_last() =~= texts(s@).take(i as int));
        assert(texts(s@).take(i + 1).last() == s@[i as int]@);
        if !crate::labels::contains_text(ig, &s[i]) {
            let ghost before = texts(r@);
            r.push(copy_chars(&s[i]));
            assert(texts(r@) =~= before.push(s@[i as int]@));
        }
        i = i + 1;
    }
    assert(texts(s@).take(s.len() as int) =~= texts(s@));
    r
}

/// The index of the first metric with these label values.
fn metric_index_exec(ms: &Vec<MetricMarshal>, values: &Vec<Vec<char>>) -> (r: Option<usize>)
    ensures
        match r {
            Some(i) => metric_index(metrics_view(ms@), texts(values@)) == i && i < ms.len(),
            None => metric_index(metrics_view(ms@), texts(values@)) == -1,
        },
{
    let mut i: usize = 0;
    assert(metrics_view(ms@).skip(0) =~= metrics_view(ms@));
    while i < ms.len()
        invariant
            i <= ms.len(),
            metric_index(metrics_view(ms@), texts(values@)) == if metric_index(
                metrics_view(ms@).skip(i as int),
                texts(values@),
            ) < 0 {
                -1
            } else {
                metric_index(metrics_view(ms@).skip(i as int), texts(values@)) + i
            },
        decreases ms.len() - i,
    {
        assert(metrics_view(ms@).skip(i as int)[0] == ms@[i as int]@);
        if texts_eq(&ms[i].label_values, values) {
            return Some(i);
        }
        assert(metrics_view(ms@).skip(i as int).drop_first() =~= metrics_view(ms@).skip(i + 1));
        i = i + 1;
    }
    None
}

/// The handler for a sample name.
fn handler_exec(t: PrometheusType, name: &Vec<char>) -> (r: (&'static str, Option<&'static str>, Action))
    ensures
        (r.0@, match r.1 {
            Some(l) => Some(l@),
            None => None,
        }, r.2) == handler(t, name@),
{
    match t {
        PrometheusType::Histogram => if ends_with_str(name, "_bucket") {
            ("_bucket", Some("le"), Action::HistogramBucket)
        } else if ends_with_str(name, "_count") {
            ("_count", None, Action::HistogramCount)
        } else if ends_with_str(name, "_sum") {
            ("_sum", None, Action::HistogramSum)
        } else {
            ("", None, Action::HistogramCount)
        },
        PrometheusType::Counter => ("", None, Action::CounterTotal),
        PrometheusType::Gauge => ("", None, Action::GaugeValue),
        PrometheusType::Unknown => ("", None, Action::UnknownValue),
        PrometheusType::Untyped => ("", None, Action::UntypedValue),
        PrometheusType::Summary => if ends_with_str(name, "_count") {
            ("_count", None, Action::SummaryCount)
        } else if ends_with_str(name, "_sum") {
            ("_sum", None, Action::SummarySum)
        } else {
            ("", Some("quantile"), Action::SummaryQuantile)
        },
    }
}

fn count_exec(v: MetricNumber, summary: bool) -> (r: Result<u64, Error>)
    ensures
        match count_of(v, summary) {
            Ok(c) => r matches Ok(d) && d == c,
            Err(e) => r matches Err(x) && error_view(x) == e,
        },
{
    match as_i64(v) {
        Some(i) => if i < 0 {
            Err(
                ParseError::InvalidMetric(
                    if summary {
                        Invalid::NegativeSummaryCount(i)
                    } else {
                        Invalid::NegativeHistogramCount(i)
                    },
                ),
            )
        } else {
            Ok(i as u64)
        },
        None => {
            let b = match v {
                MetricNumber::Float(b) => b,
                MetricNumber::Int(_) => 0,
            };
            Err(
                ParseError::InvalidMetric(
                    if summary {
                        Invalid::NonIntegerSummaryCount(b)
                    } else {
                        Invalid::NonIntegerHistogramCount(b)
                    },
                ),
            )
        },
    }
}

/// Whether the label `l` stands among `names` at a position that `values` has.
pub open spec fn indexable(names: Seq<Seq<char>>, values: Seq<Seq<char>>, l: Seq<char>) -> bool {
    names.contains(l) && first_index(names, l) < values.len()
}

/// What the action does to the metric; on an error the metric comes back unchanged.
fn act_exec(
    m: MetricMarshal,
    action: Action,
    v: MetricNumber,
    names: &Vec<Vec<char>>,
    values: &Vec<Vec<char>>,
    ex: Option<Exemplar>,
    floats: &FloatTable,
) -> (r: Result<MetricMarshal, (MetricMarshal, Error)>)
    requires
        action == Action::HistogramBucket ==> indexable(texts(names@), texts(values@), "le"@),
        action == Action::SummaryQuantile ==> indexable(texts(names@), texts(values@), "quantile"@),
    ensures
        match act(m@, action, v, texts(names@), texts(values@), opt_exemplar(ex), floats@) {
            Ok(mm) => r matches Ok(x) && x@ == mm,
            Err(e) => r matches Err(x) && x.0@ == m@ && error_view(x.1) == e,
        },
{
    let MetricMarshal { label_values, timestamp, value } = m;
    match action {
        Action::HistogramBucket => {
            let le = chars_of("le");
            let i = first_index_exec(names, &le).unwrap();
            let bound = &values[i];
            match floats.read(bound) {
                None => Err((
                    MetricMarshal { label_values, timestamp, value },
                    ParseError::InvalidMetric(Invalid::InvalidHistogramBound(copy_chars(bound))),
                )),
                Some(b) => match value {
                    MetricValueMarshal::Histogram(mut h) => {
                        let ghost hb = h@.buckets;
                        let ghost exv = opt_exemplar(ex);
                        h.buckets.push(HistogramBucket { count: v, upper_bound: b, exemplar: ex });
                        assert(h@.buckets =~= hb.push(BucketModel { count: v, upper_bound: b, exemplar: exv }));
                        Ok(MetricMarshal { label_values, timestamp, value: MetricValueMarshal::Histogram(h) })
                    },
                    other => Ok(MetricMarshal { label_values, timestamp, value: other }),
                },
            }
        },
        Action::HistogramCount => match value {
            MetricValueMarshal::Histogram(mut h) => match count_exec(v, false) {
                Err(e) => Err((MetricMarshal { label_values, timestamp, value: MetricValueMarshal::Histogram(h) }, e)),
                Ok(c) => if h.count.is_some() {
                    Err((
                        MetricMarshal { label_values, timestamp, value: MetricValueMarshal::Histogram(h) },
                        ParseError::DuplicateMetric,
                    ))
                } else {
                    h.count = Some(c);
                    Ok(MetricMarshal { label_values, timestamp, value: MetricValueMarshal::Histogram(h) })
                },
            },
            other => Ok(MetricMarshal { label_values, timestamp, value: other }),
        },
        Action::HistogramSum => match value {
            MetricValueMarshal::Histogram(mut h) => if h.sum.is_some() {
                Err((
                    MetricMarshal { label_values, timestamp, value: MetricValueMarshal::Histogram(h) },
                    ParseError::DuplicateMetric,
                ))
            } else {
                h.sum = Some(v);
                Ok(MetricMarshal { label_values, timestamp, value: MetricValueMarshal::Histogram(h) })
            },
            other => Ok(MetricMarshal { label_values, timestamp, value: other }),
        },
        Action::CounterTotal => match value {
            MetricValueMarshal::Counter(c) => if c.is_some() {
                Err((
                    MetricMarshal { label_values, timestamp, value: MetricValueMarshal::Counter(c) },
                    ParseError::DuplicateMetric,
                ))
            } else if negative_number(v) || nan_number(v) {
                Err((
                    MetricMarshal { label_values, timestamp, value: MetricValueMarshal::Counter(c) },
                    ParseError::InvalidMetric(Invalid::NegativeTotal(v)),
                ))
            } else {
                Ok(MetricMarshal { label_values, timestamp, value: MetricValueMarshal::Counter(Some(v)) })
            },
            other => Ok(MetricMarshal { label_values, timestamp, value: other }),
        },
        Action::GaugeValue => match value {
            MetricValueMarshal::Gauge(g) => if g.is_some() {
                Err((
                    MetricMarshal { label_values, timestamp, value: MetricValueMarshal::Gauge(g) },
                    ParseError::DuplicateMetric,
                ))
            } else {
                Ok(MetricMarshal { label_values, timestamp, value: MetricValueMarshal::Gauge(Some(v)) })
            },
            other => Ok(MetricMarshal { label_values, timestamp, value: other }),
        },
        Action::UnknownValue => match value {
            MetricValueMarshal::Unknown(_) => Ok(
                MetricMarshal { label_values, timestamp, value: MetricValueMarshal::Unknown(Some(v)) },
            ),
            other => Ok(MetricMarshal { label_values, timestamp, value: other }),
        },
        Action::UntypedValue => match value {
            MetricValueMarshal::Unknown(u) => if u.is_some() {
                Err((
                    MetricMarshal { label_values, timestamp, value: MetricValueMarshal::Unknown(u) },
                    ParseError::DuplicateMetric,
                ))
            } else {
                Ok(MetricMarshal { label_values, timestamp, value: MetricValueMarshal::Unknown(Some(v)) })
            },
            other => Ok(MetricMarshal { label_values, timestamp, value: other }),
        },
        Action::SummaryCount => match value {
            MetricValueMarshal::Summary(mut s) => match count_exec(v, true) {
                Err(e) => Err((MetricMarshal { label_values, timestamp, value: MetricValueMarshal::Summary(s) }, e)),
                Ok(c) => if s.count.is_none() {
                    s.count = Some(c);
                    Ok(MetricMarshal { label_values, timestamp, value: MetricValueMarshal::Summary(s) })
                } else {
                    Err((
                        MetricMarshal { label_values, timestamp, value: MetricValueMarshal::Summary(s) },
                        ParseError::DuplicateMetric,
                    ))
                },
            },
            other => Ok(MetricMarshal { label_values, timestamp, value: other }),
        },
        Action::SummarySum => if negative_number(v) || nan_number(v) {
            Err((
                MetricMarshal { label_values, timestamp, value },
                ParseError::InvalidMetric(Invalid::NegativeTotal(v)),
            ))
        } else {
            match value {
                MetricValueMarshal::Summary(mut s) => if s.sum.is_none() {
                    s.sum = Some(v);
                    Ok(MetricMarshal { label_values, timestamp, value: MetricValueMarshal::Summary(s) })
                } else {
                    Err((
                        MetricMarshal { label_values, timestamp, value: MetricValueMarshal::Summary(s) },
                        ParseError::DuplicateMetric,
                    ))
                },
                other => Ok(MetricMarshal { label_values, timestamp, value: other }),
            }
        },
        Action::SummaryQuantile => if !nan_number(v) && negative_number(v) {
            Err((
                MetricMarshal { label_values, timestamp, value },
                ParseError::InvalidMetric(Invalid::NegativeQuantileValue),
            ))
        } else {
            let q = chars_of("quantile");
            let i = first_index_exec(names, &q).unwrap();
            let bound = &values[i];
            match floats.read(bound) {
                None => Err((
                    MetricMarshal { label_values, timestamp, value },
                    ParseError::InvalidMetric(Invalid::InvalidSummaryBound(copy_chars(bound))),
                )),
                Some(b) => if nan(b) || lt_float(b, 0) || lt_float(ONE, b) {
                    Err((
                        MetricMarshal { label_values, timestamp, value },
                        ParseError::InvalidMetric(Invalid::SummaryBoundOutOfRange(b)),
                    ))
                } else {
                    match value {
                        MetricValueMarshal::Summary(mut s) => {
                            let ghost qs = s@.quantiles;
                            s.quantiles.push(Quantile { quantile: b, value: v });
                            assert(s@.quantiles =~= qs.push(Quantile { quantile: b, value: v }));
                            Ok(MetricMarshal { label_values, timestamp, value: MetricValueMarshal::Summary(s) })
                        },
                        other => Ok(MetricMarshal { label_values, timestamp, value: other }),
                    }
                },
            }
        },
    }
}

impl MetricFamilyMarshal {
    /// A family with no name, labels, type, help, unit or metrics yet.
    pub fn empty() -> (f: MetricFamilyMarshal)
        ensures
            f@ == (FamilyModel {
                name: None,
                label_names: None,
                family_type: None,
                help: None,
                unit: None,
                metrics: seq![],
            }),
    {
        let f = MetricFamilyMarshal {
            name: None,
            label_names: None,
            family_type: None,
            help: None,
            unit: None,
            metrics: Vec::new(),
        };
        assert(f@.metrics =~= Seq::<MetricModel>::empty());
        f
    }

    /// The family's name from a descriptor: set if it has none, else it must agree.
    pub fn set_or_test_name(&mut self, name: Vec<char>) -> (r: Result<(), Error>)
        ensures
            match set_or_test_name(old(self)@, name@) {
                Ok(f) => r is Ok && final(self)@ == f,
                Err(e) => r matches Err(x) && error_view(x) == e && final(self)@ == old(self)@,
            },
    {
        let conflict = match &self.name {
            Some(n) => !chars_eq(n, &name),
            None => false,
        };
        if conflict {
            let current = match &self.name {
                Some(n) => Some(copy_chars(n)),
                None => None,
            };
            return Err(ParseError::InvalidMetric(Invalid::FamilyNameConflict(current, name)));
        }
        self.name = Some(name);
        Ok(())
    }

    /// The family's help text; a second one is refused.
    pub fn try_add_help(&mut self, help: Vec<char>) -> (r: Result<(), Error>)
        ensures
            match add_help(old(self)@, help@) {
                Ok(f) => r is Ok && final(self)@ == f,
                Err(e) => r matches Err(x) && error_view(x) == e && final(self)@ == old(self)@,
            },
    {
        if self.help.is_some() {
            return Err(ParseError::InvalidMetric(Invalid::DuplicateHelp));
        }
        self.help = Some(help);
        Ok(())
    }

    /// The family's type; a second one is refused.
    pub fn try_add_type(&mut self, family_type: PrometheusType) -> (r: Result<(), Error>)
        ensures
            match add_type(old(self)@, family_type) {
                Ok(f) => r is Ok && final(self)@ == f,
                Err(e) => r matches Err(x) && error_view(x) == e && final(self)@ == old(self)@,
            },
    {
        if self.family_type.is_some() {
            return Err(ParseError::InvalidMetric(Invalid::DuplicateType));
        }
        self.family_type = Some(family_type);
        Ok(())
    }

    /// The family's label names after a sample named `sample_name`.
    pub fn try_set_label_names(&mut self, sample_name: &Vec<char>, names: Vec<Vec<char>>, strict_mode: bool) -> (r: Result<(), Error>)
        ensures
            match set_label_names(old(self)@, sample_name@, texts(names@), strict_mode) {
                Ok(f) => r is Ok && final(self)@ == f,
                Err(e) => r matches Err(x) && error_view(x) == e && final(self)@ == old(self)@,
            },
    {
        let t = match self.family_type {
            Some(t) => t,
            None => PrometheusType::Unknown,
        };
        let refused = match &self.label_names {
            Some(old) => {
                let ig = t.get_ignored_labels(sample_name);
                let a = without_exec(old, &ig);
                let b = without_exec(&names, &ig);
                Some(!texts_eq(&a, &b) && strict_mode)
            },
            None => None,
        };
        match refused {
            None => {
                self.label_names = Some(names);
                Ok(())
            },
            Some(true) => {
                let old = match &self.label_names {
                    Some(o) => copy_texts(o),
                    None => Vec::new(),
                };
                Err(ParseError::InvalidMetric(Invalid::LabelSetMismatch(old, names)))
            },
            Some(false) => Ok(()),
        }
    }

    fn apply_at(
        &mut self,
        j: usize,
        action: Action,
        v: MetricNumber,
        names: &Vec<Vec<char>>,
        values: &Vec<Vec<char>>,
        ex: Option<Exemplar>,
        floats: &FloatTable,
    ) -> (r: Result<(), Error>)
        requires
            j < old(self).metrics.len(),
            action == Action::HistogramBucket ==> indexable(texts(names@), texts(values@), "le"@),
            action == Action::SummaryQuantile ==> indexable(texts(names@), texts(values@), "quantile"@),
        ensures
            match apply_at(old(self)@, j as int, action, v, texts(names@), texts(values@), opt_exemplar(ex), floats@) {
                Ok(f) => r is Ok && final(self)@ == f,
                Err(e) => r matches Err(x) && error_view(x) == e && final(self)@ == old(self)@,
            },
    {
        let ghost ms0 = self.metrics@;
        let m = self.metrics.remove(j);
        match act_exec(m, action, v, names, values, ex, floats) {
            Ok(m2) => {
                let ghost mv = m2@;
                self.metrics.insert(j, m2);
                assert(metrics_view(self.metrics@) =~= metrics_view(ms0).update(j as int, mv));
                Ok(())
            },
            Err((m0, e)) => {
                self.metrics.insert(j, m0);
                assert(metrics_view(self.metrics@) =~= metrics_view(ms0));
                Err(e)
            },
        }
    }

    fn land(
        &mut self,
        t: PrometheusType,
        action: Action,
        v: MetricNumber,
        names: &Vec<Vec<char>>,
        values: &Vec<Vec<char>>,
        label_values: Vec<Vec<char>>,
        ts: Option<u64>,
        ex: Option<Exemplar>,
        floats: &FloatTable,
    ) -> (r: Result<(), Error>)
        requires
            action == Action::HistogramBucket ==> indexable(texts(names@), texts(values@), "le"@),
            action == Action::SummaryQuantile ==> indexable(texts(names@), texts(values@), "quantile"@),
        ensures
            match land(old(self)@, t, action, v, texts(names@), texts(values@), texts(label_values@), ts, opt_exemplar(ex), floats@) {
                Ok(f) => r is Ok && final(self)@ == f,
                Err(e) => r matches Err(x) && error_view(x) == e,
            },
            final(self)@ == land_state(old(self)@, t, action, v, texts(names@), texts(values@), texts(label_values@), ts, opt_exemplar(ex), floats@),
    {
        match metric_index_exec(&self.metrics, &label_values) {
            Some(j) => {
                let mt = self.metrics[j].timestamp;
                assert(mt == self@.metrics[j as int].timestamp);
                if mt.is_some() && ts.is_some() && lt_float(ts.unwrap(), mt.unwrap()) {
                    Err(ParseError::InvalidMetric(Invalid::TimestampsBackwards(mt.unwrap(), ts.unwrap())))
                } else if mt.is_some() != ts.is_some() {
                    Err(ParseError::InvalidMetric(Invalid::MissingTimestamp))
                } else if mt.is_some() && ts.is_some() && ge_float(ts.unwrap(), mt.unwrap())
                    && !t.can_have_multiple_lines() {
                    Ok(())
                } else {
                    self.apply_at(j, action, v, names, values, ex, floats)
                }
            },
            None => {
                let value = t.get_type_value();
                let ghost before = self@;
                let m = MetricMarshal { label_values, timestamp: ts, value };
                let ghost mv = m@;
                self.metrics.push(m);
                assert(metrics_view(self.metrics@) =~= before.metrics.push(mv));
                let j = self.metrics.len() - 1;
                self.apply_at(j, action, v, names, values, ex, floats)
            },
        }
    }

    /// Takes a sample into the family: checks its exemplar and mandatory
    /// label, settles the family's label names and name, and applies the
    /// sample's action to the metric of its label set. On an error the
    /// family keeps what it had settled before the error (`process_state`).
    pub fn process_new_metric(
        &mut self,
        metric_name: &Vec<char>,
        metric_value: MetricNumber,
        label_names: Vec<Vec<char>>,
        label_values: Vec<Vec<char>>,
        timestamp: Option<u64>,
        exemplar: Option<Exemplar>,
        strict_mode: bool,
        floats: &FloatTable,
    ) -> (r: Result<(), Error>)
        requires
            values_reach_mandatory(old(self)@, metric_name@, texts(label_names@), texts(label_values@), opt_exemplar(exemplar)),
        ensures
            final(self)@ == process_state(
                old(self)@,
                metric_name@,
                metric_value,
                texts(label_names@),
                texts(label_values@),
                timestamp,
                opt_exemplar(exemplar),
                strict_mode,
                floats@,
            ),
            match process_spec(
                old(self)@,
                metric_name@,
                metric_value,
                texts(label_names@),
                texts(label_values@),
                timestamp,
                opt_exemplar(exemplar),
                strict_mode,
                floats@,
            ) {
                Ok(f) => r is Ok && final(self)@ == f,
                Err(e) => r matches Err(x) && error_view(x) == e,
            },
    {
        let t = match self.family_type {
            Some(t) => t,
            None => PrometheusType::Unknown,
        };
        if !t.can_have_exemplar(metric_name) && exemplar.is_some() {
            return Err(ParseError::InvalidMetric(Invalid::ExemplarNotAllowed(t)));
        }
        let (suffix, mandatory, action) = handler_exec(t, metric_name);
        let mut actual_names = copy_texts(&label_names);
        let mut actual_values = copy_texts(&label_values);
        match mandatory {
            None => {},
            Some(l) => {
                let lc = chars_of(l);
                match first_index_exec(&label_names, &lc) {
                    None => {
                        return Err(ParseError::InvalidMetric(Invalid::MissingMandatoryLabel(lc)));
                    },
                    Some(i) => {
                        let ghost n0 = texts(actual_names@);
                        let ghost v0 = texts(actual_values@);
                        actual_names.remove(i);
                        actual_values.remove(i);
                        assert(texts(actual_names@) =~= n0.remove(i as int));
                        assert(texts(actual_values@) =~= v0.remove(i as int));
                    },
                }
            },
        }
        match self.try_set_label_names(metric_name, actual_names, strict_mode) {
            Err(e) => {
                return Err(e);
            },
            Ok(()) => {},
        }
        let trimmed = trim_end_str(metric_name, suffix);
        let mismatch = match &self.name {
            Some(n) => !chars_eq(n, &trimmed) && strict_mode,
            None => false,
        };
        if mismatch {
            let current = match &self.name {
                Some(n) => copy_chars(n),
                None => Vec::new(),
            };
            return Err(ParseError::InvalidMetric(Invalid::FamilyNameMismatch(trimmed, current)));
        }
        if self.name.is_none() {
            self.name = Some(trimmed);
        }
        self.land(t, action, metric_value, &label_names, &label_values, actual_values, timestamp, exemplar, floats)
    }
}

fn copy_exemplar(e: &Exemplar) -> (r: Exemplar)
    ensures
        r@ == e@,
{
    let mut labels: Vec<(Vec<char>, Vec<char>)> = Vec::new();
    let mut i: usize = 0;
    while i < e.labels.len()
        invariant
            i <= e.labels.len(),
            crate::types::pairs_view(labels@) == crate::types::pairs_view(e.labels@).take(i as int),
        decreases e.labels.len() - i,
    {
        let ghost before = crate::types::pairs_view(labels@);
        labels.push((copy_chars(&e.labels[i].0), copy_chars(&e.labels[i].1)));
        assert(crate::types::pairs_view(labels@) =~= before.push((e.labels@[i as int].0@, e.labels@[i as int].1@)));
        assert(crate::types::pairs_view(e.labels@).take(i + 1) =~= crate::types::pairs_view(e.labels@).take(i as int).push((e.labels@[i as int].0@, e.labels@[i as int].1@)));
        i = i + 1;
    }
    assert(crate::types::pairs_view(e.labels@).take(e.labels.len() as int) =~= crate::types::pairs_view(e.labels@));
    Exemplar { labels, id: e.id, timestamp: e.timestamp }
}

/// A copy of a list of buckets.
fn copy_buckets(bs: &Vec<HistogramBucket>) -> (r: Vec<HistogramBucket>)
    ensures
        r@.map_values(|b: HistogramBucket| b@) == bs@.map_values(|b: HistogramBucket| b@),
{
    let ghost v = bs@.map_values(|b: HistogramBucket| b@);
    let mut r: Vec<HistogramBucket> = Vec::new();
    let mut i: usize = 0;
    while i < bs.len()
        invariant
            i <= bs.len(),
            v == bs@.map_values(|b: HistogramBucket| b@),
            r@.map_values(|b: HistogramBucket| b@) == v.take(i as int),
        decreases bs.len() - i,
    {
        let b = &bs[i];
        let exemplar = match &b.exemplar {
            Some(e) => Some(copy_exemplar(e)),
            None => None,
        };
        let c = HistogramBucket { count: b.count, upper_bound: b.upper_bound, exemplar };
        let ghost before = r@.map_values(|b: HistogramBucket| b@);
        assert(c@ == v[i as int]);
        r.push(c);
        assert(r@.map_values(|b: HistogramBucket| b@) =~= before.push(v[i as int]));
        assert(v.take(i + 1) =~= v.take(i as int).push(v[i as int]));
        i = i + 1;
    }
    assert(v.take(bs.len() as int) =~= v);
    r
}

fn has_inf_bucket_exec(bs: &Vec<HistogramBucket>) -> (r: bool)
    ensures
        r == has_inf_bucket(bs@.map_values(|b: HistogramBucket| b@)),
{
    let ghost v = bs@.map_values(|b: HistogramBucket| b@);
    let mut found = false;
    let mut i: usize = 0;
    while i < bs.len()
        invariant
            i <= bs.len(),
            v == bs@.map_values(|b: HistogramBucket| b@),
            found == has_inf_bucket(v.take(i as int)),
        decreases bs.len() - i,
    {
        assert(v.take(i + 1).drop_last() =~= v.take(i as int));
        assert(v.take(i + 1).last() == bs@[i as int]@);
        if bs[i].upper_bound == crate::number::POSITIVE_INFINITY {
            found = true;
        }
        i = i + 1;
    }
    assert(v.take(bs.len() as int) =~= v);
    found
}

fn has_negative_bucket_exec(bs: &Vec<HistogramBucket>) -> (r: bool)
    ensures
        r == has_negative_bucket(bs@.map_values(|b: HistogramBucket| b@)),
{
    let ghost v = bs@.map_values(|b: HistogramBucket| b@);
    let mut found = false;
    let mut i: usize = 0;
    while i < bs.len()
        invariant
            i <= bs.len(),
            v == bs@.map_values(|b: HistogramBucket| b@),
            found == has_negative_bucket(v.take(i as int)),
        decreases bs.len() - i,
    {
        assert(v.take(i + 1).drop_last() =~= v.take(i as int));
        assert(v.take(i + 1).last() == bs@[i as int]@);
        if crate::number::negative_float(bs[i].upper_bound) {
            found = true;
        }
        i = i + 1;
    }
    assert(v.take(bs.len() as int) =~= v);
    found
}

fn cumulative_exec(bs: &Vec<HistogramBucket>) -> (r: bool)
    ensures
        r == cumulative(bs@.map_values(|b: HistogramBucket| b@)),
{
    let ghost v = bs@.map_values(|b: HistogramBucket| b@);
    let mut ok = true;
    let mut i: usize = 0;
    while i < bs.len()
        invariant
            i <= bs.len(),
            v == bs@.map_values(|b: HistogramBucket| b@),
            ok == cumulative(v.take(i as int)),
        decreases bs.len() - i,
    {
        assert(v.take(i + 1).drop_last() =~= v.take(i as int));
        assert(v.take(i + 1).last() == bs@[i as int]@);
        if i > 0 {
            assert(v.take(i + 1)[i - 1] == bs@[i - 1]@);
            if crate::number::lt_number(bs[i].count, bs[i - 1].count) {
                ok = false;
            }
        }
        i = i + 1;
    }
    assert(v.take(bs.len() as int) =~= v);
    ok
}

fn check_histogram_exec(h: &crate::types::HistogramValue) -> (r: Result<(), Error>)
    ensures
        match check_histogram(h@) {
            Ok(()) => r is Ok,
            Err(e) => r matches Err(x) && error_view(x) == e,
        },
{
    if h.buckets.len() == 0 {
        return Err(ParseError::InvalidMetric(Invalid::HistogramWithoutBuckets));
    }
    if !has_inf_bucket_exec(&h.buckets) {
        return Err(ParseError::InvalidMetric(Invalid::HistogramWithoutInfBucket(copy_buckets(&h.buckets))));
    }
    let negative = has_negative_bucket_exec(&h.buckets);
    if negative {
        if h.sum.is_some() {
            return Err(ParseError::InvalidMetric(Invalid::HistogramSumWithNegativeBucket));
        }
    } else if h.sum.is_some() && negative_number(h.sum.unwrap()) {
        return Err(ParseError::InvalidMetric(Invalid::HistogramNegativeSum));
    }
    if h.sum.is_some() && h.count.is_none() {
        return Err(ParseError::InvalidMetric(Invalid::CountWithoutSum));
    }
    if h.sum.is_none() && h.count.is_some() {
        return Err(ParseError::InvalidMetric(Invalid::SumWithoutCount));
    }
    if !cumulative_exec(&h.buckets) {
        return Err(ParseError::InvalidMetric(Invalid::HistogramNotCumulative));
    }
    Ok(())
}

impl MetricMarshal {
    /// The checks of this metric in its complete family.
    pub fn validate(&self, family: &MetricFamilyMarshal, strict_mode: bool) -> (r: Result<(), Error>)
        requires
            labels_checkable(family@, self@, strict_mode),
        ensures
            match check_metric(family@, self@, strict_mode) {
                Ok(()) => r is Ok,
                Err(e) => r matches Err(x) && error_view(x) == e,
            },
    {
        let wrong_labels = match &family.label_names {
            None => self.label_values.len() > 0,
            Some(ns) => ns.len() != self.label_values.len(),
        };
        if wrong_labels && strict_mode {
            let names = match &family.label_names {
                Some(ns) => Some(copy_texts(ns)),
                None => None,
            };
            return Err(
                ParseError::InvalidMetric(
                    Invalid::DifferentLabelSets(names, copy_texts(&self.label_values)),
                ),
            );
        }
        if family.unit.is_some() && family.metrics.len() == 0 {
            return Err(ParseError::InvalidMetric(Invalid::UnitWithoutSamples));
        }
        match &self.value {
            MetricValueMarshal::Histogram(h) => check_histogram_exec(h),
            _ => Ok(()),
        }
    }
}

impl MetricFamilyMarshal {
    /// The checks of the complete family: a counter's name ends with
    /// `_total` (strict mode), then each metric's checks in order.
    pub fn validate(&self, strict_mode: bool) -> (r: Result<(), Error>)
        requires
            family_checkable(self@, strict_mode),
        ensures
            match check_family(self@, strict_mode) {
                Ok(()) => r is Ok,
                Err(e) => r matches Err(x) && error_view(x) == e,
            },
    {
        match &self.name {
            Some(name) => {
                if self.family_type == Some(PrometheusType::Counter) && !ends_with_str(name, "_total")
                    && strict_mode {
                    return Err(
                        ParseError::InvalidMetric(Invalid::CounterMissingTotalSuffix(copy_chars(name))),
                    );
                }
            },
            None => {},
        }
        let ghost f = self@;
        let mut i: usize = 0;
        while i < self.metrics.len()
            invariant
                i <= self.metrics.len(),
                f == self@,
                check_family(f, strict_mode) == check_metrics(f, f.metrics, strict_mode),
                check_metrics(f, f.metrics.take(i as int), strict_mode) == Ok::<(), ErrorModel>(()),
                metrics_checkable(f, f.metrics, strict_mode),
            decreases self.metrics.len() - i,
        {
            assert(f.metrics.take(i + 1).drop_last() =~= f.metrics.take(i as int));
            assert(f.metrics.take(i + 1).last() == self.metrics@[i as int]@);
            proof {
                lemma_checkable_prefix(f, f.metrics, i + 1, strict_mode);
                assert(labels_checkable(f, f.metrics.take(i + 1).last(), strict_mode));
            }
            match self.metrics[i].validate(self, strict_mode) {
                Err(e) => {
                    proof {
                        assert(check_metrics(f, f.metrics.take(i + 1), strict_mode) == Err::<(), ErrorModel>(error_view(e)));
                        lemma_check_error_stays(f, f.metrics, i + 1, strict_mode);
                    }
                    return Err(e);
                },
                Ok(()) => {},
            }
            i = i + 1;
        }
        assert(f.metrics.take(self.metrics.len() as int) =~= f.metrics);
        Ok(())
    }
}

/// In a family with label names every metric can be checked.
pub(crate) proof fn lemma_named_family_checkable(f: FamilyModel, ms: Seq<MetricModel>, strict: bool)
    requires
        f.label_names is Some,
    ensures
        metrics_checkable(f, ms, strict),
    decreases ms.len(),
{
    if ms.len() > 0 {
        lemma_named_family_checkable(f, ms.drop_last(), strict);
    }
}

proof fn lemma_checkable_prefix(f: FamilyModel, ms: Seq<MetricModel>, k: int, strict: bool)
    requires
        0 <= k <= ms.len(),
        metrics_checkable(f, ms, strict),
    ensures
        metrics_checkable(f, ms.take(k), strict),
    decreases ms.len() - k,
{
    if k < ms.len() {
        lemma_checkable_prefix(f, ms, k + 1, strict);
        assert(ms.take(k + 1).drop_last() =~= ms.take(k));
    } else {
        assert(ms.take(k) =~= ms);
    }
}

proof fn lemma_check_error_stays(f: FamilyModel, ms: Seq<MetricModel>, k: int, strict: bool)
    requires
        0 <= k <= ms.len(),
        check_metrics(f, ms.take(k), strict) is Err,
    ensures
        check_metrics(f, ms, strict) == check_metrics(f, ms.take(k), strict),
    decreases ms.len() - k,
{
    if k < ms.len() {
        assert(ms.take(k + 1).drop_last() =~= ms.take(k));
        lemma_check_error_stays(f, ms, k + 1, strict);
    } else {
        assert(ms.take(k) =~= ms);
    }
}

/// A finished metric holds its number: a scalar kind holds one, a counter
/// its total. (Histograms and summaries need none.)
pub open spec fn holds_value(v: ValueModel) -> bool {
    match v {
        ValueModel::Unknown(u) => u is Some,
        ValueModel::Gauge(g) => g is Some,
        ValueModel::Counter(c) => c is Some,
        _ => true,
    }
}

/// A metric value holds its number, as a sample set it: scalar kinds hold
/// one, a counter's total and a summary's sum are neither negative nor NaN.
pub open spec fn value_present(v: ValueModel) -> bool {
    match v {
        ValueModel::Unknown(u) => u is Some,
        ValueModel::Gauge(g) => g is Some,
        ValueModel::Counter(c) => c is Some && !number_negative(c->0) && !number_is_nan(c->0),
        ValueModel::Summary(s) => s.sum is Some ==> !number_negative(s.sum->0) && !number_is_nan(
            s.sum->0,
        ),
        _ => true,
    }
}

/// Two values of the same kind.
pub open spec fn same_kind(a: ValueModel, b: ValueModel) -> bool {
    match (a, b) {
        (ValueModel::Unknown(_), ValueModel::Unknown(_)) => true,
        (ValueModel::Gauge(_), ValueModel::Gauge(_)) => true,
        (ValueModel::Counter(_), ValueModel::Counter(_)) => true,
        (ValueModel::Histogram(_), ValueModel::Histogram(_)) => true,
        (ValueModel::Summary(_), ValueModel::Summary(_)) => true,
        _ => false,
    }
}

/// Every metric of the family holds a value, of the kind its family's type
/// gives; a family with metrics has its label names.
pub open spec fn well_formed(f: FamilyModel) -> bool {
    &&& forall|i: int|
        0 <= i < f.metrics.len() ==> value_present(#[trigger] f.metrics[i].value) && same_kind(
            f.metrics[i].value,
            type_value(effective_type(f)),
        )
    &&& f.metrics.len() > 0 ==> f.label_names is Some
}

proof fn lemma_act_keeps_kind(
    m: MetricModel,
    t: PrometheusType,
    name: Seq<char>,
    v: MetricNumber,
    names: Seq<Seq<char>>,
    values: Seq<Seq<char>>,
    ex: Option<ExemplarModel>,
    tab: Seq<(Seq<char>, Option<u64>)>,
)
    requires
        same_kind(m.value, type_value(t)),
        same_kind(m.value, type_value(t)) && m.value != type_value(t) ==> value_present(m.value),
    ensures
        act(m, handler(t, name).2, v, names, values, ex, tab) matches Ok(m2) ==> value_present(
            m2.value,
        ) && same_kind(m2.value, type_value(t)),
{
}

/// Law: a family stays well formed under every sample it takes: each of its
/// metrics holds a value of the kind that the family's type gives.
pub proof fn lemma_process_keeps_well_formed(
    f: FamilyModel,
    name: Seq<char>,
    v: MetricNumber,
    names: Seq<Seq<char>>,
    values: Seq<Seq<char>>,
    ts: Option<u64>,
    ex: Option<ExemplarModel>,
    strict: bool,
    tab: Seq<(Seq<char>, Option<u64>)>,
)
    requires
        well_formed(f),
    ensures
        process_spec(f, name, v, names, values, ts, ex, strict, tab) matches Ok(g) ==> well_formed(g)
            && g.name is Some && g.family_type == f.family_type,
{
    let t = effective_type(f);
    if !(!exemplar_allowed(t, name) && ex is Some) {
        let (suffix, mandatory, action) = handler(t, name);
        if let Ok((an, av)) = without_mandatory(names, values, mandatory) {
            if let Ok(f1) = set_label_names(f, name, an, strict) {
                let trimmed = trim_end(name, suffix);
                let f2 = if f1.name is None {
                    FamilyModel { name: Some(trimmed), ..f1 }
                } else {
                    f1
                };
                assert(well_formed(f2));
                assert(effective_type(f2) == t);
                let j = metric_index(f2.metrics, av);
                if j >= 0 {
                    lemma_metric_index_bounds(f2.metrics, av);
                    lemma_act_keeps_kind(f2.metrics[j], t, name, v, names, values, ex, tab);
                    if let Ok(g) = apply_at(f2, j, action, v, names, values, ex, tab) {
                        assert forall|i: int| 0 <= i < g.metrics.len() implies value_present(
                            #[trigger] g.metrics[i].value,
                        ) && same_kind(g.metrics[i].value, type_value(effective_type(g))) by {
                            if i != j {
                                assert(g.metrics[i] == f2.metrics[i]);
                            }
                        }
                    }
                } else {
                    let f3 = FamilyModel {
                        metrics: f2.metrics.push(
                            MetricModel { label_values: av, timestamp: ts, value: type_value(t) },
                        ),
                        ..f2
                    };
                    let k = f2.metrics.len() as int;
                    lemma_act_keeps_kind(f3.metrics[k], t, name, v, names, values, ex, tab);
                    if let Ok(g) = apply_at(f3, k, action, v, names, values, ex, tab) {
                        assert forall|i: int| 0 <= i < g.metrics.len() implies value_present(
                            #[trigger] g.metrics[i].value,
                        ) && same_kind(g.metrics[i].value, type_value(effective_type(g))) by {
                            if i != k {
                                assert(g.metrics[i] == f2.metrics[i]);
                            }
                        }
                    }
                }
            }
        }
    }
}

proof fn lemma_metric_index_bounds(ms: Seq<MetricModel>, values: Seq<Seq<char>>)
    ensures
        -1 <= metric_index(ms, values) < ms.len(),
    decreases ms.len(),
{
    if ms.len() > 0 {
        lemma_metric_index_bounds(ms.drop_first(), values);
    }
}

/// No two metrics share their label values.
pub open spec fn distinct_label_sets(ms: Seq<MetricModel>) -> bool {
    forall|i: int, j: int|
        0 <= i < j < ms.len() ==> #[trigger] ms[i].label_values != #[trigger] ms[j].label_values
}

proof fn lemma_metric_index(ms: Seq<MetricModel>, values: Seq<Seq<char>>)
    ensures
        metric_index(ms, values) == -1 ==> forall|i: int| 0 <= i < ms.len() ==> #[trigger] ms[i].label_values != values,
        metric_index(ms, values) >= 0 ==> metric_index(ms, values) < ms.len() && ms[metric_index(ms, values)].label_values == values,
    decreases ms.len(),
{
    if ms.len() > 0 {
        lemma_metric_index(ms.drop_first(), values);
        assert forall|i: int| 0 < i < ms.len() implies #[trigger] ms[i].label_values == ms.drop_first()[i - 1].label_values by {}
    }
}

/// Law: a family keeps one metric per label set under every sample it takes.
pub proof fn lemma_process_keeps_label_sets_distinct(
    f: FamilyModel,
    name: Seq<char>,
    v: MetricNumber,
    names: Seq<Seq<char>>,
    values: Seq<Seq<char>>,
    ts: Option<u64>,
    ex: Option<ExemplarModel>,
    strict: bool,
    tab: Seq<(Seq<char>, Option<u64>)>,
)
    requires
        distinct_label_sets(f.metrics),
    ensures
        process_spec(f, name, v, names, values, ts, ex, strict, tab) matches Ok(g) ==> distinct_label_sets(g.metrics),
{
    let t = effective_type(f);
    if !(!exemplar_allowed(t, name) && ex is Some) {
        let (suffix, mandatory, action) = handler(t, name);
        if let Ok((an, av)) = without_mandatory(names, values, mandatory) {
            if let Ok(f1) = set_label_names(f, name, an, strict) {
                let trimmed = trim_end(name, suffix);
                let f2 = if f1.name is None {
                    FamilyModel { name: Some(trimmed), ..f1 }
                } else {
                    f1
                };
                lemma_metric_index(f2.metrics, av);
                let j = metric_index(f2.metrics, av);
                if j >= 0 {
                    if let Ok(g) = apply_at(f2, j, action, v, names, values, ex, tab) {
                        assert(g.metrics[j].label_values == f2.metrics[j].label_values);
                        assert forall|a: int, b: int| 0 <= a < b < g.metrics.len() implies #[trigger] g.metrics[a].label_values != #[trigger] g.metrics[b].label_values by {
                            assert(g.metrics[a].label_values == f2.metrics[a].label_values);
                            assert(g.metrics[b].label_values == f2.metrics[b].label_values);
                        }
                    }
                } else {
                    let f3 = FamilyModel {
                        metrics: f2.metrics.push(
                            MetricModel { label_values: av, timestamp: ts, value: type_value(t) },
                        ),
                        ..f2
                    };
                    let k = f2.metrics.len() as int;
                    if let Ok(g) = apply_at(f3, k, action, v, names, values, ex, tab) {
                        assert(g.metrics[k].label_values == av);
                        assert forall|a: int, b: int| 0 <= a < b < g.metrics.len() implies #[trigger] g.metrics[a].label_values != #[trigger] g.metrics[b].label_values by {
                            assert(g.metrics[a].label_values == f2.metrics[a].label_values);
                            if b < k {
                                assert(g.metrics[b].label_values == f2.metrics[b].label_values);
                            }
                        }
                    }
                }
            }
        }
    }
}


/// Whether two float tables read the text `t` alike.
pub open spec fn read_alike(t1: Seq<(Seq<char>, Option<u64>)>, t2: Seq<(Seq<char>, Option<u64>)>, t: Seq<char>) -> bool {
    float_reading(t1, t) == float_reading(t2, t)
}

/// Whether two float tables read each of the texts `ts` alike.
pub open spec fn agree_on(t1: Seq<(Seq<char>, Option<u64>)>, t2: Seq<(Seq<char>, Option<u64>)>, ts: Seq<Seq<char>>) -> bool {
    forall|i: int| 0 <= i < ts.len() ==> #[trigger] read_alike(t1, t2, ts[i])
}

pub(crate) proof fn lemma_first_index_in(s: Seq<Seq<char>>, x: Seq<char>)
    requires
        s.contains(x),
    ensures
        0 <= first_index(s, x) < s.len(),
        s[first_index(s, x)] == x,
    decreases s.len(),
{
    if s[0] != x {
        let k = choose|k: int| 0 <= k < s.len() && s[k] == x;
        assert(s.drop_first()[k - 1] == x);
        lemma_first_index_in(s.drop_first(), x);
    }
}

/// An action reads the table only at the sample's label values.
proof fn lemma_act_alike(
    m: MetricModel,
    action: Action,
    v: MetricNumber,
    names: Seq<Seq<char>>,
    values: Seq<Seq<char>>,
    ex: Option<ExemplarModel>,
    t1: Seq<(Seq<char>, Option<u64>)>,
    t2: Seq<(Seq<char>, Option<u64>)>,
)
    requires
        agree_on(t1, t2, values),
        action == Action::HistogramBucket ==> indexable(names, values, "le"@),
        action == Action::SummaryQuantile ==> indexable(names, values, "quantile"@),
    ensures
        act(m, action, v, names, values, ex, t1) == act(m, action, v, names, values, ex, t2),
{
    if action == Action::HistogramBucket {
        lemma_first_index_in(names, "le"@);
        assert(read_alike(t1, t2, values[first_index(names, "le"@)]));
    }
    if action == Action::SummaryQuantile {
        lemma_first_index_in(names, "quantile"@);
        assert(read_alike(t1, t2, values[first_index(names, "quantile"@)]));
    }
}

/// What a family does with a sample reads the table only at the sample's
/// label values.
pub(crate) proof fn lemma_process_alike(
    f: FamilyModel,
    name: Seq<char>,
    v: MetricNumber,
    names: Seq<Seq<char>>,
    values: Seq<Seq<char>>,
    ts: Option<u64>,
    ex: Option<ExemplarModel>,
    strict: bool,
    t1: Seq<(Seq<char>, Option<u64>)>,
    t2: Seq<(Seq<char>, Option<u64>)>,
)
    requires
        values_reach_mandatory(f, name, names, values, ex),
        agree_on(t1, t2, values),
    ensures
        process_spec(f, name, v, names, values, ts, ex, strict, t1) == process_spec(
            f,
            name,
            v,
            names,
            values,
            ts,
            ex,
            strict,
            t2,
        ),
{
    let t = effective_type(f);
    let (suffix, mandatory, action) = handler(t, name);
    if exemplar_allowed(t, name) || ex is None {
        if let Ok((an, av)) = without_mandatory(names, values, mandatory) {
            if let Ok(f1) = set_label_names(f, name, an, strict) {
                let trimmed = trim_end(name, suffix);
                let f2 = if f1.name is None {
                    FamilyModel { name: Some(trimmed), ..f1 }
                } else {
                    f1
                };
                let j = metric_index(f2.metrics, av);
                if j >= 0 {
                    lemma_metric_index_bounds(f2.metrics, av);
                    lemma_act_alike(f2.metrics[j], action, v, names, values, ex, t1, t2);
                } else {
                    let m = MetricModel { label_values: av, timestamp: ts, value: type_value(t) };
                    lemma_act_alike(m, action, v, names, values, ex, t1, t2);
                    let f3 = FamilyModel { metrics: f2.metrics.push(m), ..f2 };
                    assert(f3.metrics[f2.metrics.len() as int] == m);
                }
            }
        }
    }
}


/// Label names and values of one length reach every mandatory label.
pub(crate) proof fn lemma_equal_lengths_reach(
    f: FamilyModel,
    name: Seq<char>,
    names: Seq<Seq<char>>,
    values: Seq<Seq<char>>,
    ex: Option<ExemplarModel>,
)
    requires
        names.len() == values.len(),
    ensures
        values_reach_mandatory(f, name, names, values, ex),
{
    if let Some(l) = handler(effective_type(f), name).1 {
        if names.contains(l) {
            lemma_first_index_in(names, l);
        }
    }
}


/// An action keeps the metric's label values and timestamp.
proof fn lemma_act_keeps_labels(
    m: MetricModel,
    action: Action,
    v: MetricNumber,
    names: Seq<Seq<char>>,
    values: Seq<Seq<char>>,
    ex: Option<ExemplarModel>,
    tab: Seq<(Seq<char>, Option<u64>)>,
)
    ensures
        act(m, action, v, names, values, ex, tab) matches Ok(m2) ==> m2.label_values == m.label_values
            && m2.timestamp == m.timestamp,
{
}

/// Whether `g` is `f` with at most one of `f`'s metrics changed, and that
/// one only in its value, and at most one metric added.
pub open spec fn keeps_all_but_one(f: FamilyModel, g: FamilyModel) -> bool {
    &&& g.family_type == f.family_type
    &&& g.help == f.help
    &&& g.unit == f.unit
    &&& f.metrics.len() <= g.metrics.len() <= f.metrics.len() + 1
    &&& forall|i: int|
        0 <= i < f.metrics.len() ==> #[trigger] g.metrics[i].label_values == f.metrics[i].label_values
            && g.metrics[i].timestamp == f.metrics[i].timestamp
    &&& forall|i: int, k: int|
        0 <= i < f.metrics.len() && 0 <= k < f.metrics.len() && i != k && #[trigger] g.metrics[i]
            != f.metrics[i] ==> #[trigger] g.metrics[k] == f.metrics[k]
}

/// Law: whatever a sample does to a family, error or not, the family keeps
/// its type, help and unit, and every metric but the one of the sample's
/// label set; that one keeps its labels and timestamp; at most one metric is
/// added.
pub proof fn lemma_process_keeps_the_rest(
    f: FamilyModel,
    name: Seq<char>,
    v: MetricNumber,
    names: Seq<Seq<char>>,
    values: Seq<Seq<char>>,
    ts: Option<u64>,
    ex: Option<ExemplarModel>,
    strict: bool,
    tab: Seq<(Seq<char>, Option<u64>)>,
)
    ensures
        keeps_all_but_one(f, process_state(f, name, v, names, values, ts, ex, strict, tab)),
{
    let t = effective_type(f);
    if exemplar_allowed(t, name) || ex is None {
        let (suffix, mandatory, action) = handler(t, name);
        if let Ok((an, av)) = without_mandatory(names, values, mandatory) {
            if let Ok(f1) = set_label_names(f, name, an, strict) {
                let trimmed = trim_end(name, suffix);
                if !(f1.name is Some && f1.name->0 != trimmed && strict) {
                    let f2 = if f1.name is None {
                        FamilyModel { name: Some(trimmed), ..f1 }
                    } else {
                        f1
                    };
                    lemma_metric_index_bounds(f2.metrics, av);
                    let j = metric_index(f2.metrics, av);
                    let g = process_state(f, name, v, names, values, ts, ex, strict, tab);
                    if j >= 0 {
                        lemma_act_keeps_labels(f2.metrics[j], action, v, names, values, ex, tab);
                    } else {
                        let m = MetricModel { label_values: av, timestamp: ts, value: type_value(t) };
                        let f3 = FamilyModel { metrics: f2.metrics.push(m), ..f2 };
                        lemma_act_keeps_labels(f3.metrics[f2.metrics.len() as int], action, v, names, values, ex, tab);
                        assert forall|i: int| 0 <= i < f.metrics.len() implies #[trigger] g.metrics[i] == f.metrics[i] by {
                            assert(f3.metrics[i] == f.metrics[i]);
                        }
                    }
                }
            }
        }
    }
}


/// Law: a histogram's buckets are cumulative exactly when no bucket's count
/// is below the count of the bucket before it: equal counts (an empty
/// bucket) are cumulative.
pub proof fn lemma_cumulative_means_never_decreasing(bs: Seq<BucketModel>)
    ensures
        cumulative(bs) <==> forall|i: int|
            1 <= i < bs.len() ==> !crate::number::number_lt(#[trigger] bs[i].count, bs[i - 1].count),
    decreases bs.len(),
{
    if bs.len() > 1 {
        let front = bs.drop_last();
        lemma_cumulative_means_never_decreasing(front);
        assert forall|i: int| 1 <= i < front.len() implies #[trigger] front[i].count == bs[i].count
            && front[i - 1].count == bs[i - 1].count by {}
        if cumulative(bs) {
            assert forall|i: int| 1 <= i < bs.len() implies !crate::number::number_lt(#[trigger] bs[i].count, bs[i - 1].count) by {
                if i < bs.len() - 1 {
                    assert(front[i].count == bs[i].count);
                }
            }
        }
        if forall|i: int| 1 <= i < bs.len() ==> !crate::number::number_lt(#[trigger] bs[i].count, bs[i - 1].count) {
            assert(!crate::number::number_lt(bs[bs.len() - 1].count, bs[bs.len() - 2].count));
            assert forall|i: int| 1 <= i < front.len() implies !crate::number::number_lt(#[trigger] front[i].count, front[i - 1].count) by {
                assert(front[i].count == bs[i].count);
                assert(!crate::number::number_lt(bs[i].count, bs[i - 1].count));
            }
        }
    }
}

/// Law: no number is below itself.
pub proof fn lemma_number_lt_irreflexive(n: MetricNumber)
    ensures
        !crate::number::number_lt(n, n),
{
}

/// Law: a histogram is refused as not cumulative only when some bucket's
/// count is below the count of the bucket before it.
pub proof fn lemma_not_cumulative_has_a_decrease(h: HistogramModel)
    ensures
        check_histogram(h) == Err::<(), ErrorModel>(ParseError::InvalidMetric(Invalid::HistogramNotCumulative))
            ==> exists|i: int|
            1 <= i < h.buckets.len() && crate::number::number_lt(
                #[trigger] h.buckets[i].count,
                h.buckets[i - 1].count,
            ),
{
    lemma_cumulative_means_never_decreasing(h.buckets);
}

/// Law: a summary quantile line whose `quantile` label reads as a float `q`
/// with `0 <= q <= 1` (both ends included), and whose value is not below
/// zero, is taken: `(q, value)` is appended to the metric's quantiles. Any
/// other reading, NaN among them, is refused as out of range.
pub proof fn lemma_quantile_in_unit_interval(
    m: MetricModel,
    v: MetricNumber,
    names: Seq<Seq<char>>,
    values: Seq<Seq<char>>,
    ex: Option<ExemplarModel>,
    tab: Seq<(Seq<char>, Option<u64>)>,
    q: u64,
)
    requires
        indexable(names, values, "quantile"@),
        float_reading(tab, values[first_index(names, "quantile"@)]) == Some(q),
        !number_negative(v),
        m.value is Summary,
    ensures
        crate::number::exponent_field(ONE) == 1023 && crate::number::fraction_field(ONE) == 0,
        crate::number::float_key(0) == 0,
        !crate::number::is_nan(q) && 0 <= crate::number::float_key(q) <= crate::number::float_key(ONE) ==> act(
            m,
            Action::SummaryQuantile,
            v,
            names,
            values,
            ex,
            tab,
        ) == Ok::<MetricModel, ErrorModel>(
            MetricModel {
                value: ValueModel::Summary(
                    SummaryModel {
                        quantiles: m.value->Summary_0.quantiles.push(Quantile { quantile: q, value: v }),
                        ..m.value->Summary_0
                    },
                ),
                ..m
            },
        ),
        !(!crate::number::is_nan(q) && 0 <= crate::number::float_key(q) <= crate::number::float_key(ONE))
            ==> act(m, Action::SummaryQuantile, v, names, values, ex, tab) == Err::<MetricModel, ErrorModel>(
            ParseError::InvalidMetric(Invalid::SummaryBoundOutOfRange(q)),
        ),
{
    assert(ONE as int / 0x10_0000_0000_0000 == 1023);
    assert(ONE as int % 0x10_0000_0000_0000 == 0);
    assert(!crate::number::is_nan(0));
    assert(!crate::number::is_nan(ONE));
}


/// Law: a histogram has a `+Inf` bucket exactly when one of its buckets has
/// the upper bound `+Inf`: sign clear, all exponent bits set, no fraction.
pub proof fn lemma_inf_bucket_means_some_bound_is_infinite(bs: Seq<BucketModel>)
    ensures
        crate::number::POSITIVE_INFINITY < crate::number::SIGN_BIT,
        crate::number::exponent_field(crate::number::POSITIVE_INFINITY) == 2047,
        crate::number::fraction_field(crate::number::POSITIVE_INFINITY) == 0,
        has_inf_bucket(bs) <==> exists|i: int|
            0 <= i < bs.len() && #[trigger] bs[i].upper_bound == crate::number::POSITIVE_INFINITY,
    decreases bs.len(),
{
    assert(crate::number::POSITIVE_INFINITY as int / 0x10_0000_0000_0000 == 2047);
    assert(crate::number::POSITIVE_INFINITY as int % 0x10_0000_0000_0000 == 0);
    if bs.len() > 0 {
        let front = bs.drop_last();
        lemma_inf_bucket_means_some_bound_is_infinite(front);
        if has_inf_bucket(front) {
            let k = choose|k: int| 0 <= k < front.len() && #[trigger] front[k].upper_bound == crate::number::POSITIVE_INFINITY;
            assert(bs[k].upper_bound == front[k].upper_bound);
        }
        if exists|i: int| 0 <= i < bs.len() && #[trigger] bs[i].upper_bound == crate::number::POSITIVE_INFINITY {
            let k = choose|k: int| 0 <= k < bs.len() && #[trigger] bs[k].upper_bound == crate::number::POSITIVE_INFINITY;
            if k < bs.len() - 1 {
                assert(front[k].upper_bound == bs[k].upper_bound);
            }
        }
    }
}

} // verus!
