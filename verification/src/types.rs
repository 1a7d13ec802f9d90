//! The values a Prometheus exposition parses into, the families under
//! construction, and the errors; each with its mathematical model.
use vstd::prelude::*;
use crate::number::MetricNumber;
use crate::text::{chars_eq_str, chars_of, ends_with, ends_with_str, texts};

verus! {

/// The type a `# TYPE` line gives a metric family.
#[derive(Clone, Copy, Debug, PartialEq, Eq, Structural)]
pub enum PrometheusType {
    Counter,
    Gauge,
    Histogram,
    Summary,
    Untyped,
    Unknown,
}

/// Why a metric or a family was refused. `T` is a text, `L` a list of
/// texts and `B` a list of histogram buckets: `Vec<char>`, `Vec<Vec<char>>`
/// and `Vec<HistogramBucket>` in values, `Seq`s in models.
#[derive(Debug)]
pub enum Invalid<T, L, B> {
    /// A counter family whose name lacks `_total` (strict mode).
    CounterMissingTotalSuffix(T),
    /// A histogram bucket whose `le` label does not read as a float.
    InvalidHistogramBound(T),
    NegativeHistogramCount(i64),
    /// A histogram count that is no integer, by the float's bits.
    NonIntegerHistogramCount(u64),
    /// A counter total or summary sum below zero, or NaN.
    NegativeTotal(MetricNumber),
    NegativeSummaryCount(i64),
    NonIntegerSummaryCount(u64),
    NegativeQuantileValue,
    /// A summary line whose `quantile` label does not read as a float.
    InvalidSummaryBound(T),
    /// A `quantile` outside `[0, 1]`, by the float's bits.
    SummaryBoundOutOfRange(u64),
    ExemplarNotAllowed(PrometheusType),
    MissingMandatoryLabel(T),
    /// The name a sample gives its family, and the family's name (strict mode).
    FamilyNameMismatch(T, T),
    /// The earlier timestamp and the later, smaller one, by their bits.
    TimestampsBackwards(u64, u64),
    MissingTimestamp,
    /// The family's label names and a metric's label values (strict mode).
    DifferentLabelSets(Option<L>, L),
    UnitWithoutSamples,
    HistogramWithoutBuckets,
    /// A histogram without a `+Inf` bucket, and its buckets.
    HistogramWithoutInfBucket(B),
    HistogramSumWithNegativeBucket,
    HistogramNegativeSum,
    CountWithoutSum,
    SumWithoutCount,
    HistogramNotCumulative,
    InvalidMetricType(T),
    ExemplarValueNotNumber(T),
    ExemplarTimestampNotNumber(T),
    DuplicateLabel(T),
    ValueNotNumber(T),
    TimestampNotNumber(T),
    DescriptorAfterSamples,
    /// A family whose name an earlier family already took.
    FamilyAfterFinalised(T),
    /// A descriptor naming another metric than its family.
    FamilyNameConflict(Option<T>, T),
    DuplicateHelp,
    DuplicateType,
    /// The family's label names and a sample's, for the sample's name (strict mode).
    LabelSetMismatch(L, L),
}

/// A parse failure.
#[derive(Debug)]
pub enum ParseError<T, L, B> {
    /// The text breaks the exposition grammar; the number of the first line
    /// that does, counting from 1.
    ParseError(usize),
    DuplicateMetric,
    InvalidMetric(Invalid<T, L, B>),
}

pub type Error = ParseError<Vec<char>, Vec<Vec<char>>, Vec<HistogramBucket>>;

pub type ErrorModel = ParseError<Seq<char>, Seq<Seq<char>>, Seq<BucketModel>>;

pub open spec fn invalid_view(i: Invalid<Vec<char>, Vec<Vec<char>>, Vec<HistogramBucket>>) -> Invalid<
    Seq<char>,
    Seq<Seq<char>>,
    Seq<BucketModel>,
> {
    match i {
        Invalid::CounterMissingTotalSuffix(t) => Invalid::CounterMissingTotalSuffix(t@),
        Invalid::InvalidHistogramBound(t) => Invalid::InvalidHistogramBound(t@),
        Invalid::NegativeHistogramCount(v) => Invalid::NegativeHistogramCount(v),
        Invalid::NonIntegerHistogramCount(v) => Invalid::NonIntegerHistogramCount(v),
        Invalid::NegativeTotal(v) => Invalid::NegativeTotal(v),
        Invalid::NegativeSummaryCount(v) => Invalid::NegativeSummaryCount(v),
        Invalid::NonIntegerSummaryCount(v) => Invalid::NonIntegerSummaryCount(v),
        Invalid::NegativeQuantileValue => Invalid::NegativeQuantileValue,
        Invalid::InvalidSummaryBound(t) => Invalid::InvalidSummaryBound(t@),
        Invalid::SummaryBoundOutOfRange(v) => Invalid::SummaryBoundOutOfRange(v),
        Invalid::ExemplarNotAllowed(t) => Invalid::ExemplarNotAllowed(t),
        Invalid::MissingMandatoryLabel(t) => Invalid::MissingMandatoryLabel(t@),
        Invalid::FamilyNameMismatch(a, b) => Invalid::FamilyNameMismatch(a@, b@),
        Invalid::TimestampsBackwards(a, b) => Invalid::TimestampsBackwards(a, b),
        Invalid::MissingTimestamp => Invalid::MissingTimestamp,
        Invalid::DifferentLabelSets(a, b) => Invalid::DifferentLabelSets(
            match a {
                Some(l) => Some(texts(l@)),
                None => None,
            },
            texts(b@),
        ),
        Invalid::UnitWithoutSamples => Invalid::UnitWithoutSamples,
        Invalid::HistogramWithoutBuckets => Invalid::HistogramWithoutBuckets,
        Invalid::HistogramWithoutInfBucket(bs) => Invalid::HistogramWithoutInfBucket(
            bs@.map_values(|b: HistogramBucket| b@),
        ),
        Invalid::HistogramSumWithNegativeBucket => Invalid::HistogramSumWithNegativeBucket,
        Invalid::HistogramNegativeSum => Invalid::HistogramNegativeSum,
        Invalid::CountWithoutSum => Invalid::CountWithoutSum,
        Invalid::SumWithoutCount => Invalid::SumWithoutCount,
        Invalid::HistogramNotCumulative => Invalid::HistogramNotCumulative,
        Invalid::InvalidMetricType(t) => Invalid::InvalidMetricType(t@),
        Invalid::ExemplarValueNotNumber(t) => Invalid::ExemplarValueNotNumber(t@),
        Invalid::ExemplarTimestampNotNumber(t) => Invalid::ExemplarTimestampNotNumber(t@),
        Invalid::DuplicateLabel(t) => Invalid::DuplicateLabel(t@),
        Invalid::ValueNotNumber(t) => Invalid::ValueNotNumber(t@),
        Invalid::TimestampNotNumber(t) => Invalid::TimestampNotNumber(t@),
        Invalid::DescriptorAfterSamples => Invalid::DescriptorAfterSamples,
        Invalid::FamilyAfterFinalised(t) => Invalid::FamilyAfterFinalised(t@),
        Invalid::FamilyNameConflict(a, b) => Invalid::FamilyNameConflict(
            match a {
                Some(t) => Some(t@),
                None => None,
            },
            b@,
        ),
        Invalid::DuplicateHelp => Invalid::DuplicateHelp,
        Invalid::DuplicateType => Invalid::DuplicateType,
        Invalid::LabelSetMismatch(a, b) => Invalid::LabelSetMismatch(texts(a@), texts(b@)),
    }
}

/// The model of an error.
pub open spec fn error_view(e: Error) -> ErrorModel {
    match e {
        ParseError::ParseError(n) => ParseError::ParseError(n),
        ParseError::DuplicateMetric => ParseError::DuplicateMetric,
        ParseError::InvalidMetric(i) => ParseError::InvalidMetric(invalid_view(i)),
    }
}

/// The model of an optional text.
pub open spec fn opt_text(o: Option<Vec<char>>) -> Option<Seq<char>> {
    match o {
        Some(t) => Some(t@),
        None => None,
    }
}

/// The model of an optional list of texts.
pub open spec fn opt_texts(o: Option<Vec<Vec<char>>>) -> Option<Seq<Seq<char>>> {
    match o {
        Some(t) => Some(texts(t@)),
        None => None,
    }
}

/// The model of a list of label pairs.
pub open spec fn pairs_view(v: Seq<(Vec<char>, Vec<char>)>) -> Seq<(Seq<char>, Seq<char>)> {
    v.map_values(|p: (Vec<char>, Vec<char>)| (p.0@, p.1@))
}

/// An exemplar: its labels sorted by name, its value and timestamp as float bits.
#[derive(Debug)]
pub struct Exemplar {
    pub labels: Vec<(Vec<char>, Vec<char>)>,
    pub id: u64,
    pub timestamp: Option<u64>,
}

pub struct ExemplarModel {
    pub labels: Seq<(Seq<char>, Seq<char>)>,
    pub id: u64,
    pub timestamp: Option<u64>,
}

impl View for Exemplar {
    type V = ExemplarModel;

    open spec fn view(&self) -> ExemplarModel {
        ExemplarModel { labels: pairs_view(self.labels@), id: self.id, timestamp: self.timestamp }
    }
}

pub open spec fn opt_exemplar(o: Option<Exemplar>) -> Option<ExemplarModel> {
    match o {
        Some(e) => Some(e@),
        None => None,
    }
}

/// A histogram bucket: its count, its upper bound (float bits), its exemplar.
#[derive(Debug)]
pub struct HistogramBucket {
    pub count: MetricNumber,
    pub upper_bound: u64,
    pub exemplar: Option<Exemplar>,
}

pub struct BucketModel {
    pub count: MetricNumber,
    pub upper_bound: u64,
    pub exemplar: Option<ExemplarModel>,
}

impl View for HistogramBucket {
    type V = BucketModel;

    open spec fn view(&self) -> BucketModel {
        BucketModel {
            count: self.count,
            upper_bound: self.upper_bound,
            exemplar: opt_exemplar(self.exemplar),
        }
    }
}

/// The value of a histogram metric.
#[derive(Debug)]
pub struct HistogramValue {
    pub sum: Option<MetricNumber>,
    pub count: Option<u64>,
    pub buckets: Vec<HistogramBucket>,
}

pub struct HistogramModel {
    pub sum: Option<MetricNumber>,
    pub count: Option<u64>,
    pub buckets: Seq<BucketModel>,
}

impl View for HistogramValue {
    type V = HistogramModel;

    open spec fn view(&self) -> HistogramModel {
        HistogramModel {
            sum: self.sum,
            count: self.count,
            buckets: self.buckets@.map_values(|b: HistogramBucket| b@),
        }
    }
}

/// A summary quantile: the quantile (float bits) and its value.
#[derive(Clone, Copy, Debug)]
pub struct Quantile {
    pub quantile: u64,
    pub value: MetricNumber,
}

/// The value of a summary metric.
#[derive(Debug)]
pub struct SummaryValue {
    pub sum: Option<MetricNumber>,
    pub count: Option<u64>,
    pub quantiles: Vec<Quantile>,
}

pub struct SummaryModel {
    pub sum: Option<MetricNumber>,
    pub count: Option<u64>,
    pub quantiles: Seq<Quantile>,
}

impl View for SummaryValue {
    type V = SummaryModel;

    open spec fn view(&self) -> SummaryModel {
        SummaryModel { sum: self.sum, count: self.count, quantiles: self.quantiles@ }
    }
}

/// The value of a metric while its family is read.
#[derive(Debug)]
pub enum MetricValueMarshal {
    Unknown(Option<MetricNumber>),
    Gauge(Option<MetricNumber>),
    Counter(Option<MetricNumber>),
    Histogram(HistogramValue),
    Summary(SummaryValue),
}

pub enum ValueModel {
    Unknown(Option<MetricNumber>),
    Gauge(Option<MetricNumber>),
    Counter(Option<MetricNumber>),
    Histogram(HistogramModel),
    Summary(SummaryModel),
}

impl View for MetricValueMarshal {
    type V = ValueModel;

    open spec fn view(&self) -> ValueModel {
        match self {
            MetricValueMarshal::Unknown(v) => ValueModel::Unknown(*v),
            MetricValueMarshal::Gauge(v) => ValueModel::Gauge(*v),
            MetricValueMarshal::Counter(v) => ValueModel::Counter(*v),
            MetricValueMarshal::Histogram(h) => ValueModel::Histogram(h@),
            MetricValueMarshal::Summary(s) => ValueModel::Summary(s@),
        }
    }
}

/// A metric while its family is read: the values of its labels, its
/// timestamp (float bits) and its value.
#[derive(Debug)]
pub struct MetricMarshal {
    pub label_values: Vec<Vec<char>>,
    pub timestamp: Option<u64>,
    pub value: MetricValueMarshal,
}

pub struct MetricModel {
    pub label_values: Seq<Seq<char>>,
    pub timestamp: Option<u64>,
    pub value: ValueModel,
}

impl View for MetricMarshal {
    type V = MetricModel;

    open spec fn view(&self) -> MetricModel {
        MetricModel {
            label_values: texts(self.label_values@),
            timestamp: self.timestamp,
            value: self.value@,
        }
    }
}

/// A family while it is read.
#[derive(Debug)]
pub struct MetricFamilyMarshal {
    pub name: Option<Vec<char>>,
    pub label_names: Option<Vec<Vec<char>>>,
    pub family_type: Option<PrometheusType>,
    pub help: Option<Vec<char>>,
    pub unit: Option<Vec<char>>,
    pub metrics: Vec<MetricMarshal>,
}

pub struct FamilyModel {
    pub name: Option<Seq<char>>,
    pub label_names: Option<Seq<Seq<char>>>,
    pub family_type: Option<PrometheusType>,
    pub help: Option<Seq<char>>,
    pub unit: Option<Seq<char>>,
    pub metrics: Seq<MetricModel>,
}

pub open spec fn metrics_view(v: Seq<MetricMarshal>) -> Seq<MetricModel> {
    v.map_values(|m: MetricMarshal| m@)
}

impl View for MetricFamilyMarshal {
    type V = FamilyModel;

    open spec fn view(&self) -> FamilyModel {
        FamilyModel {
            name: opt_text(self.name),
            label_names: opt_texts(self.label_names),
            family_type: self.family_type,
            help: opt_text(self.help),
            unit: opt_text(self.unit),
            metrics: metrics_view(self.metrics@),
        }
    }
}

/// The total of a counter, and when it was created (never set by this format).
#[derive(Clone, Copy, Debug)]
pub struct CounterValue {
    pub total: MetricNumber,
    pub created: Option<u64>,
}

/// The value of a finished sample.
#[derive(Debug)]
pub enum PrometheusValue {
    Unknown(MetricNumber),
    Gauge(MetricNumber),
    Counter(CounterValue),
    Histogram(HistogramValue),
    Summary(SummaryValue),
}

pub enum PrometheusValueModel {
    Unknown(MetricNumber),
    Gauge(MetricNumber),
    Counter(CounterValue),
    Histogram(HistogramModel),
    Summary(SummaryModel),
}

impl View for PrometheusValue {
    type V = PrometheusValueModel;

    open spec fn view(&self) -> PrometheusValueModel {
        match self {
            PrometheusValue::Unknown(v) => PrometheusValueModel::Unknown(*v),
            PrometheusValue::Gauge(v) => PrometheusValueModel::Gauge(*v),
            PrometheusValue::Counter(c) => PrometheusValueModel::Counter(*c),
            PrometheusValue::Histogram(h) => PrometheusValueModel::Histogram(h@),
            PrometheusValue::Summary(s) => PrometheusValueModel::Summary(s@),
        }
    }
}

/// A finished sample.
#[derive(Debug)]
pub struct Sample {
    pub label_values: Vec<Vec<char>>,
    pub timestamp: Option<u64>,
    pub value: PrometheusValue,
}

pub struct SampleModel {
    pub label_values: Seq<Seq<char>>,
    pub timestamp: Option<u64>,
    pub value: PrometheusValueModel,
}

impl View for Sample {
    type V = SampleModel;

    open spec fn view(&self) -> SampleModel {
        SampleModel {
            label_values: texts(self.label_values@),
            timestamp: self.timestamp,
            value: self.value@,
        }
    }
}

/// A finished metric family.
#[derive(Debug)]
pub struct MetricFamily {
    pub family_name: Vec<char>,
    pub label_names: Vec<Vec<char>>,
    pub family_type: PrometheusType,
    pub help: Vec<char>,
    pub unit: Vec<char>,
    pub samples: Vec<Sample>,
}

pub struct MetricFamilyModel {
    pub family_name: Seq<char>,
    pub label_names: Seq<Seq<char>>,
    pub family_type: PrometheusType,
    pub help: Seq<char>,
    pub unit: Seq<char>,
    pub samples: Seq<SampleModel>,
}

impl View for MetricFamily {
    type V = MetricFamilyModel;

    open spec fn view(&self) -> MetricFamilyModel {
        MetricFamilyModel {
            family_name: self.family_name@,
            label_names: texts(self.label_names@),
            family_type: self.family_type,
            help: self.help@,
            unit: self.unit@,
            samples: self.samples@.map_values(|s: Sample| s@),
        }
    }
}

/// A parsed exposition: its families in the order they came, no two with
/// the same name.
#[derive(Debug)]
pub struct MetricsExposition {
    pub families: Vec<MetricFamily>,
}

impl View for MetricsExposition {
    type V = Seq<MetricFamilyModel>;

    open spec fn view(&self) -> Seq<MetricFamilyModel> {
        self.families@.map_values(|f: MetricFamily| f@)
    }
}

/// The type a family has when no `# TYPE` line gave it one.
impl Default for PrometheusType {
    fn default() -> (t: Self)
        ensures
            t == PrometheusType::Unknown,
    {
        PrometheusType::Unknown
    }
}

/// The type named by a `# TYPE` line's last word.
pub open spec fn type_named(value: Seq<char>) -> Option<PrometheusType> {
    if value == "counter"@ {
        Some(PrometheusType::Counter)
    } else if value == "gauge"@ {
        Some(PrometheusType::Gauge)
    } else if value == "histogram"@ {
        Some(PrometheusType::Histogram)
    } else if value == "summary"@ {
        Some(PrometheusType::Summary)
    } else if value == "untyped"@ {
        Some(PrometheusType::Untyped)
    } else if value == "unknown"@ {
        Some(PrometheusType::Unknown)
    } else {
        None
    }
}

/// The labels a family ignores when it compares label sets: `le` on the
/// buckets of a histogram.
pub open spec fn ignored_labels(t: PrometheusType, metric_name: Seq<char>) -> Seq<Seq<char>> {
    if t == PrometheusType::Histogram && ends_with(metric_name, "_bucket"@) {
        seq!["le"@]
    } else {
        seq![]
    }
}

/// The value a new metric of the type starts with.
pub open spec fn type_value(t: PrometheusType) -> ValueModel {
    match t {
        PrometheusType::Histogram => ValueModel::Histogram(
            HistogramModel { sum: None, count: None, buckets: seq![] },
        ),
        PrometheusType::Counter => ValueModel::Counter(None),
        PrometheusType::Unknown => ValueModel::Unknown(None),
        PrometheusType::Gauge => ValueModel::Gauge(None),
        PrometheusType::Summary => ValueModel::Summary(
            SummaryModel { sum: None, count: None, quantiles: seq![] },
        ),
        PrometheusType::Untyped => ValueModel::Unknown(None),
    }
}

/// Whether several lines may add to one metric of the type.
pub open spec fn multiple_lines(t: PrometheusType) -> bool {
    t == PrometheusType::Counter || t == PrometheusType::Histogram || t == PrometheusType::Summary
}

/// Whether a sample of the type with this name may carry an exemplar.
pub open spec fn exemplar_allowed(t: PrometheusType, metric_name: Seq<char>) -> bool {
    match t {
        PrometheusType::Counter => ends_with(metric_name, "_total"@),
        PrometheusType::Histogram => ends_with(metric_name, "_bucket"@),
        _ => false,
    }
}

impl PrometheusType {
    /// The type named by `value`, or `InvalidMetricType`.
    pub fn try_from(value: &str) -> (r: Result<PrometheusType, Error>)
        ensures
            match type_named(value@) {
                Some(t) => r matches Ok(u) && u == t,
                None => r is Err && error_view(r->Err_0) == ErrorModel::InvalidMetric(
                    Invalid::InvalidMetricType(value@),
                ),
            },
    {
        let v = chars_of(value);
        if chars_eq_str(&v, "counter") {
            Ok(PrometheusType::Counter)
        } else if chars_eq_str(&v, "gauge") {
            Ok(PrometheusType::Gauge)
        } else if chars_eq_str(&v, "histogram") {
            Ok(PrometheusType::Histogram)
        } else if chars_eq_str(&v, "summary") {
            Ok(PrometheusType::Summary)
        } else if chars_eq_str(&v, "untyped") {
            Ok(PrometheusType::Untyped)
        } else if chars_eq_str(&v, "unknown") {
            Ok(PrometheusType::Unknown)
        } else {
            Err(ParseError::InvalidMetric(Invalid::InvalidMetricType(v)))
        }
    }

    /// The labels that samples with this name leave out of their family's label set.
    pub fn get_ignored_labels(&self, metric_name: &Vec<char>) -> (r: Vec<Vec<char>>)
        ensures
            texts(r@) == ignored_labels(*self, metric_name@),
    {
        let mut r: Vec<Vec<char>> = Vec::new();
        if *self == PrometheusType::Histogram && ends_with_str(metric_name, "_bucket") {
            r.push(chars_of("le"));
        }
        assert(texts(r@) =~= ignored_labels(*self, metric_name@));
        r
    }

    /// The value a new metric of this type starts with.
    pub fn get_type_value(&self) -> (v: MetricValueMarshal)
        ensures
            v@ == type_value(*self),
    {
        match self {
            PrometheusType::Histogram => {
                let h = HistogramValue { sum: None, count: None, buckets: Vec::new() };
                assert(h@.buckets =~= Seq::<BucketModel>::empty());
                MetricValueMarshal::Histogram(h)
            },
            PrometheusType::Counter => MetricValueMarshal::Counter(None),
            PrometheusType::Unknown => MetricValueMarshal::Unknown(None),
            PrometheusType::Gauge => MetricValueMarshal::Gauge(None),
            PrometheusType::Summary => {
                let s = SummaryValue { sum: None, count: None, quantiles: Vec::new() };
                assert(s@.quantiles =~= Seq::<Quantile>::empty());
                MetricValueMarshal::Summary(s)
            },
            PrometheusType::Untyped => MetricValueMarshal::Unknown(None),
        }
    }

    /// Counters, histograms and summaries take several lines per metric.
    pub fn can_have_multiple_lines(&self) -> (r: bool)
        ensures
            r == multiple_lines(*self),
    {
        match self {
            PrometheusType::Counter | PrometheusType::Histogram | PrometheusType::Summary => true,
            _ => false,
        }
    }

    /// Counter totals and histogram buckets may carry exemplars.
    pub fn can_have_exemplar(&self, metric_name: &Vec<char>) -> (r: bool)
        ensures
            r == exemplar_allowed(*self, metric_name@),
    {
        match self {
            PrometheusType::Counter => ends_with_str(metric_name, "_total"),
            PrometheusType::Histogram => ends_with_str(metric_name, "_bucket"),
            _ => false,
        }
    }

    /// No type of this format has units.
    pub fn can_have_units(&self) -> (r: bool)
        ensures
            !r,
    {
        false
    }
}

/// What reading texts as binary64 floats gave: each text with the float's
/// bits, or `None` where the text does not read as a float. Filled by the
/// caller, which owns float parsing.
#[derive(Debug)]
pub struct FloatTable {
    pub entries: Vec<(Vec<char>, Option<u64>)>,
}

impl View for FloatTable {
    type V = Seq<(Seq<char>, Option<u64>)>;

    open spec fn view(&self) -> Seq<(Seq<char>, Option<u64>)> {
        self.entries@.map_values(|e: (Vec<char>, Option<u64>)| (e.0@, e.1))
    }
}

/// The reading the table holds for `t`: its first entry for `t`; `None` when it has none.
pub open spec fn float_reading(tab: Seq<(Seq<char>, Option<u64>)>, t: Seq<char>) -> Option<u64>
    decreases tab.len(),
{
    if tab.len() == 0 {
        None
    } else if tab[0].0 == t {
        tab[0].1
    } else {
        float_reading(tab.drop_first(), t)
    }
}

impl FloatTable {
    /// The float bits that `t` reads as, by the table.
    pub fn read(&self, t: &Vec<char>) -> (r: Option<u64>)
        ensures
            r == float_reading(self@, t@),
    {
        let mut i: usize = 0;
        assert(self@.skip(0) =~= self@);
        while i < self.entries.len()
            invariant
                i <= self.entries.len(),
                float_reading(self@, t@) == float_reading(self@.skip(i as int), t@),
            decreases self.entries.len() - i,
        {
            assert(self@.skip(i as int)[0] == (self.entries@[i as int].0@, self.entries@[i as int].1));
            if crate::text::chars_eq(&self.entries[i].0, t) {
                return self.entries[i].1;
            }
            assert(self@.skip(i as int).drop_first() =~= self@.skip(i + 1));
            i = i + 1;
        }
        None
    }
}


/// The word a `# TYPE` line writes for each type.
pub open spec fn type_word(t: PrometheusType) -> Seq<char> {
    match t {
        PrometheusType::Counter => "counter"@,
        PrometheusType::Gauge => "gauge"@,
        PrometheusType::Histogram => "histogram"@,
        PrometheusType::Summary => "summary"@,
        PrometheusType::Untyped => "untyped"@,
        PrometheusType::Unknown => "unknown"@,
    }
}

/// Law: a `# TYPE` word names the type whose word it is, and no other:
/// each type's own word reads as that type, and a word that reads as a
/// type is that type's word.
pub proof fn lemma_type_words(w: Seq<char>, t: PrometheusType)
    ensures
        type_named(type_word(t)) == Some(t),
        type_named(w) == Some(t) ==> w == type_word(t),
{
    reveal_strlit("counter");
    reveal_strlit("gauge");
    reveal_strlit("histogram");
    reveal_strlit("summary");
    reveal_strlit("untyped");
    reveal_strlit("unknown");
    assert("counter"@[0] != "summary"@[0] && "counter"@[0] != "untyped"@[0] && "counter"@[0] != "unknown"@[0]);
    assert("summary"@[0] != "untyped"@[0] && "summary"@[0] != "unknown"@[0]);
    assert("untyped"@[2] != "unknown"@[2]);
    assert("counter"@.len() != "gauge"@.len() && "counter"@.len() != "histogram"@.len());
    assert("gauge"@.len() != "histogram"@.len() && "gauge"@.len() != "summary"@.len());
    assert("histogram"@.len() != "summary"@.len());
}

} // verus!
