use openmetrics_parser::number::MetricNumber;
use openmetrics_parser::parser::{float_texts, parse_mediamtx_prometheus, parse_prometheus};
use openmetrics_parser::types::{
    Exemplar, FloatTable, Invalid, MetricFamily, MetricFamilyMarshal, MetricMarshal, MetricValueMarshal,
    MetricsExposition, ParseError, PrometheusType, PrometheusValue,
};

type Error = openmetrics_parser::types::Error;
type Why = Invalid<Vec<char>, Vec<Vec<char>>, Vec<openmetrics_parser::types::HistogramBucket>>;

fn table_for(text: &str) -> FloatTable {
    let entries = float_texts(text)
        .into_iter()
        .map(|t| {
            let s: String = t.iter().collect();
            let r = s.parse::<f64>().ok().map(f64::to_bits);
            (t, r)
        })
        .collect();
    FloatTable { entries }
}

fn parse(text: &str, strict: bool) -> Result<MetricsExposition, Error> {
    let floats = table_for(text);
    parse_prometheus(text, strict, &floats)
}

fn s(v: &[char]) -> String {
    v.iter().collect()
}

fn family<'a>(e: &'a MetricsExposition, name: &str) -> &'a MetricFamily {
    e.families.iter().find(|f| s(&f.family_name) == name).expect("family")
}

fn invalid(r: Result<MetricsExposition, Error>) -> Why {
    match r {
        Err(ParseError::InvalidMetric(i)) => i,
        other => panic!("expected an invalid metric, got {:?}", other),
    }
}

#[test]
fn gauge_family() {
    let e = parse("# HELP temp The temperature\n# TYPE temp gauge\ntemp{room=\"a\"} 21\ntemp{room=\"b\"} 19.5\n", true)
        .unwrap();
    assert_eq!(e.families.len(), 1);
    let f = family(&e, "temp");
    assert_eq!(f.family_type, PrometheusType::Gauge);
    assert_eq!(s(&f.help), "The temperature");
    assert_eq!(f.label_names.len(), 1);
    assert_eq!(s(&f.label_names[0]), "room");
    assert_eq!(f.samples.len(), 2);
    assert!(matches!(f.samples[0].value, PrometheusValue::Gauge(MetricNumber::Int(21))));
    match f.samples[1].value {
        PrometheusValue::Gauge(MetricNumber::Float(b)) => assert_eq!(f64::from_bits(b), 19.5),
        ref other => panic!("{:?}", other),
    }
}

#[test]
fn counter_with_timestamps() {
    let text = "# TYPE requests_total counter\nrequests_total{code=\"200\"} 10 1000\nrequests_total{code=\"500\"} 2 1000\n";
    let e = parse(text, false).unwrap();
    let f = family(&e, "requests_total");
    assert_eq!(f.family_type, PrometheusType::Counter);
    assert_eq!(f.samples.len(), 2);
    assert_eq!(f.samples[0].timestamp, Some(1000f64.to_bits()));
    match &f.samples[0].value {
        PrometheusValue::Counter(c) => assert_eq!(c.total, MetricNumber::Int(10)),
        other => panic!("{:?}", other),
    }
}

#[test]
fn untyped_samples_form_one_family() {
    let e = parse("up 1\n", true).unwrap();
    let f = family(&e, "up");
    assert_eq!(f.family_type, PrometheusType::Unknown);
    assert!(matches!(f.samples[0].value, PrometheusValue::Unknown(MetricNumber::Int(1))));
}

#[test]
fn histogram_family() {
    let text = "# TYPE lat histogram\nlat_bucket{le=\"0.5\"} 1\nlat_bucket{le=\"+Inf\"} 3\nlat_sum 2.5\nlat_count 3\n";
    let e = parse(text, true).unwrap();
    let f = family(&e, "lat");
    assert_eq!(f.samples.len(), 1);
    match &f.samples[0].value {
        PrometheusValue::Histogram(h) => {
            assert_eq!(h.buckets.len(), 2);
            assert_eq!(f64::from_bits(h.buckets[0].upper_bound), 0.5);
            assert_eq!(f64::from_bits(h.buckets[1].upper_bound), f64::INFINITY);
            assert_eq!(h.count, Some(3));
            assert_eq!(h.sum, Some(MetricNumber::Float(2.5f64.to_bits())));
        },
        other => panic!("{:?}", other),
    }
}

#[test]
fn summary_family() {
    let text = "# TYPE rpc summary\nrpc{quantile=\"0.5\"} 4\nrpc{quantile=\"0.9\"} 7\nrpc_sum 30\nrpc_count 6\n";
    let e = parse(text, true).unwrap();
    let f = family(&e, "rpc");
    match &f.samples[0].value {
        PrometheusValue::Summary(q) => {
            assert_eq!(q.quantiles.len(), 2);
            assert_eq!(f64::from_bits(q.quantiles[1].quantile), 0.9);
            assert_eq!(q.count, Some(6));
            assert_eq!(q.sum, Some(MetricNumber::Int(30)));
        },
        other => panic!("{:?}", other),
    }
}

#[test]
fn descriptor_after_samples_starts_a_family() {
    let e = parse("# TYPE a gauge\na 1\n# TYPE b gauge\nb 2\n", true).unwrap();
    assert_eq!(e.families.len(), 2);
    assert_eq!(s(&e.families[0].family_name), "a");
    assert_eq!(s(&e.families[1].family_name), "b");
}

#[test]
fn comments_and_blank_lines_are_skipped() {
    let e = parse("# a comment\n\n# TYPE a gauge\na 1\n# EOF", true).unwrap();
    assert_eq!(e.families.len(), 1);
}

#[test]
fn labels_are_sorted_by_name() {
    let e = parse("m{z=\"1\",a=\"2\",k=\"3\"} 1\n", true).unwrap();
    let f = family(&e, "m");
    let names: Vec<String> = f.label_names.iter().map(|n| s(n)).collect();
    assert_eq!(names, vec!["a", "k", "z"]);
    let values: Vec<String> = f.samples[0].label_values.iter().map(|n| s(n)).collect();
    assert_eq!(values, vec!["2", "3", "1"]);
}

#[test]
fn non_strict_merges_label_sets() {
    let text = "# TYPE g gauge\ng{a=\"1\"} 1\ng{b=\"2\"} 2\n";
    assert!(matches!(invalid(parse(text, true)), Invalid::LabelSetMismatch(..)));
    let e = parse(text, false).unwrap();
    let f = family(&e, "g");
    let names: Vec<String> = f.label_names.iter().map(|n| s(n)).collect();
    assert_eq!(names, vec!["a", "b"]);
    let first: Vec<String> = f.samples[0].label_values.iter().map(|n| s(n)).collect();
    let second: Vec<String> = f.samples[1].label_values.iter().map(|n| s(n)).collect();
    assert_eq!(first, vec!["1", ""]);
    assert_eq!(second, vec!["", "2"]);
}

#[test]
fn exemplar_on_counter() {
    let text = "# TYPE c_total counter\nc_total 5 # {trace=\"x\"} 1.5 7\n";
    let e = parse(text, false).unwrap();
    assert_eq!(family(&e, "c_total").samples.len(), 1);
    let bad = "# TYPE g gauge\ng 5 # {trace=\"x\"} 1\n";
    assert!(matches!(invalid(parse(bad, false)), Invalid::ExemplarNotAllowed(PrometheusType::Gauge)));
}

#[test]
fn syntax_error_names_the_line() {
    let r = parse("a 1\nthis is not a sample\n", true);
    assert!(matches!(r, Err(ParseError::ParseError(2))));
    assert!(matches!(parse("a{b=\"c} 1\n", true), Err(ParseError::ParseError(1))));
    assert!(matches!(parse("a x\n", true), Err(ParseError::ParseError(1))));
}

#[test]
fn duplicate_gauge_line() {
    assert!(matches!(parse("# TYPE g gauge\ng 1\ng 2\n", true), Err(ParseError::DuplicateMetric)));
}

#[test]
fn later_timestamp_of_a_gauge_is_ignored() {
    let e = parse("# TYPE g gauge\ng 1 10\ng 2 20\n", true).unwrap();
    assert!(matches!(family(&e, "g").samples[0].value, PrometheusValue::Gauge(MetricNumber::Int(1))));
}

#[test]
fn timestamp_errors() {
    assert!(matches!(invalid(parse("# TYPE c_total counter\nc_total 1 20\nc_total 2 10\n", true)), Invalid::TimestampsBackwards(..)));
    assert!(matches!(invalid(parse("# TYPE g gauge\ng 1 10\ng 2\n", true)), Invalid::MissingTimestamp));
}

#[test]
fn counter_errors() {
    assert!(matches!(invalid(parse("# TYPE c counter\nc -1\n", false)), Invalid::NegativeTotal(MetricNumber::Int(-1))));
    assert!(matches!(invalid(parse("# TYPE c counter\nc NaN\n", false)), Invalid::NegativeTotal(_)));
    assert!(matches!(invalid(parse("# TYPE c counter\nc 1\n", true)), Invalid::CounterMissingTotalSuffix(_)));
    assert!(matches!(invalid(parse("# TYPE c counter\nc_total 1\n", true)), Invalid::FamilyNameMismatch(..)));
}

#[test]
fn histogram_errors() {
    let h = "# TYPE h histogram\n";
    let cases: Vec<(String, fn(&Why) -> bool)> = vec![
        (format!("{}h_bucket{{le=\"x1\"}} 1\n", h), |i| matches!(i, Invalid::InvalidHistogramBound(_))),
        (format!("{}h_count -1\n", h), |i| matches!(i, Invalid::NegativeHistogramCount(-1))),
        (format!("{}h_count 1.5\n", h), |i| matches!(i, Invalid::NonIntegerHistogramCount(_))),
        (format!("{}h_bucket 1\n", h), |i| matches!(i, Invalid::MissingMandatoryLabel(_))),
        (format!("{}h_sum 1\nh_count 1\n", h), |i| matches!(i, Invalid::HistogramWithoutBuckets)),
        (format!("{}h_bucket{{le=\"1\"}} 1\n", h), |i| matches!(i, Invalid::HistogramWithoutInfBucket(bs) if bs.len() == 1 && f64::from_bits(bs[0].upper_bound) == 1.0)),
        (format!("{}h_bucket{{le=\"-1\"}} 1\nh_bucket{{le=\"+Inf\"}} 1\nh_sum 1\nh_count 1\n", h), |i| matches!(i, Invalid::HistogramSumWithNegativeBucket)),
        (format!("{}h_bucket{{le=\"+Inf\"}} 1\nh_sum -1\nh_count 1\n", h), |i| matches!(i, Invalid::HistogramNegativeSum)),
        (format!("{}h_bucket{{le=\"+Inf\"}} 1\nh_sum 1\n", h), |i| matches!(i, Invalid::CountWithoutSum)),
        (format!("{}h_bucket{{le=\"+Inf\"}} 1\nh_count 1\n", h), |i| matches!(i, Invalid::SumWithoutCount)),
        (format!("{}h_bucket{{le=\"1\"}} 5\nh_bucket{{le=\"+Inf\"}} 3\n", h), |i| matches!(i, Invalid::HistogramNotCumulative)),
    ];
    for (text, check) in cases {
        let i = invalid(parse(&text, true));
        assert!(check(&i), "{}: {:?}", text, i);
    }
    assert!(matches!(parse("# TYPE h histogram\nh_sum 1\nh_sum 2\n", true), Err(ParseError::DuplicateMetric)));
}

#[test]
fn summary_errors() {
    let q = "# TYPE q summary\n";
    assert!(matches!(invalid(parse(&format!("{}q_count -2\n", q), true)), Invalid::NegativeSummaryCount(-2)));
    assert!(matches!(invalid(parse(&format!("{}q_count 0.5\n", q), true)), Invalid::NonIntegerSummaryCount(_)));
    assert!(matches!(invalid(parse(&format!("{}q_sum -2\n", q), true)), Invalid::NegativeTotal(_)));
    assert!(matches!(invalid(parse(&format!("{}q{{quantile=\"0.5\"}} -1\n", q), true)), Invalid::NegativeQuantileValue));
    assert!(matches!(invalid(parse(&format!("{}q{{quantile=\"a\"}} 1\n", q), true)), Invalid::InvalidSummaryBound(_)));
    assert!(matches!(invalid(parse(&format!("{}q{{quantile=\"1.5\"}} 1\n", q), true)), Invalid::SummaryBoundOutOfRange(_)));
    assert!(matches!(invalid(parse(&format!("{}q 1\n", q), true)), Invalid::MissingMandatoryLabel(_)));
}

#[test]
fn descriptor_errors() {
    assert!(matches!(invalid(parse("# TYPE a foo\n", true)), Invalid::InvalidMetricType(_)));
    assert!(matches!(invalid(parse("# HELP a x\n# HELP a y\n", true)), Invalid::DuplicateHelp));
    assert!(matches!(invalid(parse("# TYPE a gauge\n# TYPE a gauge\n", true)), Invalid::DuplicateType));
    assert!(matches!(invalid(parse("# HELP a x\n# TYPE b gauge\n", true)), Invalid::FamilyNameConflict(..)));
}

#[test]
fn label_and_family_errors() {
    assert!(matches!(invalid(parse("m{a=\"1\",a=\"2\"} 1\n", true)), Invalid::DuplicateLabel(_)));
    let again = "# TYPE a gauge\na 1\n# TYPE b gauge\nb 1\n# TYPE a gauge\na 2\n";
    assert!(matches!(invalid(parse(again, true)), Invalid::FamilyAfterFinalised(_)));
}

#[test]
fn float_readings_come_from_the_table() {
    let empty = FloatTable { entries: Vec::new() };
    assert!(matches!(invalid(parse_prometheus("a 1.5\n", true, &empty)), Invalid::ValueNotNumber(_)));
    assert!(matches!(invalid(parse_prometheus("a 1 2\n", true, &empty)), Invalid::TimestampNotNumber(_)));
    assert!(matches!(
        invalid(parse_prometheus("# TYPE c_total counter\nc_total 1 # {a=\"b\"} 2\n", false, &empty)),
        Invalid::ExemplarValueNotNumber(_)
    ));
    assert!(parse_prometheus("a 1\n", true, &empty).is_ok());
}

#[test]
fn float_texts_lists_what_may_be_read_as_floats() {
    let t: Vec<String> = float_texts("a{x=\"1\"} 2 3 # {e=\"f\"} 4 5\n").iter().map(|v| s(v)).collect();
    assert_eq!(t, vec!["1", "2", "3", "4", "5"]);
    assert!(float_texts("broken line\n").is_empty());
}

#[test]
fn mediamtx_listing_parses() {
    let listing = "paths{name=\"cam\",state=\"ready\"} 1\nrtsp_sessions{id=\"1\"} 1\nrtsp_sessions{id=\"2\"} 1\nhls_muxers_bytes_sent{name=\"cam\"} 100\n";
    let annotated = openmetrics_parser::mediamtx::annotate_mediamtx_metrics(listing);
    let floats = table_for(&annotated);
    let e = parse_mediamtx_prometheus(listing, false, &floats).unwrap();
    let paths = family(&e, "paths");
    assert!(matches!(paths.samples[0].value, PrometheusValue::Gauge(MetricNumber::Int(1))));
    let sessions = family(&e, "rtsp_sessions");
    assert!(matches!(sessions.samples[0].value, PrometheusValue::Gauge(MetricNumber::Int(2))));
    let sent = family(&e, "hls_muxers_bytes_sent");
    assert_eq!(sent.family_type, PrometheusType::Counter);
}

#[test]
fn mediamtx_without_paths_fails() {
    let listing = "rtsp_conns{id=\"1\"} 1\n";
    let annotated = openmetrics_parser::mediamtx::annotate_mediamtx_metrics(listing);
    let floats = table_for(&annotated);
    let r = parse_mediamtx_prometheus(listing, false, &floats);
    assert!(matches!(invalid(r), Invalid::FamilyNameConflict(..)));
}

#[test]
fn metric_checks_of_a_family() {
    let mut family = MetricFamilyMarshal::empty();
    family.label_names = Some(vec![vec!['a']]);
    let metric = MetricMarshal {
        label_values: Vec::new(),
        timestamp: None,
        value: MetricValueMarshal::Gauge(Some(MetricNumber::Int(1))),
    };
    match metric.validate(&family, true) {
        Err(ParseError::InvalidMetric(Invalid::DifferentLabelSets(Some(n), v))) => {
            assert_eq!(n, vec![vec!['a']]);
            assert!(v.is_empty());
        },
        other => panic!("{:?}", other),
    }
    assert!(metric.validate(&family, false).is_ok());
    let mut with_unit = MetricFamilyMarshal::empty();
    with_unit.label_names = Some(Vec::new());
    with_unit.unit = Some(vec!['s']);
    assert!(matches!(
        metric.validate(&with_unit, false),
        Err(ParseError::InvalidMetric(Invalid::UnitWithoutSamples))
    ));
}

#[test]
fn trailing_newline_and_comments_change_nothing() {
    let a = format!("{:?}", parse("# TYPE g gauge\ng 1", true));
    let b = format!("{:?}", parse("# TYPE g gauge\ng 1\n", true));
    let c = format!("{:?}", parse("# TYPE g gauge\n# a comment\n\ng 1\n# EOF\n", true));
    assert_eq!(a, b);
    assert_eq!(a, c);
}

#[test]
fn parsed_families_have_distinct_names_and_label_sets() {
    let text = "# TYPE a gauge\na{x=\"1\"} 1\na{x=\"2\"} 2\n# TYPE b counter\nb_total{y=\"1\"} 3\nb_total{y=\"2\"} 4\n";
    let e = parse(text, false).unwrap();
    for (i, f) in e.families.iter().enumerate() {
        for g in e.families.iter().skip(i + 1) {
            assert_ne!(f.family_name, g.family_name);
        }
        for (j, s1) in f.samples.iter().enumerate() {
            for s2 in f.samples.iter().skip(j + 1) {
                assert_ne!(s1.label_values, s2.label_values);
            }
        }
    }
}

#[test]
fn readings_outside_the_listed_texts_change_nothing() {
    let text = "# TYPE h histogram\nh_bucket{le=\"0.5\"} 1\nh_bucket{le=\"+Inf\"} 2 # {t=\"x\"} 0.25\nh_count 2\nh_sum 0.75\n";
    let listed = table_for(text);
    let mut padded = FloatTable { entries: vec![(vec!['9'], Some(9f64.to_bits()))] };
    padded.entries.extend(listed.entries.iter().cloned());
    padded.entries.push((vec!['h'], Some(1f64.to_bits())));
    let a = format!("{:?}", parse_prometheus(text, true, &listed));
    let b = format!("{:?}", parse_prometheus(text, true, &padded));
    assert!(parse_prometheus(text, true, &listed).is_ok());
    assert_eq!(a, b);
}

fn chars(t: &str) -> Vec<char> {
    t.chars().collect()
}

#[test]
fn duplicate_gauge_value_keeps_the_first() {
    let none = FloatTable { entries: Vec::new() };
    for t in [PrometheusType::Gauge, PrometheusType::Untyped] {
        let mut f = MetricFamilyMarshal::empty();
        f.family_type = Some(t);
        let name = chars("foo");
        assert!(f.process_new_metric(&name, MetricNumber::Int(1), vec![], vec![], None, None, true, &none).is_ok());
        let r = f.process_new_metric(&name, MetricNumber::Int(2), vec![], vec![], None, None, true, &none);
        assert!(matches!(r, Err(ParseError::DuplicateMetric)));
        assert_eq!(f.metrics.len(), 1);
        match &f.metrics[0].value {
            MetricValueMarshal::Gauge(Some(MetricNumber::Int(1))) | MetricValueMarshal::Unknown(Some(MetricNumber::Int(1))) => {},
            other => panic!("{:?}", other),
        }
    }
}

#[test]
fn missing_mandatory_label_leaves_the_family_alone() {
    let none = FloatTable { entries: Vec::new() };
    let mut f = MetricFamilyMarshal::empty();
    f.family_type = Some(PrometheusType::Histogram);
    let r = f.process_new_metric(&chars("foo_bucket"), MetricNumber::Int(1), vec![], vec![], None, None, true, &none);
    match r {
        Err(ParseError::InvalidMetric(Invalid::MissingMandatoryLabel(l))) => assert_eq!(l, chars("le")),
        other => panic!("{:?}", other),
    }
    assert!(f.name.is_none());
    assert!(f.label_names.is_none());
    assert!(f.metrics.is_empty());
}

#[test]
fn refused_exemplar_leaves_the_family_alone() {
    let none = FloatTable { entries: Vec::new() };
    let mut f = MetricFamilyMarshal::empty();
    f.family_type = Some(PrometheusType::Gauge);
    f.help = Some(chars("h"));
    let name = chars("g");
    assert!(f.process_new_metric(&name, MetricNumber::Int(1), vec![], vec![], None, None, true, &none).is_ok());
    let ex = Exemplar { labels: Vec::new(), id: 1f64.to_bits(), timestamp: None };
    let r = f.process_new_metric(&name, MetricNumber::Int(2), vec![chars("a")], vec![chars("b")], None, Some(ex), true, &none);
    assert!(matches!(r, Err(ParseError::InvalidMetric(Invalid::ExemplarNotAllowed(PrometheusType::Gauge)))));
    assert_eq!(f.help, Some(chars("h")));
    assert_eq!(f.metrics.len(), 1);
    assert!(matches!(f.metrics[0].value, MetricValueMarshal::Gauge(Some(MetricNumber::Int(1)))));
}

#[test]
fn failed_action_keeps_the_new_metric() {
    let none = FloatTable { entries: Vec::new() };
    let mut f = MetricFamilyMarshal::empty();
    f.family_type = Some(PrometheusType::Counter);
    let r = f.process_new_metric(&chars("c_total"), MetricNumber::Int(-1), vec![], vec![], None, None, true, &none);
    assert!(matches!(r, Err(ParseError::InvalidMetric(Invalid::NegativeTotal(MetricNumber::Int(-1))))));
    assert_eq!(f.name, Some(chars("c_total")));
    assert_eq!(f.metrics.len(), 1);
    assert!(matches!(f.metrics[0].value, MetricValueMarshal::Counter(None)));
}

#[test]
fn unequal_names_and_values_without_a_mandatory_label() {
    let none = FloatTable { entries: Vec::new() };
    let mut f = MetricFamilyMarshal::empty();
    f.family_type = Some(PrometheusType::Gauge);
    let r = f.process_new_metric(&chars("g"), MetricNumber::Int(3), vec![], vec![chars("x")], None, None, false, &none);
    assert!(r.is_ok());
    assert_eq!(f.metrics.len(), 1);
    assert_eq!(f.metrics[0].label_values, vec![chars("x")]);
}
