//! Turns MediaMTX's bare metrics listing into a Prometheus text exposition:
//! a total line for each connection and session counter, and a counter
//! family for every metric name found in the listing.
use vstd::prelude::*;
use crate::text::{
    is_whitespace, line_scan, strip_cr, blank, chars_eq, chars_eq_str, chars_of, copy_chars, decimal, first_token, first_token_of, is_blank,
    lines, push_chars, push_decimal, push_str, split_last, split_last_exec, split_lines, string_of,
    texts,
};

verus! {

/// A non-blank line of the listing: the metric name (the text before the
/// first space or `{`), and what follows the last match of that name.
pub open spec fn record_of(line: Seq<char>) -> (Seq<char>, Seq<char>) {
    (first_token(line), split_last(line, first_token(line)))
}

/// The records of the non-blank lines, in input order.
pub open spec fn records(ls: Seq<Seq<char>>) -> Seq<(Seq<char>, Seq<char>)>
    decreases ls.len(),
{
    if ls.len() == 0 {
        seq![]
    } else {
        let r = records(ls.drop_last());
        if is_blank(ls.last()) {
            r
        } else {
            r.push(record_of(ls.last()))
        }
    }
}

/// The metric names of the records, each once, in order of first appearance.
pub open spec fn names_in_order(recs: Seq<(Seq<char>, Seq<char>)>) -> Seq<Seq<char>>
    decreases recs.len(),
{
    if recs.len() == 0 {
        seq![]
    } else {
        let ks = names_in_order(recs.drop_last());
        if ks.contains(recs.last().0) {
            ks
        } else {
            ks.push(recs.last().0)
        }
    }
}

/// How many records carry the name `k`.
pub open spec fn name_count(recs: Seq<(Seq<char>, Seq<char>)>, k: Seq<char>) -> nat
    decreases recs.len(),
{
    if recs.len() == 0 {
        0
    } else {
        name_count(recs.drop_last(), k) + if recs.last().0 == k {
            1nat
        } else {
            0nat
        }
    }
}

/// The sample lines written for the name `k`: for each record with that
/// name, in order, a newline, the name and the rest of the record.
pub open spec fn name_lines(recs: Seq<(Seq<char>, Seq<char>)>, k: Seq<char>) -> Seq<char>
    decreases recs.len(),
{
    if recs.len() == 0 {
        seq![]
    } else {
        name_lines(recs.drop_last(), k) + if recs.last().0 == k {
            "\n"@ + k + recs.last().1
        } else {
            seq![]
        }
    }
}

/// The names whose totals are written as gauges and that get no counter family.
pub open spec fn is_totalled(k: Seq<char>) -> bool {
    ||| k == "paths"@
    ||| k == "rtsp_conns"@
    ||| k == "rtsp_sessions"@
    ||| k == "webrtc_sessions"@
    ||| k == "hls_muxers"@
}

/// The gauge written under the name `shown` with the number of records named `k`,
/// when there is at least one.
pub open spec fn gauge_section(recs: Seq<(Seq<char>, Seq<char>)>, k: Seq<char>, shown: Seq<char>) -> Seq<char> {
    if name_count(recs, k) == 0 {
        seq![]
    } else {
        "\n# TYPE "@ + shown + " gauge"@ + "\n"@ + shown + " "@ + decimal(name_count(recs, k))
    }
}

/// All the gauge totals, in their fixed order. The `rtmps_conns` total counts
/// the `rtmp_conns` records.
pub open spec fn gauge_sections(recs: Seq<(Seq<char>, Seq<char>)>) -> Seq<char> {
    gauge_section(recs, "paths"@, "paths"@) + gauge_section(recs, "rtsp_conns"@, "rtsp_conns"@)
        + gauge_section(recs, "rtsp_sessions"@, "rtsp_sessions"@) + gauge_section(
        recs,
        "webrtc_sessions"@,
        "webrtc_sessions"@,
    ) + gauge_section(recs, "hls_muxers"@, "hls_muxers"@) + gauge_section(
        recs,
        "rtsps_conns"@,
        "rtsps_conns"@,
    ) + gauge_section(recs, "rtmp_conns"@, "rtmp_conns"@) + gauge_section(
        recs,
        "rtmp_conns"@,
        "rtmps_conns"@,
    ) + gauge_section(recs, "srt_conns"@, "srt_conns"@)
}

/// A counter family for each name in `ks` that is not totalled: its TYPE
/// line, then its sample lines.
pub open spec fn counter_sections(recs: Seq<(Seq<char>, Seq<char>)>, ks: Seq<Seq<char>>) -> Seq<char>
    decreases ks.len(),
{
    if ks.len() == 0 {
        seq![]
    } else {
        counter_sections(recs, ks.drop_last()) + if is_totalled(ks.last()) {
            seq![]
        } else {
            "\n# TYPE "@ + ks.last() + " counter"@ + name_lines(recs, ks.last())
        }
    }
}

/// The exposition written for a MediaMTX listing.
pub open spec fn annotation(listing: Seq<char>) -> Seq<char> {
    let recs = records(lines(listing));
    "# HELP paths The number of distinct paths"@ + gauge_sections(recs) + counter_sections(
        recs,
        names_in_order(recs),
    ) + "\n# EOF"@
}

/// The view of a sequence of exec records.
pub open spec fn recs_view(v: Seq<(Vec<char>, Vec<char>)>) -> Seq<(Seq<char>, Seq<char>)> {
    v.map_values(|r: (Vec<char>, Vec<char>)| (r.0@, r.1@))
}

fn collect_records(ls: &Vec<Vec<char>>) -> (r: Vec<(Vec<char>, Vec<char>)>)
    ensures
        recs_view(r@) == records(texts(ls@)),
{
    let mut r: Vec<(Vec<char>, Vec<char>)> = Vec::new();
    let mut i: usize = 0;
    while i < ls.len()
        invariant
            i <= ls.len(),
            recs_view(r@) == records(texts(ls@).take(i as int)),
        decreases ls.len() - i,
    {
        assert(texts(ls@).take(i + 1).drop_last() =~= texts(ls@).take(i as int));
        let line = &ls[i];
        if !blank(line) {
            let name = first_token_of(line);
            let rest = split_last_exec(line, &name);
            let ghost before = recs_view(r@);
            r.push((name, rest));
            assert(recs_view(r@) =~= before.push(record_of(line@)));
        }
        i = i + 1;
    }
    assert(texts(ls@).take(ls.len() as int) =~= texts(ls@));
    r
}

fn contains_name(ks: &Vec<Vec<char>>, k: &Vec<char>) -> (b: bool)
    ensures
        b == texts(ks@).contains(k@),
{
    let mut i: usize = 0;
    while i < ks.len()
        invariant
            i <= ks.len(),
            forall|j: int| 0 <= j < i ==> texts(ks@)[j] != k@,
        decreases ks.len() - i,
    {
        if chars_eq(&ks[i], k) {
            assert(texts(ks@)[i as int] == k@);
            return true;
        }
        i = i + 1;
    }
    false
}

fn distinct_names(recs: &Vec<(Vec<char>, Vec<char>)>) -> (ks: Vec<Vec<char>>)
    ensures
        texts(ks@) == names_in_order(recs_view(recs@)),
{
    let mut ks: Vec<Vec<char>> = Vec::new();
    let mut i: usize = 0;
    while i < recs.len()
        invariant
            i <= recs.len(),
            texts(ks@) == names_in_order(recs_view(recs@).take(i as int)),
        decreases recs.len() - i,
    {
        assert(recs_view(recs@).take(i + 1).drop_last() =~= recs_view(recs@).take(i as int));
        if !contains_name(&ks, &recs[i].0) {
            let ghost before = texts(ks@);
            ks.push(copy_chars(&recs[i].0));
            assert(texts(ks@) =~= before.push(recs_view(recs@)[i as int].0));
        }
        i = i + 1;
    }
    assert(recs_view(recs@).take(recs.len() as int) =~= recs_view(recs@));
    ks
}

fn count_name(recs: &Vec<(Vec<char>, Vec<char>)>, k: &Vec<char>) -> (n: usize)
    ensures
        n == name_count(recs_view(recs@), k@),
{
    let mut n: usize = 0;
    let mut i: usize = 0;
    while i < recs.len()
        invariant
            i <= recs.len(),
            n == name_count(recs_view(recs@).take(i as int), k@),
            n <= i,
        decreases recs.len() - i,
    {
        assert(recs_view(recs@).take(i + 1).drop_last() =~= recs_view(recs@).take(i as int));
        if chars_eq(&recs[i].0, k) {
            n = n + 1;
        }
        i = i + 1;
    }
    assert(recs_view(recs@).take(recs.len() as int) =~= recs_view(recs@));
    n
}

fn push_gauge(out: &mut Vec<char>, recs: &Vec<(Vec<char>, Vec<char>)>, k: &str, shown: &str)
    ensures
        final(out)@ == old(out)@ + gauge_section(recs_view(recs@), k@, shown@),
{
    let key = chars_of(k);
    let n = count_name(recs, &key);
    if n > 0 {
        push_str(out, "\n# TYPE ");
        push_str(out, shown);
        push_str(out, " gauge");
        push_str(out, "\n");
        push_str(out, shown);
        push_str(out, " ");
        push_decimal(out, n);
        assert(out@ =~= old(out)@ + gauge_section(recs_view(recs@), k@, shown@));
    } else {
        assert(out@ =~= old(out)@ + gauge_section(recs_view(recs@), k@, shown@));
    }
}

fn push_name_lines(out: &mut Vec<char>, recs: &Vec<(Vec<char>, Vec<char>)>, k: &Vec<char>)
    ensures
        final(out)@ == old(out)@ + name_lines(recs_view(recs@), k@),
{
    let mut i: usize = 0;
    while i < recs.len()
        invariant
            i <= recs.len(),
            out@ == old(out)@ + name_lines(recs_view(recs@).take(i as int), k@),
        decreases recs.len() - i,
    {
        assert(recs_view(recs@).take(i + 1).drop_last() =~= recs_view(recs@).take(i as int));
        let ghost before = out@;
        if chars_eq(&recs[i].0, k) {
            push_str(out, "\n");
            push_chars(out, k);
            push_chars(out, &recs[i].1);
        }
        assert(out@ =~= old(out)@ + name_lines(recs_view(recs@).take(i + 1), k@));
        i = i + 1;
    }
    assert(recs_view(recs@).take(recs.len() as int) =~= recs_view(recs@));
}

fn totalled(k: &Vec<char>) -> (b: bool)
    ensures
        b == is_totalled(k@),
{
    chars_eq_str(k, "paths") || chars_eq_str(k, "rtsp_conns") || chars_eq_str(k, "rtsp_sessions")
        || chars_eq_str(k, "webrtc_sessions") || chars_eq_str(k, "hls_muxers")
}

fn push_counters(out: &mut Vec<char>, recs: &Vec<(Vec<char>, Vec<char>)>, ks: &Vec<Vec<char>>)
    ensures
        final(out)@ == old(out)@ + counter_sections(recs_view(recs@), texts(ks@)),
{
    let mut i: usize = 0;
    while i < ks.len()
        invariant
            i <= ks.len(),
            out@ == old(out)@ + counter_sections(recs_view(recs@), texts(ks@).take(i as int)),
        decreases ks.len() - i,
    {
        assert(texts(ks@).take(i + 1).drop_last() =~= texts(ks@).take(i as int));
        let k = &ks[i];
        if !totalled(k) {
            push_str(out, "\n# TYPE ");
            push_chars(out, k);
            push_str(out, " counter");
            push_name_lines(out, recs, k);
        }
        assert(out@ =~= old(out)@ + counter_sections(recs_view(recs@), texts(ks@).take(i + 1)));
        i = i + 1;
    }
    assert(texts(ks@).take(ks.len() as int) =~= texts(ks@));
}

/// Annotates a MediaMTX metrics listing so that it reads as a Prometheus
/// exposition: a HELP line, gauge totals for the connection and session
/// counters, a counter family per metric name, and a closing `# EOF`.
pub fn annotate_mediamtx_metrics(file_bytes: &str) -> (r: String)
    ensures
        r@ == annotation(file_bytes@),
{
    let input = chars_of(file_bytes);
    let ls = split_lines(&input);
    let recs = collect_records(&ls);
    let ks = distinct_names(&recs);
    let mut out: Vec<char> = Vec::new();
    push_str(&mut out, "# HELP paths The number of distinct paths");
    push_gauge(&mut out, &recs, "paths", "paths");
    push_gauge(&mut out, &recs, "rtsp_conns", "rtsp_conns");
    push_gauge(&mut out, &recs, "rtsp_sessions", "rtsp_sessions");
    push_gauge(&mut out, &recs, "webrtc_sessions", "webrtc_sessions");
    push_gauge(&mut out, &recs, "hls_muxers", "hls_muxers");
    push_gauge(&mut out, &recs, "rtsps_conns", "rtsps_conns");
    push_gauge(&mut out, &recs, "rtmp_conns", "rtmp_conns");
    push_gauge(&mut out, &recs, "rtmp_conns", "rtmps_conns");
    push_gauge(&mut out, &recs, "srt_conns", "srt_conns");
    push_counters(&mut out, &recs, &ks);
    push_str(&mut out, "\n# EOF");
    assert(out@ =~= annotation(file_bytes@));
    string_of(&out)
}

/// Law: a newline at the end of a listing changes nothing, unless the
/// listing ends with a carriage return (which the newline would strip).
pub proof fn lemma_annotation_trailing_newline(listing: Seq<char>)
    requires
        listing.len() == 0 || listing.last() != '\r',
    ensures
        annotation(listing.push('\n')) == annotation(listing),
{
    crate::text::lemma_lines_newline(listing);
    let ls = lines(listing);
    if crate::text::line_scan(listing).1.len() == 0 {
        let empty: Seq<char> = seq![];
        assert(ls.push(empty).drop_last() =~= ls);
        assert(is_blank(empty));
        assert(records(ls.push(empty)) == records(ls));
    }
}

/// Law: blank lines add nothing to the annotation.
pub proof fn lemma_annotation_ignores_blank_lines(ls: Seq<Seq<char>>, blank_line: Seq<char>)
    requires
        is_blank(blank_line),
    ensures
        records(ls.push(blank_line)) == records(ls),
{
    assert(ls.push(blank_line).drop_last() =~= ls);
}

/// Law: an annotation starts with the HELP line of `paths` and ends with `# EOF`.
pub proof fn lemma_annotation_frame(listing: Seq<char>)
    ensures
        annotation(listing).take("# HELP paths The number of distinct paths"@.len() as int)
            == "# HELP paths The number of distinct paths"@,
        annotation(listing).skip(annotation(listing).len() - "\n# EOF"@.len())
            == "\n# EOF"@,
{
    let recs = records(lines(listing));
    let head = "# HELP paths The number of distinct paths"@;
    let body = gauge_sections(recs) + counter_sections(recs, names_in_order(recs));
    let tail = "\n# EOF"@;
    assert(annotation(listing) == head + gauge_sections(recs) + counter_sections(recs, names_in_order(recs)) + tail);
    assert((head + gauge_sections(recs) + counter_sections(recs, names_in_order(recs)) + tail) =~= head + (body + tail));
    assert((head + (body + tail)).take(head.len() as int) =~= head);
    assert((head + body + tail) =~= (head + body) + tail);
    assert(((head + body) + tail).skip((head + body).len() as int) =~= tail);
}

/// Law: the total written for each gauge name is the number of non-blank
/// lines of the listing that carry that name.
pub proof fn lemma_gauge_total_counts_lines(recs: Seq<(Seq<char>, Seq<char>)>, k: Seq<char>, shown: Seq<char>)
    requires
        name_count(recs, k) > 0,
    ensures
        gauge_section(recs, k, shown) == "\n# TYPE "@ + shown + " gauge"@ + "\n"@ + shown + " "@
            + decimal(name_count(recs, k)),
        name_count(recs, k) == recs.filter(|r: (Seq<char>, Seq<char>)| r.0 == k).len(),
{
    lemma_name_count_filter(recs, k);
}

proof fn lemma_name_count_filter(recs: Seq<(Seq<char>, Seq<char>)>, k: Seq<char>)
    ensures
        name_count(recs, k) == recs.filter(|r: (Seq<char>, Seq<char>)| r.0 == k).len(),
    decreases recs.len(),
{
    reveal(Seq::filter);
    if recs.len() > 0 {
        lemma_name_count_filter(recs.drop_last(), k);
    }
}


proof fn lemma_records_append(x: Seq<Seq<char>>, y: Seq<Seq<char>>)
    ensures
        records(x + y) == records(x) + records(y),
    decreases y.len(),
{
    if y.len() == 0 {
        assert(x + y =~= x);
        assert(records(x) + records(y) =~= records(x));
    } else {
        lemma_records_append(x, y.drop_last());
        assert((x + y).drop_last() =~= x + y.drop_last());
        assert((x + y).last() == y.last());
        assert((records(x) + records(y.drop_last())).push(record_of(y.last())) =~= records(x) + records(
            y.drop_last(),
        ).push(record_of(y.last())));
    }
}

/// Law: a line of whitespace, put into a listing at the start of any line,
/// changes nothing.
pub proof fn lemma_annotation_ignores_inserted_blank_line(a: Seq<char>, w: Seq<char>, b: Seq<char>)
    requires
        a.len() == 0 || a.last() == '\n',
        is_blank(w),
        !w.contains('\n'),
    ensures
        annotation(a + (w + seq!['\n']) + b) == annotation(a + b),
{
    let wl = w + seq!['\n'];
    crate::text::lemma_line_scan_append(a, b);
    crate::text::lemma_line_scan_append(a, wl);
    assert((a + wl).last() == '\n');
    crate::text::lemma_line_scan_append(a + wl, b);
    // The inserted line reads as one blank line.
    assert(line_scan(w) == (Seq::<Seq<char>>::empty(), w)) by {
        lemma_line_scan_plain(w);
    }
    assert(wl.drop_last() =~= w);
    let l = strip_cr(w);
    assert(lines(wl) =~= seq![l]);
    assert(is_blank(l)) by {
        assert forall|i: int| 0 <= i < l.len() implies is_whitespace(#[trigger] l[i]) by {
            assert(l[i] == w[i]);
        }
    }
    lemma_records_append(lines(a) + lines(wl), lines(b));
    lemma_records_append(lines(a), lines(wl));
    lemma_records_append(lines(a), lines(b));
    let one = lines(wl);
    assert(one.len() == 1 && one.last() == l);
    assert(one.drop_last() =~= Seq::<Seq<char>>::empty());
    assert(records(one.drop_last()) =~= Seq::<(Seq<char>, Seq<char>)>::empty());
    assert(records(one) =~= Seq::<(Seq<char>, Seq<char>)>::empty());
    assert(records(lines(a)) + records(lines(wl)) =~= records(lines(a)));
}

proof fn lemma_line_scan_plain(w: Seq<char>)
    requires
        !w.contains('\n'),
    ensures
        line_scan(w) == (Seq::<Seq<char>>::empty(), w),
    decreases w.len(),
{
    if w.len() > 0 {
        assert(!w.drop_last().contains('\n')) by {
            if w.drop_last().contains('\n') {
                let k = choose|k: int| 0 <= k < w.drop_last().len() && w.drop_last()[k] == '\n';
                assert(w[k] == '\n');
            }
        }
        lemma_line_scan_plain(w.drop_last());
        assert(w.last() != '\n') by {
            assert(w[w.len() - 1] == w.last());
        }
        assert(w.drop_last().push(w.last()) =~= w);
    } else {
        assert(w =~= Seq::<char>::empty());
    }
}

/// Law: ending a line with `\r\n` in place of `\n` changes nothing, when the
/// line does not already end with a carriage return.
pub proof fn lemma_annotation_ignores_crlf(a: Seq<char>, b: Seq<char>)
    requires
        a.len() == 0 || a.last() != '\r',
    ensures
        annotation(a + seq!['\r', '\n'] + b) == annotation(a + seq!['\n'] + b),
{
    crate::text::lemma_lines_crlf(a);
    let crlf = a + seq!['\r', '\n'];
    let lf = a + seq!['\n'];
    assert(crlf.last() == '\n');
    assert(lf.last() == '\n');
    crate::text::lemma_line_scan_append(crlf, b);
    crate::text::lemma_line_scan_append(lf, b);
}


/// An edit of a listing that leaves its annotation as it was.
pub enum ListingEdit {
    /// A whitespace line `w` (with its newline) put in at position `at`,
    /// the start of a line.
    BlankLine(int, Seq<char>),
    /// The newline at position `at` written as `\r\n`; the character before
    /// it is no carriage return.
    CrLf(int),
    /// A newline and a whitespace line `w` put after the end of the listing,
    /// which does not end with a carriage return.
    BlankTail(Seq<char>),
}

/// Whether the edit can be made to `s`.
pub open spec fn edit_fits(s: Seq<char>, e: ListingEdit) -> bool {
    match e {
        ListingEdit::BlankLine(at, w) => 0 <= at <= s.len() && (at == 0 || s[at - 1] == '\n')
            && is_blank(w) && !w.contains('\n'),
        ListingEdit::CrLf(at) => 0 <= at < s.len() && s[at] == '\n' && (at == 0 || s[at - 1] != '\r'),
        ListingEdit::BlankTail(w) => (s.len() == 0 || s.last() != '\r') && is_blank(w) && !w.contains(
            '\n',
        ),
    }
}

/// `s` after the edit.
pub open spec fn apply_edit(s: Seq<char>, e: ListingEdit) -> Seq<char> {
    match e {
        ListingEdit::BlankLine(at, w) => s.take(at) + (w + seq!['\n']) + s.skip(at),
        ListingEdit::CrLf(at) => s.take(at) + seq!['\r', '\n'] + s.skip(at + 1),
        ListingEdit::BlankTail(w) => s + seq!['\n'] + w,
    }
}

/// Whether the edits can be made to `s` one after the other.
pub open spec fn edits_fit(s: Seq<char>, es: Seq<ListingEdit>) -> bool
    decreases es.len(),
{
    es.len() == 0 || (edit_fits(s, es[0]) && edits_fit(apply_edit(s, es[0]), es.drop_first()))
}

/// `s` after the edits, one after the other.
pub open spec fn apply_edits(s: Seq<char>, es: Seq<ListingEdit>) -> Seq<char>
    decreases es.len(),
{
    if es.len() == 0 {
        s
    } else {
        apply_edits(apply_edit(s, es[0]), es.drop_first())
    }
}

proof fn lemma_records_blank_tail(x: Seq<Seq<char>>, y: Seq<Seq<char>>)
    requires
        forall|i: int| 0 <= i < y.len() ==> is_blank(#[trigger] y[i]),
    ensures
        records(x + y) == records(x),
    decreases y.len(),
{
    if y.len() > 0 {
        lemma_records_blank_tail(x, y.drop_last());
        assert((x + y).drop_last() =~= x + y.drop_last());
        assert((x + y).last() == y[y.len() - 1]);
    } else {
        assert(x + y =~= x);
    }
}

/// One edit leaves the annotation as it was.
proof fn lemma_edit_keeps_annotation(s: Seq<char>, e: ListingEdit)
    requires
        edit_fits(s, e),
    ensures
        annotation(apply_edit(s, e)) == annotation(s),
{
    match e {
        ListingEdit::BlankLine(at, w) => {
            let a = s.take(at);
            let b = s.skip(at);
            assert(a + b =~= s);
            if at > 0 {
                assert(a.last() == s[at - 1]);
            }
            lemma_annotation_ignores_inserted_blank_line(a, w, b);
        },
        ListingEdit::CrLf(at) => {
            let a = s.take(at);
            let b = s.skip(at + 1);
            assert(a + seq!['\n'] + b =~= s);
            if at > 0 {
                assert(a.last() == s[at - 1]);
            }
            lemma_annotation_ignores_crlf(a, b);
        },
        ListingEdit::BlankTail(w) => {
            let sn = s + seq!['\n'];
            assert(sn.last() == '\n');
            crate::text::lemma_line_scan_append(sn, w);
            assert(sn =~= s.push('\n'));
            crate::text::lemma_lines_newline(s);
            lemma_line_scan_plain(w);
            let tail: Seq<Seq<char>> = if line_scan(s).1.len() == 0 {
                seq![seq![]]
            } else {
                seq![]
            };
            assert(lines(sn) =~= lines(s) + tail);
            assert(is_blank(Seq::<char>::empty()));
            let lw = lines(w);
            assert(lw.len() == 0 || (lw.len() == 1 && lw[0] == w));
            assert(lines(sn + w) =~= lines(s) + (tail + lw));
            lemma_records_blank_tail(lines(s), tail + lw);
        },
    }
}

/// Law: any number of edits that each put in a whitespace line at the start
/// of a line, or after an unfinished last line, or write a newline as
/// `\r\n` where no carriage return precedes it, leave the annotation as it was.
pub proof fn lemma_annotation_ignores_edits(s: Seq<char>, es: Seq<ListingEdit>)
    requires
        edits_fit(s, es),
    ensures
        annotation(apply_edits(s, es)) == annotation(s),
    decreases es.len(),
{
    if es.len() > 0 {
        lemma_edit_keeps_annotation(s, es[0]);
        lemma_annotation_ignores_edits(apply_edit(s, es[0]), es.drop_first());
    }
}


/// Whether `t` occurs in `out`.
pub open spec fn occurs_in(out: Seq<char>, t: Seq<char>) -> bool {
    exists|i: int| 0 <= i && i + t.len() <= out.len() && #[trigger] out.subrange(i, i + t.len()) == t
}

/// The two lines of a gauge total: its TYPE line and its sample.
pub open spec fn gauge_total_lines(shown: Seq<char>, n: nat) -> Seq<char> {
    "\n# TYPE "@ + shown + " gauge"@ + "\n"@ + shown + " "@ + decimal(n)
}

proof fn lemma_occurs_between(p: Seq<char>, m: Seq<char>, q: Seq<char>)
    ensures
        occurs_in(p + m + q, m),
{
    let x = p + m + q;
    assert(x.subrange(p.len() as int, (p.len() + m.len()) as int) =~= m);
}

proof fn lemma_occurs_shift(x: Seq<char>, y: Seq<char>, p: Seq<char>, m: Seq<char>, q: Seq<char>)
    requires
        x == p + m + q,
        y =~= x,
    ensures
        occurs_in(y, m),
{
    lemma_occurs_between(p, m, q);
}

#[verifier::rlimit(40)]
proof fn lemma_nine_sections(
    h: Seq<char>,
    g1: Seq<char>,
    g2: Seq<char>,
    g3: Seq<char>,
    g4: Seq<char>,
    g5: Seq<char>,
    g6: Seq<char>,
    g7: Seq<char>,
    g8: Seq<char>,
    g9: Seq<char>,
    r: Seq<char>,
)
    ensures
        ({
            let out = h + (g1 + g2 + g3 + g4 + g5 + g6 + g7 + g8 + g9) + r;
            &&& occurs_in(out, g1)
            &&& occurs_in(out, g2)
            &&& occurs_in(out, g3)
            &&& occurs_in(out, g4)
            &&& occurs_in(out, g5)
            &&& occurs_in(out, g6)
            &&& occurs_in(out, g7)
            &&& occurs_in(out, g8)
            &&& occurs_in(out, g9)
        }),
{
    let out = h + (g1 + g2 + g3 + g4 + g5 + g6 + g7 + g8 + g9) + r;
    lemma_occurs_shift(h + g1 + (g2 + g3 + g4 + g5 + g6 + g7 + g8 + g9 + r), out, h, g1, g2 + g3 + g4 + g5 + g6 + g7 + g8 + g9 + r);
    lemma_occurs_shift((h + g1) + g2 + (g3 + g4 + g5 + g6 + g7 + g8 + g9 + r), out, h + g1, g2, g3 + g4 + g5 + g6 + g7 + g8 + g9 + r);
    lemma_occurs_shift((h + g1 + g2) + g3 + (g4 + g5 + g6 + g7 + g8 + g9 + r), out, h + g1 + g2, g3, g4 + g5 + g6 + g7 + g8 + g9 + r);
    lemma_occurs_shift((h + g1 + g2 + g3) + g4 + (g5 + g6 + g7 + g8 + g9 + r), out, h + g1 + g2 + g3, g4, g5 + g6 + g7 + g8 + g9 + r);
    lemma_occurs_shift((h + g1 + g2 + g3 + g4) + g5 + (g6 + g7 + g8 + g9 + r), out, h + g1 + g2 + g3 + g4, g5, g6 + g7 + g8 + g9 + r);
    lemma_occurs_shift((h + g1 + g2 + g3 + g4 + g5) + g6 + (g7 + g8 + g9 + r), out, h + g1 + g2 + g3 + g4 + g5, g6, g7 + g8 + g9 + r);
    lemma_occurs_shift((h + g1 + g2 + g3 + g4 + g5 + g6) + g7 + (g8 + g9 + r), out, h + g1 + g2 + g3 + g4 + g5 + g6, g7, g8 + g9 + r);
    lemma_occurs_shift((h + g1 + g2 + g3 + g4 + g5 + g6 + g7) + g8 + (g9 + r), out, h + g1 + g2 + g3 + g4 + g5 + g6 + g7, g8, g9 + r);
    lemma_occurs_shift((h + g1 + g2 + g3 + g4 + g5 + g6 + g7 + g8) + g9 + r, out, h + g1 + g2 + g3 + g4 + g5 + g6 + g7 + g8, g9, r);
}

/// Law: for each total that the annotation gives as a gauge, when the
/// listing has lines of the counted name, the annotation holds the gauge's
/// TYPE line followed by its total, the number of those lines. `rtmps_conns`
/// counts the `rtmp_conns` lines; every other gauge counts its own name.
pub proof fn lemma_annotation_has_gauge_totals(listing: Seq<char>)
    ensures
        ({
            let recs = records(lines(listing));
            let out = annotation(listing);
            &&& name_count(recs, "paths"@) > 0 ==> occurs_in(out, gauge_total_lines("paths"@, name_count(recs, "paths"@)))
            &&& name_count(recs, "rtsp_conns"@) > 0 ==> occurs_in(out, gauge_total_lines("rtsp_conns"@, name_count(recs, "rtsp_conns"@)))
            &&& name_count(recs, "rtsp_sessions"@) > 0 ==> occurs_in(out, gauge_total_lines("rtsp_sessions"@, name_count(recs, "rtsp_sessions"@)))
            &&& name_count(recs, "webrtc_sessions"@) > 0 ==> occurs_in(out, gauge_total_lines("webrtc_sessions"@, name_count(recs, "webrtc_sessions"@)))
            &&& name_count(recs, "hls_muxers"@) > 0 ==> occurs_in(out, gauge_total_lines("hls_muxers"@, name_count(recs, "hls_muxers"@)))
            &&& name_count(recs, "rtsps_conns"@) > 0 ==> occurs_in(out, gauge_total_lines("rtsps_conns"@, name_count(recs, "rtsps_conns"@)))
            &&& name_count(recs, "rtmp_conns"@) > 0 ==> occurs_in(out, gauge_total_lines("rtmp_conns"@, name_count(recs, "rtmp_conns"@)))
            &&& name_count(recs, "rtmp_conns"@) > 0 ==> occurs_in(out, gauge_total_lines("rtmps_conns"@, name_count(recs, "rtmp_conns"@)))
            &&& name_count(recs, "srt_conns"@) > 0 ==> occurs_in(out, gauge_total_lines("srt_conns"@, name_count(recs, "srt_conns"@)))
        }),
{
    let recs = records(lines(listing));
    let h = "# HELP paths The number of distinct paths"@;
    let c = counter_sections(recs, names_in_order(recs));
    let t = "\n# EOF"@;
    lemma_nine_sections(
        h,
        gauge_section(recs, "paths"@, "paths"@),
        gauge_section(recs, "rtsp_conns"@, "rtsp_conns"@),
        gauge_section(recs, "rtsp_sessions"@, "rtsp_sessions"@),
        gauge_section(recs, "webrtc_sessions"@, "webrtc_sessions"@),
        gauge_section(recs, "hls_muxers"@, "hls_muxers"@),
        gauge_section(recs, "rtsps_conns"@, "rtsps_conns"@),
        gauge_section(recs, "rtmp_conns"@, "rtmp_conns"@),
        gauge_section(recs, "rtmp_conns"@, "rtmps_conns"@),
        gauge_section(recs, "srt_conns"@, "srt_conns"@),
        c + t,
    );
    assert(annotation(listing) =~= h + gauge_sections(recs) + (c + t));
}

} // verus!
