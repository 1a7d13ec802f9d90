use openmetrics_parser::mediamtx::annotate_mediamtx_metrics;

const HEADER: &str = "# HELP paths The number of distinct paths";

#[test]
fn annotate_counts_paths() {
    let out = annotate_mediamtx_metrics("paths{name=\"a\"} 1\npaths{name=\"b\"} 1\n");
    assert_eq!(out, format!("{}\n# TYPE paths gauge\npaths 2\n# EOF", HEADER));
}

#[test]
fn annotate_empty_listing() {
    assert_eq!(annotate_mediamtx_metrics(""), format!("{}\n# EOF", HEADER));
    assert_eq!(annotate_mediamtx_metrics("\n  \n\t\n"), format!("{}\n# EOF", HEADER));
}

#[test]
fn annotate_counter_families_in_order_of_appearance() {
    let listing = "b_bytes{x=\"1\"} 5\na_bytes 7\nb_bytes{x=\"2\"} 6\n";
    let out = annotate_mediamtx_metrics(listing);
    assert_eq!(
        out,
        format!(
            "{}\n# TYPE b_bytes counter\nb_bytes{{x=\"1\"}} 5\nb_bytes{{x=\"2\"}} 6\n# TYPE a_bytes counter\na_bytes 7\n# EOF",
            HEADER
        )
    );
}

#[test]
fn annotate_totals_and_their_lines() {
    let listing = "rtsps_conns{id=\"1\"} 1\nrtmp_conns{id=\"2\"} 1\nhls_muxers{name=\"x\"} 1\n";
    let out = annotate_mediamtx_metrics(listing);
    assert_eq!(
        out,
        format!(
            "{}\n# TYPE hls_muxers gauge\nhls_muxers 1\n# TYPE rtsps_conns gauge\nrtsps_conns 1\n# TYPE rtmp_conns gauge\nrtmp_conns 1\n# TYPE rtmps_conns gauge\nrtmps_conns 1\n# TYPE rtsps_conns counter\nrtsps_conns{{id=\"1\"}} 1\n# TYPE rtmp_conns counter\nrtmp_conns{{id=\"2\"}} 1\n# EOF",
            HEADER
        )
    );
}

#[test]
fn annotate_keeps_what_follows_the_last_match_of_the_name() {
    let out = annotate_mediamtx_metrics("srt{name=\"srt\"} 3\n");
    assert_eq!(out, format!("{}\n# TYPE srt counter\nsrt\"}} 3\n# EOF", HEADER));
}

#[test]
fn annotate_crlf_and_leading_space() {
    let out = annotate_mediamtx_metrics("x 1\r\n y 2\r\n");
    assert_eq!(out, format!("{}\n# TYPE x counter\nx 1\n# TYPE  counter\n\n# EOF", HEADER));
}

#[test]
fn annotate_many_paths_counts_in_decimal() {
    let mut listing = String::new();
    for i in 0..123 {
        listing.push_str(&format!("paths{{name=\"p{}\"}} 1\n", i));
    }
    let out = annotate_mediamtx_metrics(&listing);
    assert_eq!(out, format!("{}\n# TYPE paths gauge\npaths 123\n# EOF", HEADER));
}

#[test]
fn annotate_trailing_newline_changes_nothing() {
    let listing = "paths{name=\"a\"} 1\nrtmp_conns{id=\"1\"} 1";
    assert_eq!(annotate_mediamtx_metrics(listing), annotate_mediamtx_metrics(&format!("{}\n", listing)));
    assert_eq!(annotate_mediamtx_metrics("x 1\n"), annotate_mediamtx_metrics("x 1\n\n"));
    assert_ne!(annotate_mediamtx_metrics("x 1\r"), annotate_mediamtx_metrics("x 1\r\n"));
}

#[test]
fn annotate_frame() {
    for listing in ["", "a 1\n", "paths 1\nweird line"] {
        let out = annotate_mediamtx_metrics(listing);
        assert!(out.starts_with(HEADER));
        assert!(out.ends_with("\n# EOF"));
    }
}

#[test]
fn inserted_blank_lines_and_crlf_change_nothing() {
    let plain = "paths{name=\"a\"} 1\nrtsp_conns{id=\"1\"} 1\nbytes{id=\"1\"} 5\n";
    let blanks = "paths{name=\"a\"} 1\n  \t\nrtsp_conns{id=\"1\"} 1\n\nbytes{id=\"1\"} 5\n";
    let crlf = "paths{name=\"a\"} 1\r\nrtsp_conns{id=\"1\"} 1\r\nbytes{id=\"1\"} 5\r\n";
    let a = annotate_mediamtx_metrics(plain);
    assert_eq!(a, annotate_mediamtx_metrics(blanks));
    assert_eq!(a, annotate_mediamtx_metrics(crlf));
}

#[test]
fn several_edits_together_change_nothing() {
    let plain = "paths{name=\"a\"} 1\nbytes{id=\"1\"} 5";
    let edited = " \npaths{name=\"a\"} 1\r\n\t\n\nbytes{id=\"1\"} 5\n  ";
    assert_eq!(annotate_mediamtx_metrics(plain), annotate_mediamtx_metrics(edited));
}
