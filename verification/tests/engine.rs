use licensor::render::render;
use licensor::scan::scan;

fn bytes(s: &str) -> Vec<u8> {
    s.as_bytes().to_vec()
}

fn reply(s: &str) -> Option<Vec<u8>> {
    Some(bytes(s))
}

#[test]
fn render_no_placeholders_returns_body() {
    let body = bytes("MIT License\nCopyright, all rights reserved.\n");
    let responses: Vec<Option<Vec<u8>>> = Vec::new();
    assert_eq!(scan(&body).len(), 0);
    let out = render(&body, &responses);
    assert_eq!(out, body);
}

#[test]
fn render_scenario_copyright() {
    let body = bytes("Copyright [year] [holder]. All rights reserved.");
    let responses = vec![reply("2024"), reply("")];
    let out = render(&body, &responses);
    assert_eq!(out, bytes("Copyright 2024 [holder]. All rights reserved."));
}

#[test]
fn render_all_empty_responses_keep_body() {
    let body = bytes("a [x] b [y] c");
    let responses = vec![reply("   "), None];
    let out = render(&body, &responses);
    assert_eq!(out, body);
}

#[test]
fn render_same_literal_twice_resolved_independently() {
    let body = bytes("[year]-[year]");
    let responses = vec![reply("1999"), reply("2024")];
    let out = render(&body, &responses);
    assert_eq!(out, bytes("1999-2024"));
}

#[test]
fn render_replacement_with_brackets_inserted_verbatim() {
    let body = bytes("[a] tail [b]");
    assert_eq!(scan(&body).len(), 2);
    let responses = vec![reply("[z]"), reply("")];
    let out = render(&body, &responses);
    assert_eq!(out, bytes("[z] tail [b]"));
}

#[test]
fn render_trims_response_whitespace() {
    let body = bytes("year: [year]");
    let responses = vec![reply(" 2024 \n")];
    let out = render(&body, &responses);
    assert_eq!(out, bytes("year: 2024"));
}

#[test]
fn render_failed_read_keeps_literal() {
    let body = bytes("[one] [two]");
    let responses = vec![None, reply("2")];
    let out = render(&body, &responses);
    assert_eq!(out, bytes("[one] 2"));
}

#[test]
fn scan_finds_adjacent_occurrences_in_order() {
    let body = bytes("[a][b]");
    let occs = scan(&body);
    assert_eq!(occs.len(), 2);
    assert_eq!((occs[0].start, occs[0].end), (0, 3));
    assert_eq!((occs[1].start, occs[1].end), (3, 6));
}

#[test]
fn scan_takes_shortest_span() {
    let occs = scan(&bytes("[a[b]"));
    assert_eq!(occs.len(), 1);
    assert_eq!((occs[0].start, occs[0].end), (0, 5));

    let occs = scan(&bytes("[]]"));
    assert_eq!(occs.len(), 1);
    assert_eq!((occs[0].start, occs[0].end), (0, 3));
}

#[test]
fn scan_needs_nonempty_interior() {
    assert_eq!(scan(&bytes("[]")).len(), 0);
    assert_eq!(scan(&bytes("[")).len(), 0);
    assert_eq!(scan(&bytes("]")).len(), 0);
}

#[test]
fn scan_never_crosses_a_newline() {
    assert_eq!(scan(&bytes("[a\nb]")).len(), 0);
    let occs = scan(&bytes("[a\nb][c]"));
    assert_eq!(occs.len(), 1);
    assert_eq!((occs[0].start, occs[0].end), (5, 8));
}

#[test]
fn render_replacement_equal_to_later_literal_keeps_positions() {
    let body = bytes("[a]-[b]");
    let responses = vec![reply("[b]"), reply("Z")];
    let out = render(&body, &responses);
    assert_eq!(out, bytes("[b]-Z"));
}

#[test]
fn scan_positions_are_increasing() {
    let body = bytes("x [a] y [b] z [c]");
    let occs = scan(&body);
    assert_eq!(occs.len(), 3);
    for w in occs.windows(2) {
        assert!(w[0].end <= w[1].start);
    }
}
