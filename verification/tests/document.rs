use geometry_core::marker::{
    marker_word, LEFT_MARKER_ID, MARKER_SIDE_MM, QUIET_ZONE_CELLS, RIGHT_MARKER_ID, RULER_LENGTH_MM,
};
use geometry_core::pdf::{build_pdf, draw_page, generate_pdf, layout, PAGE_H_UM, PAGE_W_UM};

#[test]
fn output_is_deterministic() {
    assert_eq!(generate_pdf(), generate_pdf(), "PDF must be byte-for-byte reproducible");
}

#[test]
fn pdf_has_two_pages_and_valid_framing() {
    let bytes = generate_pdf();
    let text = String::from_utf8_lossy(&bytes);
    assert!(bytes.starts_with(b"%PDF-1.4\n"));
    assert!(text.ends_with("%%EOF\n"));
    assert!(text.contains("/Count 2"));
    assert_eq!(text.matches("/Type /Page ").count(), 2);
    // A4 media box in points.
    assert!(text.contains("[0 0 595.28 841.89]"));
}

#[test]
fn xref_offsets_point_at_their_objects() {
    // Byte offsets, so work on bytes: the binary header line is not UTF-8.
    let bytes = generate_pdf();
    let xref_at = {
        let needle = b"startxref\n";
        let at = bytes
            .windows(needle.len())
            .rposition(|w| w == needle)
            .expect("startxref keyword");
        let tail = std::str::from_utf8(&bytes[at + needle.len()..]).unwrap();
        tail.split_whitespace().next().unwrap().parse::<usize>().unwrap()
    };
    assert!(bytes[xref_at..].starts_with(b"xref\n"));
    // The xref section itself is pure ASCII. Skip "xref", the subsection
    // header, and the object-0 free entry.
    let xref = std::str::from_utf8(&bytes[xref_at..]).unwrap();
    for (i, line) in xref.lines().skip(3).enumerate() {
        if line.starts_with("trailer") {
            break;
        }
        let off: usize = line[..10].parse().expect("xref entry offset");
        let expected = format!("{} 0 obj", i + 1);
        assert!(
            bytes[off..].starts_with(expected.as_bytes()),
            "xref entry {} does not point at {expected:?}",
            i + 1,
        );
    }
}

#[test]
fn table_of_any_streams_is_right() {
    let pages = ["", "0 g\n", "caf\u{e9} startxref\n9\n", "\u{1f600}\n"];
    for n in 0..=pages.len() {
        let streams: Vec<String> = pages[..n].iter().map(|s| s.to_string()).collect();
        let bytes = build_pdf(&streams);
        let mark = b"startxref\n";
        let at = bytes.windows(mark.len()).rposition(|w| w == mark).unwrap() + mark.len();
        let tail = std::str::from_utf8(&bytes[at..]).unwrap();
        let table: usize = tail.lines().next().unwrap().parse().unwrap();
        let head = format!("xref\n0 {}\n0000000000 65535 f \n", 5 + 2 * n);
        assert!(bytes[table..].starts_with(head.as_bytes()));
        for k in 1..=4 + 2 * n {
            let entry = table + head.len() + 20 * (k - 1);
            let line = std::str::from_utf8(&bytes[entry..entry + 20]).unwrap();
            assert_eq!(&line[10..], " 00000 n \n");
            let begin: usize = line[..10].parse().unwrap();
            assert!(bytes[begin..].starts_with(format!("{k} 0 obj\n").as_bytes()));
        }
    }
}

#[test]
fn both_marker_ids_and_wall_ends_appear() {
    let text = String::from_utf8_lossy(&generate_pdf()).into_owned();
    assert!(text.contains("ID 0"));
    assert!(text.contains("ID 1"));
    assert!(text.contains("LEFT end of the wall area"));
    assert!(text.contains("RIGHT end of the wall area"));
    assert!(text.contains("PRINT AT 100%"));
}

#[test]
fn quiet_zone_is_at_least_one_cell_and_marker_fits_page() {
    let l = layout();
    let mm = |um: u64| um as f64 / 1000.0;
    let (page_w, page_h) = (mm(PAGE_W_UM), mm(PAGE_H_UM));
    let (side, ruler) = (MARKER_SIDE_MM as f64, RULER_LENGTH_MM as f64);
    assert!(mm(l.quiet_um) >= mm(l.cell_um) * QUIET_ZONE_CELLS as f64);
    assert!(mm(l.marker_x_um) - mm(l.quiet_um) >= 0.0, "quiet zone must fit left of marker");
    assert!(
        mm(l.marker_x_um) + side + mm(l.quiet_um) <= page_w,
        "quiet zone must fit right of marker"
    );
    // Ruler labels/caption end above the quiet zone; footer starts below it.
    assert!(mm(l.ruler_top_um) + 10.0 < mm(l.marker_top_um) - mm(l.quiet_um));
    assert!(mm(l.marker_top_um) + side + mm(l.quiet_um) < page_h);
    // The ruler strip fits the page at full nominal length.
    assert!(mm(l.ruler_x_um) >= 0.0 && mm(l.ruler_x_um) + ruler <= page_w);
}

#[test]
fn white_cell_count_matches_dictionary_words() {
    // Each page paints one black square then one white rect per 1-bit.
    let ones_left = marker_word(LEFT_MARKER_ID).unwrap().count_ones();
    let ones_right = marker_word(RIGHT_MARKER_ID).unwrap().count_ones();
    let left = draw_page(1, LEFT_MARKER_ID, "A", "LEFT");
    let right = draw_page(2, RIGHT_MARKER_ID, "B", "RIGHT");
    assert_eq!(left.matches("1.000 g").count() as u32, ones_left);
    assert_eq!(right.matches("1.000 g").count() as u32, ones_right);
}

#[test]
fn document_with_no_pages_has_the_four_shared_objects() {
    let text = String::from_utf8_lossy(&build_pdf(&[])).into_owned();
    assert!(text.contains("/Count 0"));
    assert!(text.contains("4 0 obj"));
    assert!(!text.contains("5 0 obj"));
    assert!(text.contains("/Size 5"));
}

#[test]
fn page_stream_length_is_the_length_of_the_stream() {
    let stream = String::from("1.000 g\n");
    let text = String::from_utf8_lossy(&build_pdf(&[stream])).into_owned();
    assert!(text.contains("/Length 8 "), "{text}");
}
