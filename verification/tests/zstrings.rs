//! Behaviour of the scanner on concrete buffers.

use zstrings::zstrings::ZStrings;

fn offsets_and_texts(zs: &ZStrings, alignment: Option<usize>) -> Vec<(usize, String)> {
    zs.results(alignment)
        .iter()
        .map(|r| (r.offset(), r.string()))
        .collect()
}

#[test]
fn two_runs_split_by_nuls() {
    let buf = b"AB\x00\x00CDEF\x00";
    let zs = ZStrings::new_parallel(buf, 2, 1).unwrap();
    let rs = offsets_and_texts(&zs, None);
    assert_eq!(rs, vec![(0, "AB".to_string()), (4, "CDEF".to_string())]);
}

#[test]
fn lone_nul_yields_no_match() {
    let buf = b"\x00\x00A\x00";
    let zs = ZStrings::new_parallel(buf, 2, 1).unwrap();
    assert_eq!(zs.results(None).len(), 0);
}

#[test]
fn duplicate_across_chunk_boundary_collapses() {
    // "hello\x00" sits exactly at the second window's start, so both
    // adjacent windows detect it at the same absolute offset.
    let mut buf = vec![0u8; 1024];
    buf.extend_from_slice(b"hello\x00");
    let zs = ZStrings::new_parallel(&buf, 4, 2).unwrap();
    assert_eq!(zs.len(), 1);
    assert_eq!(zs.get(1024), Some("hello".to_string()));
    let rs = offsets_and_texts(&zs, None);
    assert_eq!(rs, vec![(1024, "hello".to_string())]);
}

#[test]
fn overlapping_ranges_keep_earlier_offset() {
    // A run straddling the window boundary: the second window reports a
    // suffix of it at a later offset whose byte range overlaps the full
    // match; only the earlier entry survives.
    let mut buf = vec![0u8; 1020];
    buf.extend_from_slice(b"ABCDEFGHIJ\x00");
    buf.extend_from_slice(&[0u8; 9]);
    let zs = ZStrings::new_parallel(&buf, 4, 2).unwrap();
    assert_eq!(zs.len(), 2);
    assert_eq!(zs.get(1020), Some("ABCDEFGHIJ".to_string()));
    assert_eq!(zs.get(1024), Some("EFGHIJ".to_string()));
    let rs = offsets_and_texts(&zs, None);
    assert_eq!(rs, vec![(1020, "ABCDEFGHIJ".to_string())]);
}

#[test]
fn accepted_offsets_independent_of_chunk_count() {
    let mut buf = vec![0u8; 1020];
    buf.extend_from_slice(b"ABCDEFGHIJ\x00");
    buf.extend_from_slice(b"more text here\x00");
    buf.extend_from_slice(&[0u8; 50]);
    buf.extend_from_slice(b"tail\x00");
    let single = offsets_and_texts(&ZStrings::new_parallel(&buf, 4, 1).unwrap(), None);
    for chunks in [2, 3, 4, 7, 4096] {
        let chunked = offsets_and_texts(&ZStrings::new_parallel(&buf, 4, chunks).unwrap(), None);
        assert_eq!(single, chunked);
    }
}

#[test]
fn finalize_is_pure() {
    let buf = b"first\x00second\x00";
    let zs = ZStrings::new_parallel(buf, 4, 1).unwrap();
    let a = offsets_and_texts(&zs, None);
    let b = offsets_and_texts(&zs, None);
    assert_eq!(a, b);
    assert_eq!(a.len(), 2);
}

#[test]
fn alignment_filters_offsets() {
    // matches at offsets 0 and 3
    let buf = b"AB\x00CD\x00";
    let zs = ZStrings::new_parallel(buf, 2, 1).unwrap();
    let all = offsets_and_texts(&zs, None);
    assert_eq!(all, vec![(0, "AB".to_string()), (3, "CD".to_string())]);
    let even = offsets_and_texts(&zs, Some(2));
    assert_eq!(even, vec![(0, "AB".to_string())]);
    let ones = offsets_and_texts(&zs, Some(1));
    assert_eq!(ones, all);
}

#[test]
fn control_characters_are_stripped() {
    let buf = b"AB\x0aCD\x0dEF\x00";
    let zs = ZStrings::new_parallel(buf, 4, 1).unwrap();
    let rs = offsets_and_texts(&zs, None);
    assert_eq!(rs, vec![(0, "ABCDEF".to_string())]);
}

#[test]
fn tab_is_kept() {
    let buf = b"A\x09B\x00";
    let zs = ZStrings::new_parallel(buf, 3, 1).unwrap();
    let rs = offsets_and_texts(&zs, None);
    assert_eq!(rs, vec![(0, "A\tB".to_string())]);
}

#[test]
fn minimum_length_counts_unstripped_text() {
    // the run "AB\nC" has length 4 before stripping, 3 after
    let buf = b"AB\x0aC\x00";
    let zs = ZStrings::new_parallel(buf, 4, 1).unwrap();
    let rs = offsets_and_texts(&zs, None);
    assert_eq!(rs, vec![(0, "ABC".to_string())]);
}

#[test]
fn runs_shorter_than_minimum_are_ignored() {
    let buf = b"ABC\x00ABCD\x00";
    let zs = ZStrings::new_parallel(buf, 4, 1).unwrap();
    let rs = offsets_and_texts(&zs, None);
    assert_eq!(rs, vec![(4, "ABCD".to_string())]);
}

#[test]
fn empty_buffer_yields_nothing() {
    let zs = ZStrings::new_parallel(b"", 4, 7).unwrap();
    assert_eq!(zs.len(), 0);
    assert_eq!(zs.results(None).len(), 0);
}

#[test]
fn run_longer_than_overlap_cap_is_found_in_one_window() {
    let mut buf = vec![b'A'; 2000];
    buf.push(0);
    let zs = ZStrings::new_parallel(&buf, 4, 1).unwrap();
    let rs = offsets_and_texts(&zs, None);
    assert_eq!(rs.len(), 1);
    assert_eq!(rs[0].0, 0);
    assert_eq!(rs[0].1.len(), 2000);
}

#[test]
fn run_longer_than_window_is_reported_at_a_window_start() {
    // A run longer than one window (chunk step plus overlap cap) fits no
    // window whole: windows that begin inside it report its tails, so the
    // surviving offset moves to the first such window's start. A single
    // chunk scans the run in one piece and keeps the true offset.
    let mut buf = vec![b'A'; 2500];
    buf.push(0);
    let plain = ZStrings::new_parallel(&buf, 4, 1).unwrap().results(None);
    assert_eq!(plain.len(), 1);
    assert_eq!(plain[0].offset(), 0);
    assert_eq!(plain[0].string().len(), 2500);
    let chunked = ZStrings::new_parallel(&buf, 4, 3).unwrap();
    assert_eq!(chunked.len(), 2);
    let rs = chunked.results(None);
    assert_eq!(rs.len(), 1);
    assert_eq!(rs[0].offset(), 1024);
    assert_eq!(rs[0].string().len(), 1476);
}

#[test]
fn run_without_terminator_is_ignored() {
    let buf = b"ABCDEFGH";
    let zs = ZStrings::new_parallel(buf, 2, 1).unwrap();
    assert_eq!(zs.results(None).len(), 0);
}

#[test]
fn get_absent_offset_is_none() {
    let buf = b"AB\x00";
    let zs = ZStrings::new_parallel(buf, 2, 1).unwrap();
    assert_eq!(zs.get(1), None);
    assert_eq!(zs.get(0), Some("AB".to_string()));
}

#[test]
fn single_window_scan_reports_absolute_offsets() {
    let zs = ZStrings::new(100, b"XY\x00", 1).unwrap();
    let rs = offsets_and_texts(&zs, None);
    assert_eq!(rs, vec![(100, "XY".to_string())]);
}

#[test]
fn overlaps_is_symmetric_on_touching_ranges() {
    // [0, 4) from one scan, [1, 3) and [6, 8) from another
    let a = ZStrings::new(0, b"ABCD\x00", 1).unwrap().results(None);
    let b = ZStrings::new(1, b"XY\x00\x00\x00WZ\x00", 1).unwrap().results(None);
    assert_eq!(a.len(), 1);
    assert_eq!(b.len(), 2);
    assert!(a[0].overlaps(&b[0]));
    assert!(b[0].overlaps(&a[0]));
    assert!(!a[0].overlaps(&b[1]));
    assert!(!b[1].overlaps(&a[0]));
}
