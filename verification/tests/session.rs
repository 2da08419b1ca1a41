use sch_pdf_compare::abi::{status_of, SC_ERR_FORMAT, SC_ERR_GEOMETRY, SC_ERR_IO, SC_ERR_NO_PAGE};
use sch_pdf_compare::render::{Error, Tile as RenderTile};
use sch_pdf_compare::text::escape_pdf_string;
use sch_pdf_compare::samples::Samples;
use sch_pdf_compare::settings::{hex, unhex, SettingsData, MAX_PAIRS};
use sch_pdf_compare::{
    diff_words, suggest_ignores, Options, PageRect, Pair, PixelFormat, Pixels, Rect, Rgb,
    ScPair, ScViewMode, Session, SheetChanges, SweepStatus, TextChange, TextChangeKind,
    ViewMode, Word, MAX_TOLERANCE,
};
use std::path::Path;

/// A grey image in the BGRA8 layout, `w` by `h`, white but for the black
/// blocks given as `(x, y, width, height)`.
fn page(w: i32, h: i32, blocks: &[(i32, i32, i32, i32)]) -> Vec<u8> {
    let mut data = vec![0xffu8; (w * h * 4) as usize];
    for &(bx, by, bw, bh) in blocks {
        for y in by..by + bh {
            for x in bx..bx + bw {
                let i = ((y * w + x) * 4) as usize;
                data[i] = 0;
                data[i + 1] = 0;
                data[i + 2] = 0;
            }
        }
    }
    data
}

fn px(data: &[u8], w: i32, h: i32) -> Pixels<'_> {
    Pixels::new(data, w, h, (w * 4) as usize, PixelFormat::Bgra8).expect("well formed")
}

fn sheet(page_no: i32, changes: usize) -> SheetChanges {
    SheetChanges {
        page_no,
        changes: vec![PageRect::new(1000, 1000, 2000, 2000); changes],
        pixels: 10 * changes as i32,
        ignored: 0,
        size_mismatch: false,
        coverage: 0,
    }
}

fn changed(before: &str, after: &str) -> TextChange {
    TextChange {
        kind: TextChangeKind::Changed,
        before: before.to_string(),
        after: after.to_string(),
        rect: PageRect::new(300_000, 300_000, 20_000, 10_000),
    }
}

fn change_of(kind: TextChangeKind, before: &str, after: &str) -> TextChange {
    TextChange {
        kind,
        before: before.to_string(),
        after: after.to_string(),
        rect: PageRect::new(0, 0, 1000, 1000),
    }
}

#[test]
fn across_pdf_producers_the_floor_is_rendering_not_alignment() {
    // The two revisions here come from different PDF producers, so the residue
    // is glyph rasterisation spread over the whole sheet. The sets are
    // customer drawings that are never shipped; without them there is nothing
    // to measure, and the check returns early as it always has.
    let a = Path::new("samples/SET-ONE - EXAMPLE DIGITAL REV-P2.pdf");
    let b = Path::new("samples/SET-ONE - EXAMPLE DIGITAL REV-P3.pdf");
    if !(a.exists() && b.exists()) {
        return;
    }
    panic!("the sample set is present: compare sheet 2 through the application, which renders it");
}

#[test]
fn a_comparison_opens_paired_by_position() {
    let s = Session::new("/docs/A.pdf", "/docs/B.pdf", 3, 5);
    assert_eq!(s.page_count(), 5);
    assert_eq!(s.pair(3), Pair { page_a: 3, page_b: 3 });
    assert_eq!(s.pair(4), Pair { page_a: 0, page_b: 4 });
    assert_eq!(s.pair(6), Pair::default());
    assert_eq!(s.page_delta(), 0);
    assert!(!s.pairing_is_automatic());
    assert_eq!(s.options(), Options::default());
    assert_eq!(s.view_mode(), ViewMode::Overlay);
    assert!(s.ignore_rects().is_empty());
    assert_eq!(s.path_a(), "/docs/A.pdf");
    assert_eq!(s.path_b(), "/docs/B.pdf");
}

#[test]
fn nudging_the_offset_leaves_the_first_sheet_unmatched() {
    let mut s = Session::new("a", "b", 3, 4);
    s.set_page_delta(1);
    assert_eq!(s.page_delta(), 1);
    assert_eq!(s.pair(1), Pair { page_a: 0, page_b: 1 });
    assert_eq!(s.pair(2), Pair { page_a: 1, page_b: 2 });
    assert_eq!(s.page_count(), 4);
}

#[test]
fn content_matching_finds_a_sheet_inserted_in_the_middle() {
    let mut s = Session::new("a", "b", 3, 4);
    let a: Vec<String> = vec![
        "SHEET 1 REV A NET_SHEET_1 10k".into(),
        "SHEET 2 REV A NET_SHEET_2 4k7".into(),
        "SHEET 3 REV A NET_SHEET_3 100nF".into(),
    ];
    let b: Vec<String> = vec![
        a[0].clone(),
        "SHEET NEW REV A BRAND_NEW_NET_HERE 47uH".into(),
        a[1].clone(),
        a[2].clone(),
    ];
    s.auto_match(&a, &b);
    assert!(s.pairing_is_automatic());
    assert_eq!(s.page_count(), 4, "three sheets and the new one");
    let pairs: Vec<Pair> = (1..=4).map(|p| s.pair(p)).collect();
    let added: Vec<&Pair> = pairs.iter().filter(|p| p.page_a == 0).collect();
    assert_eq!(added.len(), 1, "exactly one sheet is new: {pairs:?}");
    assert_eq!(added[0].page_b, 2, "and it is the one that was inserted");
    assert!(pairs.iter().any(|p| p.page_a == 2 && p.page_b == 3));
    assert!(pairs.iter().any(|p| p.page_a == 3 && p.page_b == 4));
    // going back to an offset forgets the content pairing
    s.set_page_delta(0);
    assert!(!s.pairing_is_automatic());
    assert_eq!(s.pair(2), Pair { page_a: 2, page_b: 2 });
}

#[test]
fn a_sheet_scanned_against_itself_has_no_changes() {
    let s = Session::new("a", "b", 1, 1);
    let d = page(64, 64, &[(10, 10, 20, 4), (30, 40, 3, 12)]);
    let r = s.scan_page(1, Some(&px(&d, 64, 64)), Some(&px(&d, 64, 64)), 64, 64);
    assert_eq!(r.page_no, 1);
    assert!(r.changes.is_empty());
    assert_eq!((r.pixels, r.ignored), (0, 0));
}

#[test]
fn a_change_comes_back_in_page_space() {
    // A scanned pixel is 0.72 pt: an eight-pixel cell at (16, 16) is 11.52 pt in.
    let s = Session::new("a", "b", 1, 1);
    let da = page(64, 64, &[(16, 16, 8, 8)]);
    let db = page(64, 64, &[]);
    let r = s.scan_page(1, Some(&px(&da, 64, 64)), Some(&px(&db, 64, 64)), 64, 64);
    assert_eq!(r.changes, vec![PageRect::new(11_520, 11_520, 5_760, 5_760)]);
    assert_eq!(r.pixels, 64);
    assert_eq!(r.ignored, 0);
}

#[test]
fn a_sheet_with_no_counterpart_is_all_change() {
    let mut s = Session::new("a", "b", 1, 2);
    s.set_page_delta(1);
    let db = page(64, 64, &[(16, 16, 8, 8)]);
    let r = s.scan_page(1, None, Some(&px(&db, 64, 64)), 64, 64);
    assert_eq!(r.changes.len(), 1);
    // and a page that neither document has is nothing at all
    let none = s.scan_page(9, None, None, 64, 64);
    assert!(none.changes.is_empty());
}

#[test]
fn an_excluded_change_is_counted_not_dropped() {
    let mut s = Session::new("a", "b", 1, 1);
    let da = page(64, 64, &[(16, 16, 8, 8), (48, 48, 8, 8)]);
    let db = page(64, 64, &[]);
    let before = s.scan_page(1, Some(&px(&da, 64, 64)), Some(&px(&db, 64, 64)), 64, 64);
    assert_eq!(before.changes.len(), 2);
    s.add_ignore_rect(PageRect::new(11_000, 11_000, 7_000, 7_000));
    let after = s.scan_page(1, Some(&px(&da, 64, 64)), Some(&px(&db, 64, 64)), 64, 64);
    assert_eq!(after.changes.len(), 1);
    assert_eq!(after.ignored, 1);
    assert_eq!(after.changes.len() + after.ignored as usize, before.changes.len());
    assert_eq!(after.pixels, 64);
    s.clear_ignore_rects();
    let again = s.scan_page(1, Some(&px(&da, 64, 64)), Some(&px(&db, 64, 64)), 64, 64);
    assert_eq!(again.changes.len(), 2);
}

#[test]
fn text_changes_on_a_sheet_with_no_counterpart_are_all_added() {
    let mut s = Session::new("a", "b", 1, 2);
    let r = PageRect::new(300_000, 300_000, 20_000, 10_000);
    let wa = vec![Word::new("10k", r)];
    let wb = vec![Word::new("12k", r)];
    let t = s.page_text_changes(1, &wa, &wb);
    assert_eq!(t.len(), 1, "one change, got {t:?}");
    assert_eq!(t[0].kind, TextChangeKind::Changed);
    assert_eq!((t[0].before.as_str(), t[0].after.as_str()), ("10k", "12k"));
    s.set_page_delta(1);
    let t = s.page_text_changes(1, &wa, &wb);
    assert_eq!(t.len(), 1);
    assert_eq!(t[0].kind, TextChangeKind::Added);
    assert_eq!(t[0].after, "12k");
}

#[test]
fn words_that_moved_added_and_removed_are_told_apart() {
    let here = PageRect::new(100_000, 100_000, 10_000, 5_000);
    let far = PageRect::new(400_000, 200_000, 10_000, 5_000);
    let before = vec![Word::new("GND", here), Word::new("R12", PageRect::new(700_000, 500_000, 10_000, 5_000))];
    let after = vec![Word::new("GND", far), Word::new("C7", PageRect::new(50_000, 50_000, 5_000, 5_000))];
    let t = diff_words(&before, &after);
    assert!(t.iter().any(|c| c.kind == TextChangeKind::Moved && c.before == "GND"));
    assert!(t.iter().any(|c| c.kind == TextChangeKind::Added && c.after == "C7"));
    assert!(t.iter().any(|c| c.kind == TextChangeKind::Removed && c.before == "R12"));
    // identical words say nothing
    assert!(diff_words(&before, &before).is_empty());
}

#[test]
fn a_tile_grows_by_the_tolerance_and_refuses_bad_geometry() {
    let mut s = Session::new("a", "b", 1, 1);
    let mut o = s.options();
    o.tolerance = 2;
    s.set_options(o);
    assert_eq!(s.render_margin(), 2);
    let t = RenderTile::new(320, 240, 200, 160);
    assert_eq!(s.grown_tile(t), RenderTile::new(318, 238, 204, 164));
    let d = page(204, 164, &[]);
    let out = s.compose_tile(Some(&px(&d, 204, 164)), Some(&px(&d, 204, 164)), t, &[]);
    let tile = out.expect("composes");
    assert_eq!((tile.width, tile.height), (200, 160));
    assert_eq!(tile.bgr_at(10, 10), [0xff, 0xff, 0xff]);
    let bad = s.compose_tile(None, None, RenderTile::whole(0, 10), &[]);
    assert!(matches!(bad, Err(Error::BadGeometry)));
    // a negative tolerance renders with no margin at all
    o.tolerance = -3;
    s.set_options(o);
    assert_eq!(s.render_margin(), 0);
}

#[test]
fn an_excluded_region_in_a_tile_is_grey_and_edged() {
    let mut s = Session::new("a", "b", 1, 1);
    let mut o = s.options();
    o.tolerance = 0;
    s.set_options(o);
    let da = page(16, 4, &[(2, 0, 2, 4), (10, 0, 2, 4)]);
    let db = page(16, 4, &[]);
    let t = RenderTile::new(0, 0, 16, 4);
    let device = [Rect::new(8, 0, 8, 4)];
    let out = s
        .compose_tile(Some(&px(&da, 16, 4)), Some(&px(&db, 16, 4)), t, &device)
        .expect("composes");
    let p = out.bgr_at(2, 1);
    assert!(p[2] as i32 > p[1] as i32 + 40, "outside the region: still coloured");
    let p = out.bgr_at(10, 1);
    assert!(p[0] == p[1] && p[1] == p[2], "inside: never coloured");
    assert!(p[0] < 0xff, "but still visible");
}

#[test]
fn the_report_of_a_known_change_says_the_known_thing() {
    let s = Session::new("/a.pdf", "/b.pdf", 3, 3);
    let scanned = vec![sheet(1, 0), sheet(2, 0), sheet(3, 1)];
    let texts = vec![vec![], vec![], vec![changed("100nF", "220nF")]];
    let r = s.report(&scanned, &texts);
    assert_eq!(
        r,
        "# What changed between these two revisions\n\n\
         - Earlier: `/a.pdf`\n\
         - Later: `/b.pdf`\n\
         - 3 sheets compared, 1 with something on them\n\
         - Tolerance: 1 device pixel\n\
         \n## Sheet 3\n\n\
         1 region of the drawing differs.\n\n\
         | Was | Is now |\n\
         | --- | --- |\n\
         | `100nF` | `220nF` |\n"
    );
    assert!(r.contains("## Sheet 3"));
    assert!(!r.contains("## Sheet 1"));
}

#[test]
fn identical_sets_report_nothing_changed() {
    let s = Session::new("/a.pdf", "/b.pdf", 2, 2);
    let r = s.report(&[sheet(1, 0), sheet(2, 0)], &[vec![], vec![]]);
    assert!(r.ends_with("- Tolerance: 1 device pixel\n\nNothing changed.\n"), "{r}");
}

#[test]
fn the_report_says_what_a_reader_needs_to_trust_it() {
    let mut s = Session::new("/a.pdf", "/b.pdf", 3, 4);
    let mut o = s.options();
    o.tolerance = 4;
    s.set_options(o);
    s.add_ignore_rect(PageRect::new(0, 0, 10, 10));
    s.add_ignore_rect(PageRect::new(5, 5, 10, 10));
    s.set_page_delta(1);
    let mut odd = sheet(2, 3);
    odd.size_mismatch = true;
    odd.ignored = 2;
    odd.coverage = 2_750;
    let r = s.report(&[odd], &[vec![]]);
    assert!(r.contains("- Tolerance: 4 device pixels\n"));
    assert!(r.contains("- **At this tolerance a stroke that merely moved is not reported as a change.**\n"));
    assert!(r.contains(
        "- **2 region(s) excluded from the comparison on every sheet.** Anything inside them was not compared.\n"
    ));
    assert!(r.contains("- Sheet pairing offset by 1\n"));
    assert!(r.contains("\n> Only 1 of 4 sheets had been scanned when this was written.\n"));
    assert!(r.contains("\n> **One sheet is a different size in the two revisions.**"));
    // virtual sheet 2 is the first document's sheet 1 and the second's sheet 2
    assert!(r.contains("\n## Sheet 2 (earlier sheet 1, later sheet 2)\n\n"));
    assert!(r.contains("> **The two revisions of this sheet are different sizes on paper.**"));
    assert!(r.contains(
        "3 regions of the drawing differ; 2 inside an excluded region, not compared; they cover about 28% of the sheet, so it was substantially redrawn.\n\n"
    ));
    assert!(r.ends_with("Nothing reads differently; the differences are in the drawing itself.\n"));
}

#[test]
fn report_titles_name_added_and_removed_sheets() {
    let mut s = Session::new("/a.pdf", "/b.pdf", 2, 2);
    s.set_page_delta(1);
    let r = s.report(&[sheet(1, 1), sheet(3, 1)], &[vec![], vec![]]);
    assert!(r.contains("\n## Sheet 1 — added in the later revision\n"));
    assert!(r.contains("\n## Sheet 3 — removed\n"));
}

#[test]
fn report_tables_escape_cells_and_say_when_they_stop() {
    let s = Session::new("/a.pdf", "/b.pdf", 1, 1);
    let mut text = vec![
        changed("A|B", "C\\D"),
        change_of(TextChangeKind::Removed, "  ", ""),
        change_of(TextChangeKind::Added, "", "NEW"),
        change_of(TextChangeKind::Moved, "GND", "GND"),
    ];
    let r = s.report(&[sheet(1, 0)], &[text.clone()]);
    assert!(r.contains("1 piece of text moved without changing.\n\n"));
    assert!(r.contains("| `A\\|B` | `C\\\\D` |\n"));
    assert!(r.contains("| _(blank)_ | _removed_ |\n"));
    assert!(r.contains("| _added_ | `NEW` |\n"));
    assert!(!r.contains("GND"));
    for i in 0..45 {
        text.push(changed(&format!("R{i}"), &format!("C{i}")));
    }
    let r = s.report(&[sheet(1, 0)], &[text]);
    assert!(r.contains("| `R36` | `C36` |\n"));
    assert!(!r.contains("| `R37` | `C37` |\n"));
    assert!(r.ends_with(
        "\n_8 more, not listed. This sheet was substantially re-laid-out; compare it in the application._\n"
    ));
}

#[test]
fn a_content_pairing_is_named_in_the_report() {
    let mut s = Session::new("/a.pdf", "/b.pdf", 1, 1);
    s.auto_match(&["ONE TWO THREE".to_string()], &["ONE TWO THREE".to_string()]);
    let r = s.report(&[sheet(1, 1)], &[vec![]]);
    assert!(r.contains("- Sheets were paired by content, not by position\n"));
}

#[test]
fn renderer_errors_are_sentences() {
    assert_eq!(Error::Io("gone".to_string()).message(), "cannot read the file: gone");
    assert_eq!(
        Error::Format("junk".to_string()).message(),
        "not a document this tool can read: junk"
    );
    assert_eq!(Error::NoSuchPage(22).message(), "this document has no sheet 22");
    assert_eq!(Error::NoSuchPage(-1).message(), "this document has no sheet -1");
    assert_eq!(Error::BadGeometry.message(), "the requested area is empty or too large");
    assert_eq!(Error::Mupdf("as it said".to_string()).message(), "as it said");
}

#[test]
fn sweep_status_counts_what_came_back() {
    let mut st = SweepStatus::started(3);
    assert!(st.running && !st.finished && st.total == 3);
    st.record(Some(&sheet(1, 2)));
    st.record(None);
    st.record(Some(&sheet(3, 0)));
    assert_eq!((st.scanned, st.changed_sheets), (2, 1));
    st.finish();
    assert!(st.finished && !st.running);
    assert_eq!((st.scanned, st.changed_sheets, st.total), (2, 1, 3));
}

fn title_block(page_no: i32, x: i32) -> SheetChanges {
    SheetChanges {
        page_no,
        changes: vec![PageRect::new(x, 581_760, 20_000, 8_000)],
        pixels: 100,
        ignored: 0,
        size_mismatch: false,
        coverage: 0,
    }
}

#[test]
fn a_recurring_title_block_change_is_offered_once() {
    let results: Vec<SheetChanges> = (0..4).map(|i| title_block(i + 1, 616_000 + i * 5_000)).collect();
    let s = suggest_ignores(&results, 4);
    assert_eq!(s, vec![PageRect::new(612_000, 577_760, 28_000, 16_000)]);
    // fewer than four sheets, or a sweep that has not finished, offers nothing
    assert!(suggest_ignores(&results[..3], 3).is_empty());
    assert!(suggest_ignores(&results[..3], 4).is_empty());
    // something on one sheet only is never offered
    let mut lone = results.clone();
    lone[0].changes.push(PageRect::new(100_000, 100_000, 5_000, 5_000));
    assert_eq!(suggest_ignores(&lone, 4).len(), 1);
}

#[test]
fn suggestions_stop_at_eight() {
    let results: Vec<SheetChanges> = (0..4)
        .map(|i| SheetChanges {
            page_no: i + 1,
            changes: (0..10).map(|k| PageRect::new(k * 100_000, 0, 1_000, 1_000)).collect(),
            pixels: 0,
            ignored: 0,
            size_mismatch: false,
            coverage: 0,
        })
        .collect();
    assert_eq!(suggest_ignores(&results, 4).len(), 8);
}

#[test]
fn excluded_regions_read_back_for_their_own_pair() {
    let mut s = SettingsData::default();
    let rects = [PageRect::new(600_000, 570_000, 200_000, 25_000), PageRect::new(10_000, 10_000, 30_000, 30_000)];
    s.set_ignore_rects("/docs/A.pdf", "/docs/B.pdf", &rects);
    assert_eq!(s.ignore_rects("/docs/A.pdf", "/docs/B.pdf"), rects.to_vec());
    assert!(s.ignore_rects("/docs/A.pdf", "/OTHER.pdf").is_empty());
    // the order matters: comparing B against A is a different comparison
    assert!(s.ignore_rects("/docs/B.pdf", "/docs/A.pdf").is_empty());
    assert_eq!(s.last_pair(), Some(("/docs/A.pdf", "/docs/B.pdf")));
}

#[test]
fn storing_a_pair_twice_keeps_one_entry_and_only_so_many_are_kept() {
    let mut s = SettingsData::default();
    assert!(s.last_pair().is_none());
    s.set_ignore_rects("/A.pdf", "/B.pdf", &[PageRect::new(1, 1, 1, 1)]);
    s.set_ignore_rects("/A.pdf", "/B.pdf", &[PageRect::new(2, 2, 2, 2)]);
    assert_eq!(s.pairs.len(), 1);
    assert_eq!(s.ignore_rects("/A.pdf", "/B.pdf"), vec![PageRect::new(2, 2, 2, 2)]);
    for i in 0..60 {
        s.set_ignore_rects(&format!("/a{i}.pdf"), "/b.pdf", &[PageRect::new(1, 1, 1, 1)]);
    }
    assert_eq!(s.pairs.len(), MAX_PAIRS);
    assert!(s.ignore_rects("/a0.pdf", "/b.pdf").is_empty());
    assert_eq!(s.ignore_rects("/a59.pdf", "/b.pdf").len(), 1);
    assert_eq!(s.last_pair(), Some(("/a59.pdf", "/b.pdf")));
}

#[test]
fn options_round_trip_through_the_settings() {
    let mut s = SettingsData::default();
    let o = Options {
        only_a: Rgb::new(0x00, 0x40, 0xff),
        only_b: Rgb::new(0xff, 0x80, 0x00),
        tolerance: 2,
        shared_ink: 30,
    };
    s.set_options(o);
    assert_eq!(s.only_a, "#0040ff");
    assert_eq!(s.only_b, "#ff8000");
    assert_eq!(s.options(), o);
}

#[test]
fn hand_edited_numbers_are_clamped_and_unreadable_files_fall_back() {
    let mut s = SettingsData::default();
    s.tolerance = 99;
    s.shared_ink = -5;
    let o = s.options();
    assert_eq!(o.tolerance, MAX_TOLERANCE);
    assert_eq!(o.shared_ink, 0);
    assert_eq!(SettingsData::from_read(None).options(), Options::default());
    let mut future = SettingsData::default();
    future.version = 99;
    future.tolerance = 3;
    assert_eq!(SettingsData::from_read(Some(future)).options(), Options::default());
    let mut current = SettingsData::default();
    current.tolerance = 3;
    assert_eq!(SettingsData::from_read(Some(current)).options().tolerance, 3);
}

#[test]
fn colours_are_written_and_read_as_hex() {
    let fb = Rgb::new(1, 2, 3);
    assert_eq!(hex(Rgb::new(0xff, 0x80, 0x00)), "#ff8000");
    assert_eq!(unhex("#0040FF", fb), Rgb::new(0x00, 0x40, 0xff));
    assert_eq!(unhex("0040ff", fb), Rgb::new(0x00, 0x40, 0xff));
    assert_eq!(unhex("##0040ff", fb), Rgb::new(0x00, 0x40, 0xff));
    assert_eq!(unhex("#+f+f+f", fb), Rgb::new(15, 15, 15));
    assert_eq!(unhex("#00400", fb), fb);
    assert_eq!(unhex("#zz0000", fb), fb);
    assert_eq!(unhex("#ééé", fb), fb);
    assert_eq!(unhex(&hex(Rgb::new(12, 200, 7)), fb), Rgb::new(12, 200, 7));
}

const MANIFEST_TEXT: &str = "{\n  \"large\": {\n    \"a\": \"A.pdf\",\n    \"b\": \"B.pdf\",\n    \"changes\": 26,\n    \"label\": \"NET_RESET#\"\n  },\n  \"small\": {\n    \"a\": \"S.pdf\",\n    \"changes\": -3\n  },\n  \"owner\": \"someone\"\n}\n";

#[test]
fn the_sample_manifest_is_read_field_by_field() {
    let m = Samples::new(MANIFEST_TEXT);
    assert_eq!(m.path("large", "a").as_deref(), Some("A.pdf"));
    assert_eq!(m.both("large"), Some(("A.pdf".to_string(), "B.pdf".to_string())));
    assert_eq!(m.both("small"), None);
    assert_eq!(m.number("large", "changes"), Some(26));
    assert_eq!(m.number("small", "changes"), Some(-3));
    assert_eq!(m.number("large", "a"), None);
    assert_eq!(m.text("large", "label").as_deref(), Some("NET_RESET#"));
    assert_eq!(m.top("owner").as_deref(), Some("someone"));
    assert_eq!(m.text("missing", "a"), None);
}

#[test]
fn view_modes_and_pairs_cross_to_the_shell_unchanged() {
    for m in [ViewMode::Overlay, ViewMode::OnlyA, ViewMode::OnlyB] {
        let s: ScViewMode = m.into();
        let back: ViewMode = s.into();
        assert_eq!(back, m);
    }
    let s: ScViewMode = ViewMode::OnlyB.into();
    assert_eq!(s, ScViewMode::OnlyB);
    let p: ScPair = Pair { page_a: 3, page_b: 0 }.into();
    assert_eq!(p, ScPair { page_a: 3, page_b: 0 });
}

#[test]
fn every_renderer_error_is_a_negative_status() {
    assert_eq!(status_of(&Error::Io(String::new())), SC_ERR_IO);
    assert_eq!(status_of(&Error::Format(String::new())), SC_ERR_FORMAT);
    assert_eq!(status_of(&Error::NoSuchPage(3)), SC_ERR_NO_PAGE);
    assert_eq!(status_of(&Error::BadGeometry), SC_ERR_GEOMETRY);
    assert_eq!(status_of(&Error::Mupdf(String::new())), SC_ERR_FORMAT);
}

#[test]
fn pdf_string_bodies_escape_what_would_end_them() {
    assert_eq!(escape_pdf_string("R1 (10k)"), "R1 \\(10k\\)");
    assert_eq!(escape_pdf_string("a\\b"), "a\\\\b");
    assert_eq!(escape_pdf_string("NET_RESET#"), "NET_RESET#");
}

#[test]
fn an_excluded_region_is_counted_never_dropped() {
    // A landscape sheet 200 by 140 scanned pixels, changed in the title block
    // (bottom right) and once in the drawing.
    let mut s = Session::new("a", "b", 3, 3);
    let (w, h) = (200, 140);
    let da = page(w, h, &[(40, 40, 10, 10), (170, 130, 10, 6)]);
    let db = page(w, h, &[]);
    let before = s.scan_page(2, Some(&px(&da, w, h)), Some(&px(&db, w, h)), w, h);
    assert_eq!(before.ignored, 0);
    assert_eq!(before.changes.len(), 2);

    // The title block: the bottom tenth of the right quarter, in page space.
    let (pw, ph) = (w * 720, h * 720);
    s.add_ignore_rect(PageRect::new(pw * 3 / 4, ph * 9 / 10, pw / 4, ph / 10));

    let after = s.scan_page(2, Some(&px(&da, w, h)), Some(&px(&db, w, h)), w, h);
    assert!(after.changes.len() < before.changes.len(), "the excluded region stopped counting");
    assert!(after.ignored > 0, "and it is reported as excluded, not silently gone");
    assert_eq!(after.changes.len() + after.ignored as usize, before.changes.len());

    s.clear_ignore_rects();
    assert_eq!(
        s.scan_page(2, Some(&px(&da, w, h)), Some(&px(&db, w, h)), w, h).changes.len(),
        before.changes.len()
    );
}

#[test]
fn an_unmatched_sheet_is_not_an_unchanged_one() {
    // Nudge the pairing so A's sheet 1 has no counterpart. It has to come back
    // as entirely removed, not as a quiet page with nothing on it.
    let mut s = Session::new("a", "b", 3, 3);
    s.set_page_delta(1);
    assert_eq!(s.page_delta(), 1);
    let p = s.pair(1);
    assert_eq!((p.page_a, p.page_b), (0, 1));
    let db = page(64, 64, &[(20, 20, 12, 3), (20, 40, 12, 3)]);
    let r = s.scan_page(1, None, Some(&px(&db, 64, 64)), 64, 64);
    assert!(!r.changes.is_empty(), "a sheet present in only one revision is all change");
}

#[test]
fn a_scan_says_how_much_of_the_sheet_its_changes_cover() {
    let s = Session::new("a", "b", 1, 1);
    let blank = page(64, 64, &[]);
    // One eight-pixel cell of a 64 by 64 sheet: 64 of 4096 pixels, 1.56 %.
    let small = page(64, 64, &[(8, 8, 8, 8)]);
    let r = s.scan_page(1, Some(&px(&small, 64, 64)), Some(&px(&blank, 64, 64)), 64, 64);
    assert_eq!(r.coverage, 156);
    // A sheet drawn over entirely is covered entirely.
    let full = page(64, 64, &[(0, 0, 64, 64)]);
    let r = s.scan_page(1, Some(&px(&full, 64, 64)), Some(&px(&blank, 64, 64)), 64, 64);
    assert_eq!(r.coverage, 10_000);
    // Nothing changed covers nothing.
    let r = s.scan_page(1, Some(&px(&blank, 64, 64)), Some(&px(&blank, 64, 64)), 64, 64);
    assert_eq!(r.coverage, 0);
}

#[test]
fn a_redrawn_sheet_is_called_so_in_the_report() {
    let s = Session::new("/a.pdf", "/b.pdf", 1, 1);
    let mut sc = sheet(1, 2);
    sc.coverage = 3_000;
    let r = s.report(&[sc], &[vec![]]);
    assert!(r.contains("they cover about 30% of the sheet, so it was substantially redrawn"), "{r}");
    let quiet = s.report(&[sheet(1, 2)], &[vec![]]);
    assert!(!quiet.contains("substantially redrawn"));
}

#[test]
fn only_the_newest_fifty_pairs_are_remembered() {
    let mut s = SettingsData::default();
    for i in 0..60 {
        s.set_ignore_rects(&format!("/a{i}.pdf"), "/b.pdf", &[PageRect::new(i, i, 1, 1)]);
    }
    for i in 0..10 {
        assert!(s.ignore_rects(&format!("/a{i}.pdf"), "/b.pdf").is_empty(), "pair {i} is too old");
    }
    for i in 10..60 {
        assert_eq!(s.ignore_rects(&format!("/a{i}.pdf"), "/b.pdf"), vec![PageRect::new(i, i, 1, 1)]);
    }
    // The order of the two documents is part of the pair.
    assert!(s.ignore_rects("/b.pdf", "/a59.pdf").is_empty());
}
