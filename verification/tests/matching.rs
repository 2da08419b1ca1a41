use sch_pdf_compare::signature::SIMILARITY_SCALE;
use sch_pdf_compare::{match_sheets, Pair, Signature};

fn sigs(pages: &[&str]) -> Vec<Signature> {
    pages.iter().map(|t| Signature::from_text(t)).collect()
}

/// Sheets that look like schematic sheets: a few shared frame words and some
/// net names of their own.
fn sheet(unique: &str) -> String {
    format!("Example Project Sheet Size Date Rev {unique}")
}

#[test]
fn identical_sets_match_one_to_one() {
    let pages: Vec<String> = (0..8)
        .map(|i| sheet(&format!("NET_{i}A NET_{i}B DEV_{i}")))
        .collect();
    let refs: Vec<&str> = pages.iter().map(|s| s.as_str()).collect();
    let a = sigs(&refs);
    let pairs = match_sheets(&a, &a);
    assert_eq!(pairs.len(), 8);
    for (i, p) in pairs.iter().enumerate() {
        assert_eq!((p.page_a, p.page_b), (i as i32 + 1, i as i32 + 1));
    }
}

#[test]
fn a_sheet_inserted_at_the_front_shows_as_added() {
    let base: Vec<String> = (0..5).map(|i| sheet(&format!("NET_{i} DEV_{i}"))).collect();
    let a: Vec<&str> = base.iter().map(|s| s.as_str()).collect();
    let extra = sheet("BRAND_NEW_SHEET WITH_ITS_OWN NETS_HERE");
    let mut b: Vec<&str> = vec![extra.as_str()];
    b.extend(a.iter().copied());

    let pairs = match_sheets(&sigs(&a), &sigs(&b));
    assert_eq!(pairs.len(), 6);
    assert_eq!((pairs[0].page_a, pairs[0].page_b), (0, 1), "the new sheet is added");
    for (i, p) in pairs.iter().enumerate().skip(1) {
        assert_eq!((p.page_a, p.page_b), (i as i32, i as i32 + 1));
    }
}

#[test]
fn a_removed_sheet_shows_as_removed() {
    let base: Vec<String> = (0..5).map(|i| sheet(&format!("NET_{i} DEV_{i}"))).collect();
    let a: Vec<&str> = base.iter().map(|s| s.as_str()).collect();
    let b: Vec<&str> = a.iter().copied().skip(2).collect();

    let pairs = match_sheets(&sigs(&a), &sigs(&b));
    assert_eq!((pairs[0].page_a, pairs[0].page_b), (1, 0));
    assert_eq!((pairs[1].page_a, pairs[1].page_b), (2, 0));
    assert_eq!((pairs[2].page_a, pairs[2].page_b), (3, 1));
}

#[test]
fn reordered_sheets_are_matched_by_content_where_order_allows() {
    // The case a uniform offset cannot express at all: one sheet moved to the
    // end. Alignment cannot cross sheets over, so it reports the move as a
    // removal and an addition.
    let base: Vec<String> = (0..5).map(|i| sheet(&format!("NET_{i} DEV_{i}"))).collect();
    let a: Vec<&str> = base.iter().map(|s| s.as_str()).collect();
    let mut b: Vec<&str> = a.clone();
    let moved = b.remove(1);
    b.push(moved);

    let pairs = match_sheets(&sigs(&a), &sigs(&b));
    let matched: Vec<_> = pairs.iter().filter(|p| p.page_a != 0 && p.page_b != 0).collect();
    assert_eq!(matched.len(), 4, "the four sheets that stayed put are matched");
    assert!(pairs.iter().any(|p| p.page_a == 2 && p.page_b == 0), "sheet 2 left its place");
    assert!(pairs.iter().any(|p| p.page_a == 0 && p.page_b == 5), "and turned up at the end");
}

#[test]
fn near_duplicate_sheets_are_kept_in_order() {
    // Eight channel sheets that differ only in one number: ordering is what
    // actually separates them.
    let pages: Vec<String> = (0..8)
        .map(|i| sheet(&format!("ETHERNET PORT CHANNEL MAGJACK RJ45 PORT_{i}")))
        .collect();
    let refs: Vec<&str> = pages.iter().map(|s| s.as_str()).collect();
    let a = sigs(&refs);
    let pairs = match_sheets(&a, &a);
    for (i, p) in pairs.iter().enumerate() {
        assert_eq!(
            (p.page_a, p.page_b),
            (i as i32 + 1, i as i32 + 1),
            "near-duplicate sheet {} paired with the wrong one",
            i + 1
        );
    }
}

#[test]
fn sheets_with_nothing_in_common_are_not_forced_together() {
    let a = sigs(&["ALPHA BRAVO CHARLIE DELTA"]);
    let b = sigs(&["ZULU YANKEE XRAY WHISKEY"]);
    let pairs = match_sheets(&a, &b);
    assert_eq!(pairs.len(), 2, "one removed and one added, not one bad pair");
    assert!(pairs.iter().any(|p| p.page_a == 1 && p.page_b == 0));
    assert!(pairs.iter().any(|p| p.page_a == 0 && p.page_b == 1));
}

#[test]
fn a_sheet_with_no_text_is_unknown_not_identical() {
    // Two blank signatures must not score the full similarity, or every
    // text-less sheet pairs with the first one it meets.
    let blank = Signature::from_text("   \n  ");
    assert!(blank.is_empty());
    assert_eq!(blank.similarity(&blank), 0);
}

#[test]
fn frame_letters_do_not_become_the_signature() {
    // Every drawing frame is edged with single characters. If those counted,
    // every sheet in the set would look like every other.
    let s = Signature::from_text("A B C D 1 2 3 4 5 NET_RESET# BUS1[0..7]");
    assert!(s.contains_token("NET_RESET#"));
    assert!(s.contains_token("BUS1[0..7]"));
    assert!(!s.contains_token("A"));
    assert!(!s.contains_token("1"));
}

#[test]
fn empty_documents_produce_no_pairs() {
    assert!(match_sheets(&[], &[]).is_empty());
    assert_eq!(match_sheets(&sigs(&["ONE TWO THREE"]), &[]).len(), 1);
}

#[test]
fn similarity_is_the_shared_share_of_all_tokens_in_millionths() {
    // {ALPHA, BRAVO, CHARLIE} against {BRAVO, CHARLIE, DELTA}: two shared of four.
    let a = Signature::from_text("ALPHA BRAVO CHARLIE");
    let b = Signature::from_text("BRAVO, CHARLIE; DELTA");
    assert_eq!(a.similarity(&b), SIMILARITY_SCALE / 2);
    assert_eq!(b.similarity(&a), SIMILARITY_SCALE / 2);
    // one shared of four
    let c = Signature::from_text("ALPHA XRAY");
    assert_eq!(a.similarity(&c), 250_000);
    assert_eq!(a.similarity(&a), SIMILARITY_SCALE);
}

#[test]
fn tokens_are_runs_of_three_or_more_name_characters() {
    let s = Signature::from_text("R12,C3 U100(VCC) __a ab a.b #x]");
    assert!(s.contains_token("R12"));
    assert!(s.contains_token("U100"));
    assert!(s.contains_token("VCC"));
    assert!(s.contains_token("__a"));
    assert!(s.contains_token("a.b"));
    assert!(s.contains_token("#x]"));
    assert!(!s.contains_token("C3"));
    assert!(!s.contains_token("ab"));
    // repeated tokens count once
    let t = Signature::from_text("NET NET NET");
    assert_eq!(t.similarity(&Signature::from_text("NET")), SIMILARITY_SCALE);
    // letters beyond ASCII are name characters too
    let u = Signature::from_text("Ünterschrift");
    assert!(u.contains_token("Ünterschrift"));
}

#[test]
fn matching_every_sheet_shows_up_once_in_order() {
    let a = sigs(&["ONE TWO THREE", "FOUR FIVE SIX", "SEVEN EIGHT NINE"]);
    let b = sigs(&["FOUR FIVE SIX", "TEN ELEVEN TWELVE", "SEVEN EIGHT NINE", "ONE TWO THREE"]);
    let pairs = match_sheets(&a, &b);
    let pa: Vec<i32> = pairs.iter().map(|p| p.page_a).filter(|&x| x != 0).collect();
    let pb: Vec<i32> = pairs.iter().map(|p| p.page_b).filter(|&x| x != 0).collect();
    assert_eq!(pa, vec![1, 2, 3]);
    assert_eq!(pb, vec![1, 2, 3, 4]);
    assert!(pairs.iter().all(|p| p.page_a != 0 || p.page_b != 0));
}

#[test]
fn sets_with_nothing_in_common_pair_nothing() {
    let a = sigs(&["ALPHA BRAVO", "CHARLIE DELTA", "ECHO FOXTROT"]);
    let b = sigs(&["GOLF HOTEL", "INDIA JULIET"]);
    let pairs = match_sheets(&a, &b);
    assert_eq!(pairs.len(), 5);
    assert!(pairs.iter().all(|p| p.page_a == 0 || p.page_b == 0));
}

#[test]
fn a_pair_below_the_floor_is_left_unmatched() {
    // 3 shared tokens out of 10: a similarity of 0.3, under the 0.35 floor.
    let a = sigs(&["ALPHA BRAVO CHARLIE"]);
    let b = sigs(&["ALPHA BRAVO CHARLIE DELTA ECHO FOXTROT GOLF HOTEL INDIA JULIET"]);
    assert_eq!(a[0].similarity(&b[0]), 300_000);
    let pairs = match_sheets(&a, &b);
    assert_eq!(pairs, vec![Pair { page_a: 1, page_b: 0 }, Pair { page_a: 0, page_b: 1 }]);
    // 4 shared out of 10 reaches the floor and is paired.
    let c = sigs(&["ALPHA BRAVO CHARLIE DELTA"]);
    assert_eq!(c[0].similarity(&b[0]), 400_000);
    assert_eq!(match_sheets(&c, &b), vec![Pair { page_a: 1, page_b: 1 }]);
}
