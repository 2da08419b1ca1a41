//! The comparison as a document somebody else can read.
//!
//! What someone comparing two revisions hands on is not a window. It is the
//! list of what changed, going into a change note, an email, or a record of
//! the approval. Markdown because it is
//! readable as it stands, pastes into most things, and renders as a table where
//! that helps.

use vstd::prelude::*;

use crate::options::TOLERANCE_HIDES_MOVEMENT;
use crate::scan::SheetChanges;
use crate::session::Session;
use crate::text::{dec, push_char, push_count, push_int, push_str, push_string};
use crate::words::{ChangeView, TextChange, TextChangeKind};

verus! {

/// The most table rows one sheet contributes before the rest are summarised.
///
/// A report is something a person reads. A sheet that was re-drawn can produce
/// hundreds of genuine differences, and printing all of them turns the document
/// into something nobody opens.
pub const MAX_ROWS: usize = 40;

/// Whether `c` has Unicode's `White_Space` property, which is what
/// `char::is_whitespace` answers: tab to carriage return, space, next line,
/// no-break space, the Ogham space mark, the en quad to the hair space, the
/// line and paragraph separators, the narrow no-break space, the medium
/// mathematical space and the ideographic space.
pub open spec fn char_is_whitespace(c: char) -> bool {
    let u = c as u32;
    ||| 0x09 <= u <= 0x0d
    ||| u == 0x20 || u == 0x85 || u == 0xa0 || u == 0x1680
    ||| 0x2000 <= u <= 0x200a
    ||| u == 0x2028 || u == 0x2029 || u == 0x202f || u == 0x205f || u == 0x3000
}

/// Whether `c` is white space in Unicode's sense.
pub(crate) fn is_whitespace(c: char) -> (r: bool)
    ensures
        r == char_is_whitespace(c),
        (c as u32) < 128 ==> (r <==> (c == ' ' || (9 <= (c as u32) <= 13))),
{
    let u = c as u32;
    (0x09 <= u && u <= 0x0d) || u == 0x20 || u == 0x85 || u == 0xa0 || u == 0x1680 || (0x2000 <= u && u
        <= 0x200a) || u == 0x2028 || u == 0x2029 || u == 0x202f || u == 0x205f || u == 0x3000
}

// ---------------------------------------------------------------------------
// What the report says

/// `s` with `\` and `|` escaped for a Markdown table cell.
pub open spec fn cell_body(s: Seq<char>) -> Seq<char>
    decreases s.len(),
{
    if s.len() == 0 {
        Seq::empty()
    } else {
        let c = s.last();
        cell_body(s.drop_last()) + if c == '\\' {
            seq!['\\', '\\']
        } else if c == '|' {
            seq!['\\', '|']
        } else {
            seq![c]
        }
    }
}

/// Nothing but whitespace (or nothing at all).
pub open spec fn is_blank(s: Seq<char>) -> bool {
    forall|i: int| 0 <= i < s.len() ==> #[trigger] char_is_whitespace(s[i])
}

/// A table cell for a piece of text: escaped and in backticks, or a note that
/// it is blank. Net names are full of characters a Markdown table would eat.
pub open spec fn cell(s: Seq<char>) -> Seq<char> {
    if is_blank(cell_body(s)) {
        "_(blank)_"@
    } else {
        "`"@ + cell_body(s) + "`"@
    }
}

/// A sheet's heading: what it is called in each revision where they differ.
pub open spec fn title(page_no: int, page_a: int, page_b: int) -> Seq<char> {
    if page_a == 0 {
        "Sheet "@ + dec(page_no) + " — added in the later revision"@
    } else if page_b == 0 {
        "Sheet "@ + dec(page_no) + " — removed"@
    } else if page_a == page_b {
        "Sheet "@ + dec(page_no)
    } else {
        "Sheet "@ + dec(page_no) + " (earlier sheet "@ + dec(page_a) + ", later sheet "@ + dec(page_b) + ")"@
    }
}

/// The notes about a sheet's drawing, joined with semicolons; empty when there
/// is nothing to note.
pub open spec fn notes(regions: int, ignored: int, coverage: int) -> Seq<char> {
    let n1 = if regions == 1 {
        "1 region of the drawing differs"@
    } else {
        dec(regions) + " regions of the drawing differ"@
    };
    let n2 = dec(ignored) + " inside an excluded region, not compared"@;
    let n3 = "they cover about "@ + dec((coverage + 50) / 100) + "% of the sheet, so it was substantially redrawn"@;
    let a = if regions > 0 {
        n1
    } else {
        Seq::empty()
    };
    let b = if ignored > 0 {
        if regions > 0 {
            a + "; "@ + n2
        } else {
            n2
        }
    } else {
        a
    };
    if coverage >= 2500 {
        if regions > 0 || ignored > 0 {
            b + "; "@ + n3
        } else {
            n3
        }
    } else {
        b
    }
}

/// The text changes among the first `k` that are not mere moves, in order.
pub open spec fn listed(text: Seq<ChangeView>, k: int) -> Seq<ChangeView>
    decreases k,
{
    if k <= 0 {
        Seq::empty()
    } else if text[k - 1].0 != TextChangeKind::Moved {
        listed(text, k - 1).push(text[k - 1])
    } else {
        listed(text, k - 1)
    }
}

/// How many of the first `k` text changes are mere moves.
pub open spec fn moved_count(text: Seq<ChangeView>, k: int) -> int
    decreases k,
{
    if k <= 0 {
        0
    } else {
        moved_count(text, k - 1) + if text[k - 1].0 == TextChangeKind::Moved {
            1int
        } else {
            0int
        }
    }
}

/// One table row.
pub open spec fn row(c: ChangeView) -> Seq<char> {
    let (l, r) = match c.0 {
        TextChangeKind::Changed => (cell(c.1), cell(c.2)),
        TextChangeKind::Removed => (cell(c.1), "_removed_"@),
        TextChangeKind::Added => ("_added_"@, cell(c.2)),
        TextChangeKind::Moved => (Seq::empty(), Seq::empty()),
    };
    "| "@ + l + " | "@ + r + " |\n"@
}

/// The first `k` rows of a table.
pub open spec fn rows(items: Seq<ChangeView>, k: int) -> Seq<char>
    decreases k,
{
    if k <= 0 {
        Seq::empty()
    } else {
        rows(items, k - 1) + row(items[k - 1])
    }
}

/// What the words of a sheet say: how much merely moved, then a table of the
/// rest, cut at `MAX_ROWS` with the cut said out loud.
pub open spec fn text_part(text: Seq<ChangeView>) -> Seq<char> {
    let moved = moved_count(text, text.len() as int);
    let items = listed(text, text.len() as int);
    let head = if moved > 0 {
        dec(moved) + " piece"@ + (if moved == 1 {
            Seq::empty()
        } else {
            "s"@
        }) + " of text moved without changing.\n\n"@
    } else {
        Seq::empty()
    };
    if items.len() == 0 {
        head + "Nothing reads differently; the differences are in the drawing itself.\n"@
    } else {
        let shown = if items.len() > MAX_ROWS {
            MAX_ROWS as int
        } else {
            items.len() as int
        };
        let table = head + "| Was | Is now |\n"@ + "| --- | --- |\n"@ + rows(items, shown);
        if items.len() > MAX_ROWS {
            table + "\n_"@ + dec(items.len() - MAX_ROWS) + " more, not listed. This sheet was substantially re-laid-out; compare it in the application._\n"@
        } else {
            table
        }
    }
}

/// One sheet's section of the report.
pub open spec fn section(s: Session, sc: SheetChanges, text: Seq<ChangeView>) -> Seq<char> {
    let pair = s.spec_pair(sc.page_no as int);
    let n = notes(sc.changes@.len() as int, sc.ignored as int, sc.coverage as int);
    "\n## "@ + title(sc.page_no as int, pair.page_a as int, pair.page_b as int) + "\n\n"@ + (if sc.size_mismatch {
        "> **The two revisions of this sheet are different sizes on paper.** They were compared at the first document's size, with the other cropped, so nothing below is a reliable account of what changed.\n\n"@
    } else {
        Seq::empty()
    }) + (if n.len() > 0 {
        n + ".\n\n"@
    } else {
        Seq::empty()
    }) + text_part(text)
}

/// A scanned sheet goes in the report when its drawing or its words differ.
pub open spec fn in_report(sc: SheetChanges, text: Seq<ChangeView>) -> bool {
    sc.changes@.len() > 0 || text.len() > 0
}

/// The text changes of each scanned sheet, as the comparison sees them.
pub open spec fn text_views(texts: Seq<Vec<TextChange>>, i: int) -> Seq<ChangeView> {
    crate::words::change_views(texts[i]@)
}

/// How many of the first `k` scanned sheets go in the report.
pub open spec fn changed_count(scanned: Seq<SheetChanges>, texts: Seq<Vec<TextChange>>, k: int) -> int
    decreases k,
{
    if k <= 0 {
        0
    } else {
        changed_count(scanned, texts, k - 1) + if in_report(scanned[k - 1], text_views(texts, k - 1)) {
            1int
        } else {
            0int
        }
    }
}

/// How many of the first `k` scanned sheets go in the report with a size
/// mismatch.
pub open spec fn mismatched_count(scanned: Seq<SheetChanges>, texts: Seq<Vec<TextChange>>, k: int) -> int
    decreases k,
{
    if k <= 0 {
        0
    } else {
        mismatched_count(scanned, texts, k - 1) + if in_report(scanned[k - 1], text_views(texts, k - 1))
            && scanned[k - 1].size_mismatch {
            1int
        } else {
            0int
        }
    }
}

/// The sections of the first `k` scanned sheets that go in the report.
pub open spec fn sections(s: Session, scanned: Seq<SheetChanges>, texts: Seq<Vec<TextChange>>, k: int) -> Seq<
    char,
>
    decreases k,
{
    if k <= 0 {
        Seq::empty()
    } else {
        sections(s, scanned, texts, k - 1) + if in_report(scanned[k - 1], text_views(texts, k - 1)) {
            section(s, scanned[k - 1], text_views(texts, k - 1))
        } else {
            Seq::empty()
        }
    }
}

/// The first lines of the report: the two documents and how many sheets.
pub open spec fn intro(s: Session, changed: int) -> Seq<char> {
    "# What changed between these two revisions\n\n"@ + "- Earlier: `"@ + s.spec_path_a() + "`\n"@
        + "- Later: `"@ + s.spec_path_b() + "`\n"@ + "- "@ + dec(s.spec_page_count()) + " sheets compared, "@
        + dec(changed) + " with something on them\n"@
}

/// The tolerance, and what a wide one hides.
pub open spec fn tolerance_part(tol: int) -> Seq<char> {
    "- Tolerance: "@ + dec(tol) + " device pixel"@ + (if tol == 1 {
        Seq::empty()
    } else {
        "s"@
    }) + "\n"@ + (if tol > TOLERANCE_HIDES_MOVEMENT {
        "- **At this tolerance a stroke that merely moved is not reported as a change.**\n"@
    } else {
        Seq::empty()
    })
}

/// The excluded regions, named rather than buried.
pub open spec fn excluded_part(nign: int) -> Seq<char> {
    if nign > 0 {
        "- **"@ + dec(nign) + " region(s) excluded from the comparison on every sheet.** Anything inside them was not compared.\n"@
    } else {
        Seq::empty()
    }
}

/// How the sheets were paired, where that is not simply by position.
pub open spec fn pairing_part(s: Session) -> Seq<char> {
    if s.spec_matched() is Some {
        "- Sheets were paired by content, not by position\n"@
    } else if s.spec_page_delta() != 0 {
        "- Sheet pairing offset by "@ + dec(s.spec_page_delta()) + "\n"@
    } else {
        Seq::empty()
    }
}

/// A warning that the scan was not complete.
pub open spec fn partial_part(n: int, pc: int) -> Seq<char> {
    if n < pc {
        "\n> Only "@ + dec(n) + " of "@ + dec(pc) + " sheets had been scanned when this was written.\n"@
    } else {
        Seq::empty()
    }
}

/// A warning about sheets that are different sizes in the two revisions.
pub open spec fn mismatch_part(mismatched: int) -> Seq<char> {
    if mismatched > 0 {
        "\n> **"@ + (if mismatched == 1 {
            "One sheet is"@
        } else {
            dec(mismatched) + " sheets are"@
        }) + " a different size in the two revisions.** Those sheets were compared at the first document's size with the other cropped. Reissue the two revisions at the same paper size to compare them.\n"@
    } else {
        Seq::empty()
    }
}

/// The report's opening: what was compared, how, and anything a reader of the
/// numbers needs to know to trust them.
pub open spec fn header(s: Session, scanned: Seq<SheetChanges>, texts: Seq<Vec<TextChange>>) -> Seq<char> {
    let n = scanned.len() as int;
    intro(s, changed_count(scanned, texts, n)) + tolerance_part(s.spec_options().tolerance as int) + excluded_part(
        s.spec_ignore_rects().len() as int,
    ) + pairing_part(s) + partial_part(n, s.spec_page_count()) + mismatch_part(
        mismatched_count(scanned, texts, n),
    )
}

/// The whole report.
pub open spec fn spec_report(s: Session, scanned: Seq<SheetChanges>, texts: Seq<Vec<TextChange>>) -> Seq<char> {
    if changed_count(scanned, texts, scanned.len() as int) == 0 {
        header(s, scanned, texts) + "\nNothing changed.\n"@
    } else {
        header(s, scanned, texts) + sections(s, scanned, texts, scanned.len() as int)
    }
}

// ---------------------------------------------------------------------------
// Writing it

/// Appends a table cell for `s`.
fn push_cell(out: &mut String, s: &String)
    ensures
        final(out)@ == old(out)@ + cell(s@),
{
    let mut t = String::new();
    let ghost src = s@;
    for ch in it: s.chars()
        invariant
            it.seq() == src,
            t@ == cell_body(src.subrange(0, it.index() as int)),
    {
        proof {
            assert(src.subrange(0, it.index() + 1).drop_last() =~= src.subrange(0, it.index() as int));
        }
        if ch == '\\' {
            push_char(&mut t, '\\');
            push_char(&mut t, '\\');
        } else if ch == '|' {
            push_char(&mut t, '\\');
            push_char(&mut t, '|');
        } else {
            push_char(&mut t, ch);
        }
        proof {
            let p = src.subrange(0, it.index() + 1);
            assert(p.last() == ch);
            if ch == '\\' {
                assert(t@ =~= cell_body(p));
            } else if ch == '|' {
                assert(t@ =~= cell_body(p));
            } else {
                assert(t@ =~= cell_body(p));
            }
        }
    }
    proof {
        assert(src.subrange(0, src.len() as int) =~= src);
    }
    let mut blank = true;
    for ch in it: t.as_str().chars()
        invariant
            it.seq() == cell_body(src),
            blank == forall|i: int| 0 <= i < it.index() ==> #[trigger] char_is_whitespace(it.seq()[i]),
    {
        if !is_whitespace(ch) {
            blank = false;
        }
    }
    if blank {
        push_str(out, "_(blank)_");
    } else {
        push_char(out, '`');
        push_string(out, &t);
        push_char(out, '`');
        proof {
            assert("`"@ =~= seq!['`']) by {
                reveal_strlit("`");
            }
            assert(out@ =~= old(out)@ + cell(src));
        }
    }
}

/// Appends a sheet's heading.
fn push_title(out: &mut String, page_no: i32, page_a: i32, page_b: i32)
    ensures
        final(out)@ == old(out)@ + title(page_no as int, page_a as int, page_b as int),
{
    push_str(out, "Sheet ");
    push_int(out, page_no as i64);
    if page_a == 0 {
        push_str(out, " — added in the later revision");
    } else if page_b == 0 {
        push_str(out, " — removed");
    } else if page_a != page_b {
        push_str(out, " (earlier sheet ");
        push_int(out, page_a as i64);
        push_str(out, ", later sheet ");
        push_int(out, page_b as i64);
        push_str(out, ")");
    }
    proof {
        assert(out@ =~= old(out)@ + title(page_no as int, page_a as int, page_b as int));
    }
}

/// Appends the notes about a sheet's drawing, and the full stop after them,
/// when there are any.
fn push_notes(out: &mut String, regions: usize, ignored: i32, coverage: u32)
    ensures
        final(out)@ == old(out)@ + (if notes(regions as int, ignored as int, coverage as int).len() > 0 {
            notes(regions as int, ignored as int, coverage as int) + ".\n\n"@
        } else {
            Seq::empty()
        }),
{
    let mut n = String::new();
    let mut any = false;
    if regions > 0 {
        if regions == 1 {
            push_str(&mut n, "1 region of the drawing differs");
        } else {
            push_count(&mut n, regions);
            push_str(&mut n, " regions of the drawing differ");
        }
        any = true;
    }
    if ignored > 0 {
        if any {
            push_str(&mut n, "; ");
        }
        push_int(&mut n, ignored as i64);
        push_str(&mut n, " inside an excluded region, not compared");
        any = true;
    }
    if coverage >= 2500 {
        if any {
            push_str(&mut n, "; ");
        }
        push_str(&mut n, "they cover about ");
        push_int(&mut n, ((coverage as i64) + 50) / 100);
        push_str(&mut n, "% of the sheet, so it was substantially redrawn");
        any = true;
    }
    let ghost ns = notes(regions as int, ignored as int, coverage as int);
    proof {
        assert(n@ =~= ns);
        crate::text::lemma_dec_nonempty(regions as int);
        crate::text::lemma_dec_nonempty(ignored as int);
        crate::text::lemma_dec_nonempty((coverage + 50) / 100);
        reveal_strlit("1 region of the drawing differs");
        if !any {
            assert(ns.len() == 0);
        } else {
            assert(ns.len() > 0);
        }
    }
    if any {
        push_string(out, &n);
        push_str(out, ".\n\n");
        proof {
            assert(out@ =~= old(out)@ + (ns + ".\n\n"@));
        }
    } else {
        proof {
            assert(out@ =~= old(out)@ + Seq::<char>::empty());
        }
    }
}

/// Appends one table row.
fn push_row(out: &mut String, c: &TextChange)
    requires
        c.kind != TextChangeKind::Moved,
    ensures
        final(out)@ == old(out)@ + row(c@),
{
    push_str(out, "| ");
    match c.kind {
        TextChangeKind::Changed => {
            push_cell(out, &c.before);
            push_str(out, " | ");
            push_cell(out, &c.after);
        },
        TextChangeKind::Removed => {
            push_cell(out, &c.before);
            push_str(out, " | ");
            push_str(out, "_removed_");
        },
        _ => {
            push_str(out, "_added_");
            push_str(out, " | ");
            push_cell(out, &c.after);
        },
    }
    push_str(out, " |\n");
    proof {
        assert(out@ =~= old(out)@ + row(c@));
    }
}

/// Appends what a sheet's words say.
fn push_text_part(out: &mut String, text: &Vec<TextChange>)
    ensures
        final(out)@ == old(out)@ + text_part(crate::words::change_views(text@)),
{
    let ghost tv = crate::words::change_views(text@);
    let mut moved: usize = 0;
    let mut items: Vec<usize> = Vec::new();
    let mut i: usize = 0;
    while i < text.len()
        invariant
            tv == crate::words::change_views(text@),
            i <= text@.len(),
            moved == moved_count(tv, i as int),
            moved <= i,
            items@.len() == listed(tv, i as int).len(),
            forall|k: int| 0 <= k < items@.len() ==> #[trigger] items@[k] < text@.len(),
            forall|k: int| 0 <= k < items@.len() ==> tv[#[trigger] items@[k] as int] == listed(tv, i as int)[k],
            forall|k: int| 0 <= k < items@.len() ==> text@[#[trigger] items@[k] as int].kind != TextChangeKind::Moved,
        decreases text@.len() - i,
    {
        if text[i].kind == TextChangeKind::Moved {
            moved = moved + 1;
        } else {
            items.push(i);
        }
        i = i + 1;
    }
    let ghost it = listed(tv, tv.len() as int);
    if moved > 0 {
        push_count(out, moved);
        push_str(out, " piece");
        if moved != 1 {
            push_str(out, "s");
        }
        push_str(out, " of text moved without changing.\n\n");
    }
    let ghost after_head = out@;
    proof {
        let m = moved_count(tv, tv.len() as int);
        let head = if m > 0 {
            dec(m) + " piece"@ + (if m == 1 {
                Seq::empty()
            } else {
                "s"@
            }) + " of text moved without changing.\n\n"@
        } else {
            Seq::empty()
        };
        assert(after_head =~= old(out)@ + head);
    }
    if items.len() == 0 {
        push_str(out, "Nothing reads differently; the differences are in the drawing itself.\n");
        proof {
            assert(out@ =~= old(out)@ + text_part(tv));
        }
        return;
    }
    push_str(out, "| Was | Is now |\n");
    push_str(out, "| --- | --- |\n");
    let shown: usize = if items.len() > MAX_ROWS {
        MAX_ROWS
    } else {
        items.len()
    };
    let ghost before_rows = out@;
    let mut k: usize = 0;
    while k < shown
        invariant
            tv == crate::words::change_views(text@),
            it == listed(tv, tv.len() as int),
            shown <= items@.len(),
            items@.len() == it.len(),
            forall|j: int| 0 <= j < items@.len() ==> #[trigger] items@[j] < text@.len(),
            forall|j: int| 0 <= j < items@.len() ==> tv[#[trigger] items@[j] as int] == it[j],
            forall|j: int| 0 <= j < items@.len() ==> text@[#[trigger] items@[j] as int].kind != TextChangeKind::Moved,
            k <= shown,
            out@ == before_rows + rows(it, k as int),
        decreases shown - k,
    {
        let idx = items[k];
        push_row(out, &text[idx]);
        proof {
            assert(tv[idx as int] == text@[idx as int]@);
            assert(out@ =~= before_rows + rows(it, k + 1));
        }
        k = k + 1;
    }
    if items.len() > MAX_ROWS {
        push_str(out, "\n_");
        push_count(out, items.len() - MAX_ROWS);
        push_str(out, " more, not listed. This sheet was substantially re-laid-out; compare it in the application._\n");
    }
    proof {
        assert(out@ =~= old(out)@ + text_part(tv));
    }
}

fn push_intro(out: &mut String, s: &Session, changed: usize)
    ensures
        final(out)@ == old(out)@ + intro(*s, changed as int),
{
    push_str(out, "# What changed between these two revisions\n\n");
    push_str(out, "- Earlier: `");
    push_str(out, s.path_a());
    push_str(out, "`\n");
    push_str(out, "- Later: `");
    push_str(out, s.path_b());
    push_str(out, "`\n");
    push_str(out, "- ");
    push_int(out, s.page_count() as i64);
    push_str(out, " sheets compared, ");
    push_count(out, changed);
    push_str(out, " with something on them\n");
    proof {
        assert(out@ =~= old(out)@ + intro(*s, changed as int));
    }
}

fn push_tolerance_part(out: &mut String, tol: i32)
    ensures
        final(out)@ == old(out)@ + tolerance_part(tol as int),
{
    push_str(out, "- Tolerance: ");
    push_int(out, tol as i64);
    push_str(out, " device pixel");
    if tol != 1 {
        push_str(out, "s");
    }
    push_str(out, "\n");
    if tol > TOLERANCE_HIDES_MOVEMENT {
        push_str(out, "- **At this tolerance a stroke that merely moved is not reported as a change.**\n");
    }
    proof {
        assert(out@ =~= old(out)@ + tolerance_part(tol as int));
    }
}

fn push_excluded_part(out: &mut String, nign: usize)
    ensures
        final(out)@ == old(out)@ + excluded_part(nign as int),
{
    if nign > 0 {
        push_str(out, "- **");
        push_count(out, nign);
        push_str(
            out,
            " region(s) excluded from the comparison on every sheet.** Anything inside them was not compared.\n",
        );
    }
    proof {
        assert(out@ =~= old(out)@ + excluded_part(nign as int));
    }
}

fn push_pairing_part(out: &mut String, s: &Session)
    ensures
        final(out)@ == old(out)@ + pairing_part(*s),
{
    if s.pairing_is_automatic() {
        push_str(out, "- Sheets were paired by content, not by position\n");
    } else if s.page_delta() != 0 {
        push_str(out, "- Sheet pairing offset by ");
        push_int(out, s.page_delta() as i64);
        push_str(out, "\n");
    }
    proof {
        assert(out@ =~= old(out)@ + pairing_part(*s));
    }
}

fn push_partial_part(out: &mut String, n: usize, pc: i32)
    ensures
        final(out)@ == old(out)@ + partial_part(n as int, pc as int),
{
    if pc > 0 && n < pc as usize {
        push_str(out, "\n> Only ");
        push_count(out, n);
        push_str(out, " of ");
        push_int(out, pc as i64);
        push_str(out, " sheets had been scanned when this was written.\n");
    }
    proof {
        assert(out@ =~= old(out)@ + partial_part(n as int, pc as int));
    }
}

fn push_mismatch_part(out: &mut String, mismatched: usize)
    ensures
        final(out)@ == old(out)@ + mismatch_part(mismatched as int),
{
    if mismatched > 0 {
        push_str(out, "\n> **");
        if mismatched == 1 {
            push_str(out, "One sheet is");
        } else {
            push_count(out, mismatched);
            push_str(out, " sheets are");
        }
        push_str(
            out,
            " a different size in the two revisions.** Those sheets were compared at the first document's size with the other cropped. Reissue the two revisions at the same paper size to compare them.\n",
        );
    }
    proof {
        assert(out@ =~= old(out)@ + mismatch_part(mismatched as int));
    }
}

/// Appends one sheet's section.
fn push_section(out: &mut String, s: &Session, sc: &SheetChanges, text: &Vec<TextChange>)
    ensures
        final(out)@ == old(out)@ + section(*s, *sc, crate::words::change_views(text@)),
{
    let pair = s.pair(sc.page_no);
    push_str(out, "\n## ");
    push_title(out, sc.page_no, pair.page_a, pair.page_b);
    push_str(out, "\n\n");
    if sc.size_mismatch {
        push_str(
            out,
            "> **The two revisions of this sheet are different sizes on paper.** They were compared at the first document's size, with the other cropped, so nothing below is a reliable account of what changed.\n\n",
        );
    }
    push_notes(out, sc.changes.len(), sc.ignored, sc.coverage);
    push_text_part(out, text);
    proof {
        assert(out@ =~= old(out)@ + section(*s, *sc, crate::words::change_views(text@)));
    }
}

impl Session {
    /// Builds the report from scans already done.
    ///
    /// `scanned` is what the sweep collected, and `texts[i]` what the words of
    /// sheet `scanned[i]` say differently. Taking them as arguments rather than
    /// re-scanning is the point: the caller has the results already, and a
    /// report that quietly re-rendered eighty-five sheets would be a menu item
    /// that appears to hang.
    ///
    /// A sheet is in the report when its drawing or its words differ. The
    /// opening says what was compared and how: the tolerance, and what it
    /// hides; the excluded regions, which are named, not buried; how the sheets
    /// were paired; whether the scan is complete; and how many sheets are
    /// different sizes in the two revisions.
    pub fn report(&self, scanned: &[SheetChanges], texts: &[Vec<TextChange>]) -> (out: String)
        requires
            texts@.len() == scanned@.len(),
        ensures
            out@ == spec_report(*self, scanned@, texts@),
    {
        let ghost sc = scanned@;
        let ghost tx = texts@;
        let n = scanned.len();
        let mut changed: usize = 0;
        let mut mismatched: usize = 0;
        let mut i: usize = 0;
        while i < n
            invariant
                n == sc.len(),
                sc == scanned@,
                tx == texts@,
                tx.len() == sc.len(),
                i <= n,
                changed == changed_count(sc, tx, i as int),
                mismatched == mismatched_count(sc, tx, i as int),
                mismatched <= changed <= i,
            decreases n - i,
        {
            let inr = scanned[i].changes.len() > 0 || texts[i].len() > 0;
            proof {
                assert(text_views(tx, i as int).len() == texts@[i as int]@.len());
            }
            if inr {
                changed = changed + 1;
                if scanned[i].size_mismatch {
                    mismatched = mismatched + 1;
                }
            }
            i = i + 1;
        }
        let mut out = String::new();
        let pc = self.page_count();
        push_intro(&mut out, self, changed);
        push_tolerance_part(&mut out, self.options().tolerance);
        push_excluded_part(&mut out, self.ignore_rects().len());
        push_pairing_part(&mut out, self);
        push_partial_part(&mut out, n, pc);
        push_mismatch_part(&mut out, mismatched);
        proof {
            assert(out@ =~= header(*self, sc, tx));
        }
        if changed == 0 {
            push_str(&mut out, "\nNothing changed.\n");
            return out;
        }
        let ghost head = out@;
        let mut j: usize = 0;
        while j < n
            invariant
                n == sc.len(),
                sc == scanned@,
                tx == texts@,
                tx.len() == sc.len(),
                j <= n,
                out@ == head + sections(*self, sc, tx, j as int),
            decreases n - j,
        {
            let inr = scanned[j].changes.len() > 0 || texts[j].len() > 0;
            proof {
                assert(text_views(tx, j as int).len() == texts@[j as int]@.len());
            }
            if inr {
                push_section(&mut out, self, &scanned[j], &texts[j]);
            }
            proof {
                assert(out@ =~= head + sections(*self, sc, tx, j + 1));
            }
            j = j + 1;
        }
        out
    }
}

} // verus!
