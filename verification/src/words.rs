use vstd::prelude::*;

use crate::geom::PageRect;

verus! {

/// One word and where it sits on the page, in thousandths of a point.
#[derive(Clone, Debug)]
pub struct Word {
    pub text: String,
    pub rect: PageRect,
}

/// A word as the comparison sees it: its characters and its rectangle.
pub type WordView = (Seq<char>, PageRect);

impl View for Word {
    type V = WordView;

    open spec fn view(&self) -> WordView {
        (self.text@, self.rect)
    }
}

impl Word {
    pub fn new(text: &str, rect: PageRect) -> (w: Self)
        ensures
            w@ == (text@, rect),
    {
        Word { text: String::from_str(text), rect }
    }
}

/// What happened to a piece of text between the two revisions.
#[derive(Clone, Copy, PartialEq, Eq, Debug, Structural)]
pub enum TextChangeKind {
    /// In the later revision only.
    Added,
    /// In the earlier revision only.
    Removed,
    /// In the same place on both, saying something different.
    Changed,
    /// The same text, elsewhere on the sheet.
    Moved,
}

#[derive(Clone, Debug)]
pub struct TextChange {
    pub kind: TextChangeKind,
    /// What the earlier revision said. Empty for an addition.
    pub before: String,
    /// What the later one says. Empty for a removal.
    pub after: String,
    /// Where it is, in page space, taken from whichever side has it.
    pub rect: PageRect,
}

/// A text change as the comparison sees it: kind, both readings, and place.
pub type ChangeView = (TextChangeKind, Seq<char>, Seq<char>, PageRect);

impl View for TextChange {
    type V = ChangeView;

    open spec fn view(&self) -> ChangeView {
        (self.kind, self.before@, self.after@, self.rect)
    }
}

/// How far a word may sit from an *identical* word and still be the same one,
/// in thousandths of a point on each axis.
///
/// Generous, because matching the text exactly is already strong evidence and
/// the position only has to rule out a different instance of the same string.
/// Across producers the shift reaches 5.4 pt on real sets.
pub const SAME_WORD: i64 = 6000;

/// How far a word may sit from a *different* word and still be taken as a
/// change to it, in thousandths of a point on each axis. Tight: nothing but the
/// position says these two are the same label.
pub const SAME_PLACE: i64 = 2000;

/// How far apart two copies of the same text have to be before they are two
/// things rather than one thing drawn twice, in thousandths of a point.
pub const SAME_STAMP: i64 = 1000;

pub open spec fn abs_int(v: int) -> int {
    if v < 0 {
        -v
    } else {
        v
    }
}

/// The views of a list of words.
pub open spec fn word_views(ws: Seq<Word>) -> Seq<WordView> {
    ws.map_values(|w: Word| w@)
}

/// The views of a list of text changes.
pub open spec fn change_views(cs: Seq<TextChange>) -> Seq<ChangeView> {
    cs.map_values(|c: TextChange| c@)
}

// ---------------------------------------------------------------------------
// Stamps drawn on top of themselves

/// `w` is the same text as `o` drawn within a point of it on each axis.
pub open spec fn is_stamp_of(o: WordView, w: WordView) -> bool {
    &&& o.0 == w.0
    &&& abs_int(o.1.x - w.1.x) <= SAME_STAMP
    &&& abs_int(o.1.y - w.1.y) <= SAME_STAMP
}

pub open spec fn has_stamp(kept: Seq<WordView>, w: WordView) -> bool {
    exists|i: int| 0 <= i < kept.len() && #[trigger] is_stamp_of(kept[i], w)
}

/// The words in order, leaving out each one that repeats an earlier kept word
/// at the same place.
pub open spec fn dedupe(ws: Seq<WordView>) -> Seq<WordView>
    decreases ws.len(),
{
    if ws.len() == 0 {
        Seq::empty()
    } else {
        let d = dedupe(ws.drop_last());
        if has_stamp(d, ws.last()) {
            d
        } else {
            d.push(ws.last())
        }
    }
}

// ---------------------------------------------------------------------------
// Nearest words

/// Distance used to rank candidates: the horizontal plus the vertical offset.
pub open spec fn dist(a: PageRect, b: PageRect) -> int {
    abs_int(a.x - b.x) + abs_int(a.y - b.y)
}

/// Word `j` is a candidate for `w`: not yet used, within `tol` on each axis,
/// and, when `same_text`, reading the same.
pub open spec fn eligible(words: Seq<WordView>, used: Seq<bool>, w: WordView, tol: int, same_text: bool, j: int) -> bool {
    &&& !used[j]
    &&& (same_text ==> words[j].0 == w.0)
    &&& abs_int(words[j].1.x - w.1.x) <= tol
    &&& abs_int(words[j].1.y - w.1.y) <= tol
}

/// The nearest candidate among the first `k` words; the first of them on a tie.
pub open spec fn nearest_upto(words: Seq<WordView>, used: Seq<bool>, w: WordView, tol: int, same_text: bool, k: int) -> Option<int>
    decreases k,
{
    if k <= 0 {
        None
    } else {
        let b = nearest_upto(words, used, w, tol, same_text, k - 1);
        if eligible(words, used, w, tol, same_text, k - 1) && (b is None || dist(
            words[k - 1].1,
            w.1,
        ) < dist(words[b.unwrap()].1, w.1)) {
            Some(k - 1)
        } else {
            b
        }
    }
}

/// The first unused word among the first `k` that reads `text`.
pub open spec fn first_same_text(words: Seq<WordView>, used: Seq<bool>, text: Seq<char>, k: int) -> Option<int>
    decreases k,
{
    if k <= 0 {
        None
    } else {
        let b = first_same_text(words, used, text, k - 1);
        if b is None && !used[k - 1] && words[k - 1].0 == text {
            Some(k - 1)
        } else {
            b
        }
    }
}

// ---------------------------------------------------------------------------
// The passes

/// Pass 1 over the first `i` earlier words: each takes the nearest identical
/// later word within `SAME_WORD`. Gives the later words used and the earlier
/// words matched.
pub open spec fn pass_same(bef: Seq<WordView>, aft: Seq<WordView>, i: int) -> (Seq<bool>, Seq<bool>)
    decreases i,
{
    if i <= 0 {
        (Seq::new(aft.len(), |j: int| false), Seq::new(bef.len(), |j: int| false))
    } else {
        let (u, m) = pass_same(bef, aft, i - 1);
        match nearest_upto(aft, u, bef[i - 1], SAME_WORD as int, true, aft.len() as int) {
            Some(j) => (u.update(j, true), m.update(i - 1, true)),
            None => (u, m),
        }
    }
}

/// Pass 2 over the first `i` earlier words: each still unmatched one takes the
/// nearest unused later word within `SAME_PLACE`, whatever it says, and that is
/// a change.
pub open spec fn pass_place(bef: Seq<WordView>, aft: Seq<WordView>, i: int) -> (Seq<bool>, Seq<bool>, Seq<ChangeView>)
    decreases i,
{
    if i <= 0 {
        let (u, m) = pass_same(bef, aft, bef.len() as int);
        (u, m, Seq::empty())
    } else {
        let (u, m, out) = pass_place(bef, aft, i - 1);
        if m[i - 1] {
            (u, m, out)
        } else {
            match nearest_upto(aft, u, bef[i - 1], SAME_PLACE as int, false, aft.len() as int) {
                Some(j) => (
                    u.update(j, true),
                    m.update(i - 1, true),
                    out.push((TextChangeKind::Changed, bef[i - 1].0, aft[j].0, bef[i - 1].1)),
                ),
                None => (u, m, out),
            }
        }
    }
}

/// Pass 3 over the first `i` earlier words: each still unmatched one takes the
/// first unused later word with the same text anywhere, and that is a move,
/// placed where the text was.
pub open spec fn pass_moved(bef: Seq<WordView>, aft: Seq<WordView>, i: int) -> (Seq<bool>, Seq<bool>, Seq<ChangeView>)
    decreases i,
{
    if i <= 0 {
        pass_place(bef, aft, bef.len() as int)
    } else {
        let (u, m, out) = pass_moved(bef, aft, i - 1);
        if m[i - 1] {
            (u, m, out)
        } else {
            match first_same_text(aft, u, bef[i - 1].0, aft.len() as int) {
                Some(j) => (
                    u.update(j, true),
                    m.update(i - 1, true),
                    out.push((TextChangeKind::Moved, bef[i - 1].0, bef[i - 1].0, bef[i - 1].1)),
                ),
                None => (u, m, out),
            }
        }
    }
}

/// The earlier words still unmatched, among the first `i`, as removals.
pub open spec fn removals(bef: Seq<WordView>, m: Seq<bool>, i: int) -> Seq<ChangeView>
    decreases i,
{
    if i <= 0 {
        Seq::empty()
    } else if m[i - 1] {
        removals(bef, m, i - 1)
    } else {
        removals(bef, m, i - 1).push((TextChangeKind::Removed, bef[i - 1].0, Seq::empty(), bef[i - 1].1))
    }
}

/// The later words still unused, among the first `j`, as additions.
pub open spec fn additions(aft: Seq<WordView>, u: Seq<bool>, j: int) -> Seq<ChangeView>
    decreases j,
{
    if j <= 0 {
        Seq::empty()
    } else if u[j - 1] {
        additions(aft, u, j - 1)
    } else {
        additions(aft, u, j - 1).push((TextChangeKind::Added, Seq::empty(), aft[j - 1].0, aft[j - 1].1))
    }
}

/// Every change, before sorting: changes and moves in the order found, then
/// removals, then additions.
pub open spec fn unsorted_changes(bef: Seq<WordView>, aft: Seq<WordView>) -> Seq<ChangeView> {
    let (u, m, out) = pass_moved(bef, aft, bef.len() as int);
    out + removals(bef, m, bef.len() as int) + additions(aft, u, aft.len() as int)
}

// ---------------------------------------------------------------------------
// Reading order

/// `a` comes after `b` in reading order: lower on the page, or level and
/// further right.
pub open spec fn reads_after(a: ChangeView, b: ChangeView) -> bool {
    a.3.y > b.3.y || (a.3.y == b.3.y && a.3.x > b.3.x)
}

/// Where `c` goes in `s`: before the first of its first `k` elements that reads
/// after it, or at `k` when none does.
pub open spec fn insert_pos(s: Seq<ChangeView>, c: ChangeView, k: int) -> int
    decreases k,
{
    if k <= 0 {
        0
    } else {
        let p = insert_pos(s, c, k - 1);
        if p < k - 1 {
            p
        } else if reads_after(s[k - 1], c) {
            k - 1
        } else {
            k
        }
    }
}

/// `s` sorted into reading order, keeping the order of changes at the same
/// place: each change is placed after everything before it that does not read
/// after it.
pub open spec fn reading_order(s: Seq<ChangeView>) -> Seq<ChangeView>
    decreases s.len(),
{
    if s.len() == 0 {
        Seq::empty()
    } else {
        let r = reading_order(s.drop_last());
        r.insert(insert_pos(r, s.last(), r.len() as int), s.last())
    }
}

/// The text changes between two sheets' words.
pub open spec fn spec_diff_words(before: Seq<WordView>, after: Seq<WordView>) -> Seq<ChangeView> {
    reading_order(unsorted_changes(dedupe(before), dedupe(after)))
}


// ---------------------------------------------------------------------------
// Executable passes

proof fn lemma_views_push(ws: Seq<Word>, w: Word)
    ensures
        word_views(ws.push(w)) == word_views(ws).push(w@),
{
    assert(word_views(ws.push(w)) =~= word_views(ws).push(w@));
}

proof fn lemma_change_views_insert(cs: Seq<TextChange>, i: int, c: TextChange)
    requires
        0 <= i <= cs.len(),
    ensures
        change_views(cs.insert(i, c)) == change_views(cs).insert(i, c@),
{
    assert(change_views(cs.insert(i, c)) =~= change_views(cs).insert(i, c@));
}

fn abs_diff(a: i32, b: i32) -> (d: i64)
    ensures
        d == abs_int(a - b),
{
    let v = a as i64 - b as i64;
    if v < 0 {
        -v
    } else {
        v
    }
}

fn copy_string(s: &String) -> (r: String)
    ensures
        r@ == s@,
{
    s.clone()
}

/// Collapses text drawn more than once in the same place: a word is left out
/// when an earlier kept word reads the same within `SAME_STAMP` on each axis.
fn dedupe_stamps(words: &[Word]) -> (out: Vec<Word>)
    ensures
        word_views(out@) == dedupe(word_views(words@)),
{
    let ghost ws = word_views(words@);
    let mut out: Vec<Word> = Vec::new();
    let mut i: usize = 0;
    while i < words.len()
        invariant
            i <= words@.len(),
            ws == word_views(words@),
            word_views(out@) == dedupe(ws.subrange(0, i as int)),
        decreases words@.len() - i,
    {
        let w = &words[i];
        let mut dup = false;
        let mut k: usize = 0;
        while k < out.len()
            invariant
                k <= out@.len(),
                dup == exists|j: int| 0 <= j < k && #[trigger] is_stamp_of(word_views(out@)[j], w@),
            decreases out@.len() - k,
        {
            let o = &out[k];
            if o.text == w.text && abs_diff(o.rect.x, w.rect.x) <= SAME_STAMP && abs_diff(o.rect.y, w.rect.y)
                <= SAME_STAMP {
                assert(is_stamp_of(word_views(out@)[k as int], w@));
                dup = true;
            }
            k = k + 1;
        }
        proof {
            let pre = ws.subrange(0, i + 1);
            assert(pre.drop_last() =~= ws.subrange(0, i as int));
            assert(pre.last() == w@);
            assert(dup == has_stamp(word_views(out@), w@));
        }
        if !dup {
            let c = Word { text: copy_string(&w.text), rect: w.rect };
            proof {
                lemma_views_push(out@, c);
            }
            out.push(c);
        }
        i = i + 1;
    }
    proof {
        assert(ws.subrange(0, words@.len() as int) =~= ws);
    }
    out
}

/// The nearest unused word to `w` within `tol` on each axis, optionally
/// requiring its text to match exactly; the first of them on a tie.
fn nearest(words: &Vec<Word>, used: &Vec<bool>, w: &Word, tol: i64, same_text: bool) -> (r: Option<usize>)
    requires
        used@.len() == words@.len(),
    ensures
        r == (match nearest_upto(word_views(words@), used@, w@, tol as int, same_text, words@.len() as int) {
            Some(j) => Some(j as usize),
            None => None::<usize>,
        }),
        r matches Some(j) ==> j < words@.len(),
        nearest_upto(word_views(words@), used@, w@, tol as int, same_text, words@.len() as int) matches Some(k) ==> 0 <= k < words@.len(),
{
    let ghost ws = word_views(words@);
    let mut best: Option<usize> = None;
    let mut best_d: i64 = 0;
    let mut j: usize = 0;
    while j < words.len()
        invariant
            j <= words@.len(),
            used@.len() == words@.len(),
            ws == word_views(words@),
            best == (match nearest_upto(ws, used@, w@, tol as int, same_text, j as int) {
                Some(k) => Some(k as usize),
                None => None::<usize>,
            }),
            best matches Some(k) ==> k < j && best_d == dist(ws[k as int].1, w@.1),
            nearest_upto(ws, used@, w@, tol as int, same_text, j as int) matches Some(k) ==> 0 <= k < j,
        decreases words@.len() - j,
    {
        let o = &words[j];
        let dx = abs_diff(o.rect.x, w.rect.x);
        let dy = abs_diff(o.rect.y, w.rect.y);
        let text_ok = !same_text || o.text == w.text;
        if !used[j] && text_ok && dx <= tol && dy <= tol {
            let d = dx + dy;
            let better = match best {
                None => true,
                Some(_) => d < best_d,
            };
            if better {
                best = Some(j);
                best_d = d;
            }
        }
        j = j + 1;
    }
    best
}

/// The first unused word reading `text`.
fn first_same(words: &Vec<Word>, used: &Vec<bool>, text: &String) -> (r: Option<usize>)
    requires
        used@.len() == words@.len(),
    ensures
        r == (match first_same_text(word_views(words@), used@, text@, words@.len() as int) {
            Some(j) => Some(j as usize),
            None => None::<usize>,
        }),
        r matches Some(j) ==> j < words@.len(),
        first_same_text(word_views(words@), used@, text@, words@.len() as int) matches Some(k) ==> 0 <= k < words@.len(),
{
    let ghost ws = word_views(words@);
    let mut j: usize = 0;
    while j < words.len()
        invariant
            j <= words@.len(),
            used@.len() == words@.len(),
            ws == word_views(words@),
            first_same_text(ws, used@, text@, j as int) is None,
        decreases words@.len() - j,
    {
        if !used[j] && words[j].text == *text {
            proof {
                assert(first_same_text(ws, used@, text@, j + 1) == Some(j as int));
                lemma_first_same_stays(ws, used@, text@, j + 1, words@.len() as int);
            }
            return Some(j);
        }
        j = j + 1;
    }
    None
}

proof fn lemma_first_same_stays(ws: Seq<WordView>, used: Seq<bool>, text: Seq<char>, k: int, n: int)
    requires
        k <= n,
        first_same_text(ws, used, text, k) is Some,
    ensures
        first_same_text(ws, used, text, n) == first_same_text(ws, used, text, k),
    decreases n - k,
{
    if k < n {
        lemma_first_same_stays(ws, used, text, k, n - 1);
    }
}

/// Puts `c` into `sorted` before the first change that reads after it.
fn insert_in_reading_order(sorted: &mut Vec<TextChange>, c: TextChange)
    ensures
        change_views(final(sorted)@) == change_views(old(sorted)@).insert(
            insert_pos(change_views(old(sorted)@), c@, old(sorted)@.len() as int),
            c@,
        ),
{
    let ghost cv = change_views(sorted@);
    let mut p: usize = 0;
    while p < sorted.len() && !(sorted[p].rect.y > c.rect.y || (sorted[p].rect.y == c.rect.y
        && sorted[p].rect.x > c.rect.x))
        invariant
            p <= sorted@.len(),
            cv == change_views(sorted@),
            insert_pos(cv, c@, p as int) == p,
        decreases sorted@.len() - p,
    {
        p = p + 1;
    }
    proof {
        lemma_insert_pos_found(cv, c@, p as int, sorted@.len() as int);
        lemma_change_views_insert(sorted@, p as int, c);
    }
    sorted.insert(p, c);
}

proof fn lemma_insert_pos_found(s: Seq<ChangeView>, c: ChangeView, p: int, n: int)
    requires
        0 <= p <= n <= s.len(),
        insert_pos(s, c, p) == p,
        p < n ==> reads_after(s[p], c),
    ensures
        insert_pos(s, c, n) == p,
    decreases n - p,
{
    if p < n {
        if p + 1 < n {
            lemma_insert_pos_found_more(s, c, p, n);
        }
    }
}

proof fn lemma_insert_pos_found_more(s: Seq<ChangeView>, c: ChangeView, p: int, n: int)
    requires
        0 <= p < n <= s.len(),
        insert_pos(s, c, p) == p,
        reads_after(s[p], c),
    ensures
        insert_pos(s, c, n) == p,
    decreases n - p,
{
    if n - 1 > p {
        lemma_insert_pos_found_more(s, c, p, n - 1);
    }
}


fn make_change(kind: TextChangeKind, before: &String, after: &String, rect: PageRect) -> (c: TextChange)
    ensures
        c@ == (kind, before@, after@, rect),
{
    TextChange { kind, before: copy_string(before), after: copy_string(after), rect }
}

/// Compares two sheets' words.
///
/// Stamps drawn on top of themselves count once. Then, in order of how sure each
/// answer is: the same text near the same place (`SAME_WORD`) is unchanged; of
/// what is left, a different text in the same place (`SAME_PLACE`) is a change,
/// with both readings; of what is still left, the same text elsewhere on the
/// sheet has moved; whatever remains is in one revision only. The result is in
/// reading order, changes at one place in the order found.
pub fn diff_words(before: &[Word], after: &[Word]) -> (out: Vec<TextChange>)
    ensures
        change_views(out@) == spec_diff_words(word_views(before@), word_views(after@)),
{
    let before = dedupe_stamps(before);
    let after = dedupe_stamps(after);
    let ghost bef = word_views(before@);
    let ghost aft = word_views(after@);
    let nb = before.len();
    let na = after.len();
    let mut used: Vec<bool> = vec![false; na];
    let mut matched: Vec<bool> = vec![false; nb];
    proof {
        assert(used@ =~= pass_same(bef, aft, 0).0);
        assert(matched@ =~= pass_same(bef, aft, 0).1);
    }

    // 1. Identical text, nearest position.
    let mut i: usize = 0;
    while i < nb
        invariant
            i <= nb,
            nb == before@.len(),
            na == after@.len(),
            bef == word_views(before@),
            aft == word_views(after@),
            used@ == pass_same(bef, aft, i as int).0,
            matched@ == pass_same(bef, aft, i as int).1,
            used@.len() == na,
            matched@.len() == nb,
        decreases nb - i,
    {
        let found = nearest(&after, &used, &before[i], SAME_WORD, true);
        match found {
            Some(j) => {
                used.set(j, true);
                matched.set(i, true);
            },
            None => {},
        }
        i = i + 1;
    }

    let mut sorted: Vec<TextChange> = Vec::new();
    let ghost mut produced: Seq<ChangeView> = Seq::empty();

    // 2. Same place, different text.
    let mut i: usize = 0;
    while i < nb
        invariant
            i <= nb,
            nb == before@.len(),
            na == after@.len(),
            bef == word_views(before@),
            aft == word_views(after@),
            used@ == pass_place(bef, aft, i as int).0,
            matched@ == pass_place(bef, aft, i as int).1,
            produced == pass_place(bef, aft, i as int).2,
            change_views(sorted@) == reading_order(produced),
            used@.len() == na,
            matched@.len() == nb,
        decreases nb - i,
    {
        if !matched[i] {
            let found = nearest(&after, &used, &before[i], SAME_PLACE, false);
            match found {
                Some(j) => {
                    used.set(j, true);
                    matched.set(i, true);
                    let c = make_change(TextChangeKind::Changed, &before[i].text, &after[j].text, before[i].rect);
                    proof {
                        let np = produced.push(c@);
                        assert(np.drop_last() =~= produced);
                        produced = np;
                    }
                    insert_in_reading_order(&mut sorted, c);
                },
                None => {},
            }
        }
        i = i + 1;
    }

    // 3. Of what is still unmatched, the same text somewhere else on the sheet
    // has moved rather than been replaced.
    let mut i: usize = 0;
    while i < nb
        invariant
            i <= nb,
            nb == before@.len(),
            na == after@.len(),
            bef == word_views(before@),
            aft == word_views(after@),
            used@ == pass_moved(bef, aft, i as int).0,
            matched@ == pass_moved(bef, aft, i as int).1,
            produced == pass_moved(bef, aft, i as int).2,
            change_views(sorted@) == reading_order(produced),
            used@.len() == na,
            matched@.len() == nb,
        decreases nb - i,
    {
        if !matched[i] {
            let found = first_same(&after, &used, &before[i].text);
            match found {
                Some(j) => {
                    used.set(j, true);
                    matched.set(i, true);
                    let c = make_change(TextChangeKind::Moved, &before[i].text, &before[i].text, before[i].rect);
                    proof {
                        let np = produced.push(c@);
                        assert(np.drop_last() =~= produced);
                        produced = np;
                    }
                    insert_in_reading_order(&mut sorted, c);
                },
                None => {},
            }
        }
        i = i + 1;
    }

    // 4. Whatever is left belongs to one side only.
    let ghost moved = produced;
    let empty = String::new();
    let mut i: usize = 0;
    while i < nb
        invariant
            i <= nb,
            nb == before@.len(),
            bef == word_views(before@),
            matched@.len() == nb,
            empty@ == Seq::<char>::empty(),
            produced == moved + removals(bef, matched@, i as int),
            change_views(sorted@) == reading_order(produced),
        decreases nb - i,
    {
        if !matched[i] {
            let c = make_change(TextChangeKind::Removed, &before[i].text, &empty, before[i].rect);
            proof {
                let np = produced.push(c@);
                assert(np.drop_last() =~= produced);
                assert(np =~= moved + removals(bef, matched@, i + 1));
                produced = np;
            }
            insert_in_reading_order(&mut sorted, c);
        }
        i = i + 1;
    }
    let ghost with_removed = produced;
    let mut j: usize = 0;
    while j < na
        invariant
            j <= na,
            na == after@.len(),
            aft == word_views(after@),
            used@.len() == na,
            empty@ == Seq::<char>::empty(),
            produced == with_removed + additions(aft, used@, j as int),
            change_views(sorted@) == reading_order(produced),
        decreases na - j,
    {
        if !used[j] {
            let c = make_change(TextChangeKind::Added, &empty, &after[j].text, after[j].rect);
            proof {
                let np = produced.push(c@);
                assert(np.drop_last() =~= produced);
                assert(np =~= with_removed + additions(aft, used@, j + 1));
                produced = np;
            }
            insert_in_reading_order(&mut sorted, c);
        }
        j = j + 1;
    }
    proof {
        assert(produced =~= unsorted_changes(bef, aft));
    }
    sorted
}


// ---------------------------------------------------------------------------
// A sheet against itself

pub open spec fn prefix_flags(i: int, n: int) -> Seq<bool> {
    Seq::new(n as nat, |j: int| j < i)
}

proof fn lemma_nearest_self(ws: Seq<WordView>, k: int, tol: int, m: int)
    requires
        0 <= k < ws.len(),
        tol >= 0,
        k < m <= ws.len(),
    ensures
        nearest_upto(ws, prefix_flags(k, ws.len() as int), ws[k], tol, true, m) == Some(k),
    decreases m,
{
    let used = prefix_flags(k, ws.len() as int);
    if m == k + 1 {
        assert forall|mm: int| 0 <= mm <= k implies nearest_upto(ws, used, ws[k], tol, true, mm) is None by {
            lemma_nearest_none_used(ws, used, ws[k], tol, k, mm);
        }
    } else {
        lemma_nearest_self(ws, k, tol, m - 1);
    }
}

proof fn lemma_nearest_none_used(ws: Seq<WordView>, used: Seq<bool>, w: WordView, tol: int, k: int, m: int)
    requires
        0 <= m <= k,
        forall|j: int| 0 <= j < k ==> used[j],
    ensures
        nearest_upto(ws, used, w, tol, true, m) is None,
    decreases m,
{
    if m > 0 {
        lemma_nearest_none_used(ws, used, w, tol, k, m - 1);
    }
}

proof fn lemma_pass_same_self(ws: Seq<WordView>, i: int)
    requires
        0 <= i <= ws.len(),
    ensures
        pass_same(ws, ws, i).0 == prefix_flags(i, ws.len() as int),
        pass_same(ws, ws, i).1 == prefix_flags(i, ws.len() as int),
    decreases i,
{
    let n = ws.len() as int;
    if i == 0 {
        assert(pass_same(ws, ws, 0).0 =~= prefix_flags(0, n));
        assert(pass_same(ws, ws, 0).1 =~= prefix_flags(0, n));
    } else {
        lemma_pass_same_self(ws, i - 1);
        lemma_nearest_self(ws, i - 1, SAME_WORD as int, n);
        assert(prefix_flags(i - 1, n).update(i - 1, true) =~= prefix_flags(i, n));
    }
}

proof fn lemma_all_matched_place(ws: Seq<WordView>, i: int)
    requires
        0 <= i <= ws.len(),
    ensures
        pass_place(ws, ws, i) == (prefix_flags(ws.len() as int, ws.len() as int), prefix_flags(ws.len() as int, ws.len() as int), Seq::<ChangeView>::empty()),
    decreases i,
{
    if i == 0 {
        lemma_pass_same_self(ws, ws.len() as int);
    } else {
        lemma_all_matched_place(ws, i - 1);
    }
}

proof fn lemma_all_matched_moved(ws: Seq<WordView>, i: int)
    requires
        0 <= i <= ws.len(),
    ensures
        pass_moved(ws, ws, i) == (prefix_flags(ws.len() as int, ws.len() as int), prefix_flags(ws.len() as int, ws.len() as int), Seq::<ChangeView>::empty()),
    decreases i,
{
    if i == 0 {
        lemma_all_matched_place(ws, ws.len() as int);
    } else {
        lemma_all_matched_moved(ws, i - 1);
    }
}

proof fn lemma_none_left(ws: Seq<WordView>, flags: Seq<bool>, i: int)
    requires
        0 <= i <= flags.len(),
        forall|j: int| 0 <= j < flags.len() ==> flags[j],
    ensures
        removals(ws, flags, i) == Seq::<ChangeView>::empty(),
        additions(ws, flags, i) == Seq::<ChangeView>::empty(),
    decreases i,
{
    if i > 0 {
        lemma_none_left(ws, flags, i - 1);
    }
}

/// A sheet compared with itself reads no differently: there are no text
/// changes, whatever words it carries.
pub proof fn law_same_words_no_text_changes(words: Seq<WordView>)
    ensures
        spec_diff_words(words, words) == Seq::<ChangeView>::empty(),
{
    let d = dedupe(words);
    let n = d.len() as int;
    lemma_all_matched_moved(d, n);
    lemma_none_left(d, prefix_flags(n, n), n);
    assert(unsorted_changes(d, d) =~= Seq::<ChangeView>::empty());
}

// ---------------------------------------------------------------------------
// Every word accounted for once

/// How many changes of a list are of kind `kind`.
pub open spec fn count_kind(s: Seq<ChangeView>, kind: TextChangeKind) -> int
    decreases s.len(),
{
    if s.len() == 0 {
        0
    } else {
        count_kind(s.drop_last(), kind) + if s.last().0 == kind {
            1int
        } else {
            0int
        }
    }
}

/// How many of the first `k` flags are unset.
pub open spec fn unset(f: Seq<bool>, k: int) -> int
    decreases k,
{
    if k <= 0 {
        0
    } else {
        unset(f, k - 1) + if f[k - 1] {
            0int
        } else {
            1int
        }
    }
}

proof fn lemma_count_add(a: Seq<ChangeView>, b: Seq<ChangeView>, kind: TextChangeKind)
    ensures
        count_kind(a + b, kind) == count_kind(a, kind) + count_kind(b, kind),
    decreases b.len(),
{
    if b.len() == 0 {
        assert(a + b =~= a);
    } else {
        lemma_count_add(a, b.drop_last(), kind);
        assert((a + b).drop_last() =~= a + b.drop_last());
        assert((a + b).last() == b.last());
    }
}

proof fn lemma_insert_pos_range(s: Seq<ChangeView>, c: ChangeView, k: int)
    requires
        0 <= k,
    ensures
        0 <= insert_pos(s, c, k) <= k,
    decreases k,
{
    if k > 0 {
        lemma_insert_pos_range(s, c, k - 1);
    }
}

/// Sorting into reading order only moves changes about.
proof fn lemma_reading_order_counts(s: Seq<ChangeView>, kind: TextChangeKind)
    ensures
        count_kind(reading_order(s), kind) == count_kind(s, kind),
    decreases s.len(),
{
    if s.len() > 0 {
        let r = reading_order(s.drop_last());
        lemma_reading_order_counts(s.drop_last(), kind);
        lemma_insert_pos_range(r, s.last(), r.len() as int);
        let p = insert_pos(r, s.last(), r.len() as int);
        let lo = r.subrange(0, p);
        let hi = r.subrange(p, r.len() as int);
        assert(r.insert(p, s.last()) =~= lo + seq![s.last()] + hi);
        assert(r =~= lo + hi);
        lemma_count_add(lo + seq![s.last()], hi, kind);
        lemma_count_add(lo, seq![s.last()], kind);
        lemma_count_add(lo, hi, kind);
        let one = seq![s.last()];
        assert(one.drop_last() =~= Seq::<ChangeView>::empty());
        assert(one.last() == s.last());
        assert(count_kind(one.drop_last(), kind) == 0);
        assert(count_kind(seq![s.last()], kind) == (if s.last().0 == kind {
            1int
        } else {
            0int
        }));
        assert(reading_order(s) == r.insert(p, s.last()));
        assert(count_kind(reading_order(s), kind) == count_kind(lo + seq![s.last()] + hi, kind));
        assert(count_kind(r, kind) == count_kind(lo + hi, kind));
    }
}

proof fn lemma_unset_update(f: Seq<bool>, j: int, k: int)
    requires
        0 <= j < f.len(),
        0 <= k <= f.len(),
    ensures
        unset(f.update(j, true), k) == unset(f, k) - (if j < k && !f[j] {
            1int
        } else {
            0int
        }),
    decreases k,
{
    if k > 0 {
        lemma_unset_update(f, j, k - 1);
    }
}

proof fn lemma_unset_range(f: Seq<bool>, k: int)
    requires
        0 <= k,
    ensures
        0 <= unset(f, k) <= k,
    decreases k,
{
    if k > 0 {
        lemma_unset_range(f, k - 1);
    }
}

proof fn lemma_unset_none(n: int, k: int)
    requires
        0 <= k <= n,
    ensures
        unset(Seq::new(n as nat, |j: int| false), k) == k,
    decreases k,
{
    if k > 0 {
        lemma_unset_none(n, k - 1);
    }
}

proof fn lemma_nearest_unused(words: Seq<WordView>, used: Seq<bool>, w: WordView, tol: int, same_text: bool, k: int)
    ensures
        nearest_upto(words, used, w, tol, same_text, k) matches Some(j) ==> 0 <= j < k && !used[j],
    decreases k,
{
    if k > 0 {
        lemma_nearest_unused(words, used, w, tol, same_text, k - 1);
    }
}

proof fn lemma_first_same_unused(words: Seq<WordView>, used: Seq<bool>, text: Seq<char>, k: int)
    ensures
        first_same_text(words, used, text, k) matches Some(j) ==> 0 <= j < k && !used[j],
    decreases k,
{
    if k > 0 {
        lemma_first_same_unused(words, used, text, k - 1);
    }
}

/// The later and earlier words used up by the first pass, taken in pairs.
proof fn lemma_pass_same_counts(bef: Seq<WordView>, aft: Seq<WordView>, i: int)
    requires
        0 <= i <= bef.len(),
    ensures
        pass_same(bef, aft, i).0.len() == aft.len(),
        pass_same(bef, aft, i).1.len() == bef.len(),
        forall|t: int| i <= t < bef.len() ==> !#[trigger] pass_same(bef, aft, i).1[t],
        unset(pass_same(bef, aft, i).0, aft.len() as int) - unset(pass_same(bef, aft, i).1, bef.len() as int)
            == aft.len() - bef.len(),
    decreases i,
{
    if i == 0 {
        lemma_unset_none(aft.len() as int, aft.len() as int);
        lemma_unset_none(bef.len() as int, bef.len() as int);
    } else {
        lemma_pass_same_counts(bef, aft, i - 1);
        let (u, m) = pass_same(bef, aft, i - 1);
        lemma_nearest_unused(aft, u, bef[i - 1], SAME_WORD as int, true, aft.len() as int);
        match nearest_upto(aft, u, bef[i - 1], SAME_WORD as int, true, aft.len() as int) {
            Some(j) => {
                lemma_unset_update(u, j, aft.len() as int);
                lemma_unset_update(m, i - 1, bef.len() as int);
            },
            None => {},
        }
    }
}

/// What the passes leave: as many later as earlier words used, and one change
/// recorded for each pair taken after the first pass, each a change or a move.
pub open spec fn pass_counts(bef: Seq<WordView>, aft: Seq<WordView>, st: (Seq<bool>, Seq<bool>, Seq<ChangeView>)) -> bool {
    let (u, m, out) = st;
    &&& u.len() == aft.len()
    &&& m.len() == bef.len()
    &&& unset(u, aft.len() as int) - unset(m, bef.len() as int) == aft.len() - bef.len()
    &&& out.len() + unset(u, aft.len() as int) <= aft.len()
    &&& count_kind(out, TextChangeKind::Added) == 0
    &&& count_kind(out, TextChangeKind::Removed) == 0
    &&& count_kind(out, TextChangeKind::Changed) + count_kind(out, TextChangeKind::Moved) == out.len()
}

proof fn lemma_count_push(out: Seq<ChangeView>, c: ChangeView)
    ensures
        forall|kind: TextChangeKind| #[trigger] count_kind(out.push(c), kind) == count_kind(out, kind) + if c.0 == kind {
            1int
        } else {
            0int
        },
{
    assert forall|kind: TextChangeKind| #[trigger] count_kind(out.push(c), kind) == count_kind(out, kind) + if c.0
        == kind {
        1int
    } else {
        0int
    } by {
        assert(out.push(c).drop_last() =~= out);
    }
}

proof fn lemma_pass_place_counts(bef: Seq<WordView>, aft: Seq<WordView>, i: int)
    requires
        0 <= i <= bef.len(),
    ensures
        pass_counts(bef, aft, pass_place(bef, aft, i)),
    decreases i,
{
    if i == 0 {
        lemma_pass_same_counts(bef, aft, bef.len() as int);
        let (u, m) = pass_same(bef, aft, bef.len() as int);
        lemma_unset_range(u, aft.len() as int);
    } else {
        lemma_pass_place_counts(bef, aft, i - 1);
        let (u, m, out) = pass_place(bef, aft, i - 1);
        if !m[i - 1] {
            lemma_nearest_unused(aft, u, bef[i - 1], SAME_PLACE as int, false, aft.len() as int);
            match nearest_upto(aft, u, bef[i - 1], SAME_PLACE as int, false, aft.len() as int) {
                Some(j) => {
                    lemma_unset_update(u, j, aft.len() as int);
                    lemma_unset_update(m, i - 1, bef.len() as int);
                    lemma_count_push(out, (TextChangeKind::Changed, bef[i - 1].0, aft[j].0, bef[i - 1].1));
                },
                None => {},
            }
        }
    }
}

proof fn lemma_pass_moved_counts(bef: Seq<WordView>, aft: Seq<WordView>, i: int)
    requires
        0 <= i <= bef.len(),
    ensures
        pass_counts(bef, aft, pass_moved(bef, aft, i)),
    decreases i,
{
    if i == 0 {
        lemma_pass_place_counts(bef, aft, bef.len() as int);
    } else {
        lemma_pass_moved_counts(bef, aft, i - 1);
        let (u, m, out) = pass_moved(bef, aft, i - 1);
        if !m[i - 1] {
            lemma_first_same_unused(aft, u, bef[i - 1].0, aft.len() as int);
            match first_same_text(aft, u, bef[i - 1].0, aft.len() as int) {
                Some(j) => {
                    lemma_unset_update(u, j, aft.len() as int);
                    lemma_unset_update(m, i - 1, bef.len() as int);
                    lemma_count_push(out, (TextChangeKind::Moved, bef[i - 1].0, bef[i - 1].0, bef[i - 1].1));
                },
                None => {},
            }
        }
    }
}

proof fn lemma_removal_counts(bef: Seq<WordView>, m: Seq<bool>, i: int)
    requires
        0 <= i,
    ensures
        count_kind(removals(bef, m, i), TextChangeKind::Removed) == unset(m, i),
        count_kind(removals(bef, m, i), TextChangeKind::Added) == 0,
        count_kind(removals(bef, m, i), TextChangeKind::Changed) == 0,
        count_kind(removals(bef, m, i), TextChangeKind::Moved) == 0,
    decreases i,
{
    if i > 0 {
        lemma_removal_counts(bef, m, i - 1);
        if !m[i - 1] {
            lemma_count_push(removals(bef, m, i - 1), (TextChangeKind::Removed, bef[i - 1].0, Seq::empty(), bef[i - 1].1));
        }
    }
}

proof fn lemma_addition_counts(aft: Seq<WordView>, u: Seq<bool>, j: int)
    requires
        0 <= j,
    ensures
        count_kind(additions(aft, u, j), TextChangeKind::Added) == unset(u, j),
        count_kind(additions(aft, u, j), TextChangeKind::Removed) == 0,
        count_kind(additions(aft, u, j), TextChangeKind::Changed) == 0,
        count_kind(additions(aft, u, j), TextChangeKind::Moved) == 0,
    decreases j,
{
    if j > 0 {
        lemma_addition_counts(aft, u, j - 1);
        if !u[j - 1] {
            lemma_count_push(additions(aft, u, j - 1), (TextChangeKind::Added, Seq::empty(), aft[j - 1].0, aft[j - 1].1));
        }
    }
}

/// Every word is accounted for at most once. Once stamps drawn on top of
/// themselves are collapsed, each later word is behind at most one addition,
/// change or move, and each earlier word behind at most one removal, change or
/// move; a word paired with one on the other side is never also reported as
/// added or removed, so what one side gains over the other is exactly what the
/// additions outnumber the removals by.
pub proof fn law_every_word_is_accounted_for_once(before: Seq<WordView>, after: Seq<WordView>)
    ensures
        ({
            let out = spec_diff_words(before, after);
            let nb = dedupe(before).len() as int;
            let na = dedupe(after).len() as int;
            &&& count_kind(out, TextChangeKind::Added) + count_kind(out, TextChangeKind::Changed) + count_kind(
                out,
                TextChangeKind::Moved,
            ) <= na
            &&& count_kind(out, TextChangeKind::Removed) + count_kind(out, TextChangeKind::Changed) + count_kind(
                out,
                TextChangeKind::Moved,
            ) <= nb
            &&& count_kind(out, TextChangeKind::Added) + nb == count_kind(out, TextChangeKind::Removed) + na
        }),
{
    let bef = dedupe(before);
    let aft = dedupe(after);
    lemma_pass_moved_counts(bef, aft, bef.len() as int);
    let (u, m, out) = pass_moved(bef, aft, bef.len() as int);
    let rem = removals(bef, m, bef.len() as int);
    let add = additions(aft, u, aft.len() as int);
    lemma_removal_counts(bef, m, bef.len() as int);
    lemma_addition_counts(aft, u, aft.len() as int);
    lemma_unset_range(m, bef.len() as int);
    let all = unsorted_changes(bef, aft);
    assert(all == out + rem + add);
    let kinds = seq![TextChangeKind::Added, TextChangeKind::Removed, TextChangeKind::Changed, TextChangeKind::Moved];
    assert forall|t: int| 0 <= t < 4 implies #[trigger] count_kind(reading_order(all), kinds[t]) == count_kind(out, kinds[t])
        + count_kind(rem, kinds[t]) + count_kind(add, kinds[t]) by {
        lemma_count_add(out, rem, kinds[t]);
        lemma_count_add(out + rem, add, kinds[t]);
        lemma_reading_order_counts(all, kinds[t]);
    }
    assert(count_kind(reading_order(all), kinds[0]) == count_kind(out, kinds[0]) + count_kind(rem, kinds[0]) + count_kind(add, kinds[0]));
    assert(count_kind(reading_order(all), kinds[1]) == count_kind(out, kinds[1]) + count_kind(rem, kinds[1]) + count_kind(add, kinds[1]));
    assert(count_kind(reading_order(all), kinds[2]) == count_kind(out, kinds[2]) + count_kind(rem, kinds[2]) + count_kind(add, kinds[2]));
    assert(count_kind(reading_order(all), kinds[3]) == count_kind(out, kinds[3]) + count_kind(rem, kinds[3]) + count_kind(add, kinds[3]));
}

// ---------------------------------------------------------------------------
// Every change is backed by the words

/// What a change claims is backed by the words on the two sides: an addition
/// is a later word, a removal an earlier one; a change is an earlier word with
/// a later one of other text within `SAME_PLACE` on each axis; a move is an
/// earlier word whose text a later word also reads.
pub open spec fn backed_by(before: Seq<WordView>, after: Seq<WordView>, c: ChangeView) -> bool {
    match c.0 {
        TextChangeKind::Added => c.1 == Seq::<char>::empty() && after.contains((c.2, c.3)),
        TextChangeKind::Removed => c.2 == Seq::<char>::empty() && before.contains((c.1, c.3)),
        TextChangeKind::Changed => before.contains((c.1, c.3)) && exists|j: int|
            0 <= j < after.len() && (#[trigger] after[j]).0 == c.2 && abs_int(after[j].1.x - c.3.x) <= SAME_PLACE
                && abs_int(after[j].1.y - c.3.y) <= SAME_PLACE,
        TextChangeKind::Moved => c.1 == c.2 && before.contains((c.1, c.3)) && exists|j: int|
            0 <= j < after.len() && (#[trigger] after[j]).0 == c.1,
    }
}

pub open spec fn all_backed(before: Seq<WordView>, after: Seq<WordView>, s: Seq<ChangeView>) -> bool {
    forall|k: int| 0 <= k < s.len() ==> backed_by(before, after, #[trigger] s[k])
}

proof fn lemma_dedupe_from(ws: Seq<WordView>)
    ensures
        forall|k: int| 0 <= k < dedupe(ws).len() ==> ws.contains(#[trigger] dedupe(ws)[k]),
    decreases ws.len(),
{
    if ws.len() > 0 {
        lemma_dedupe_from(ws.drop_last());
        let d = dedupe(ws.drop_last());
        assert forall|k: int| 0 <= k < dedupe(ws).len() implies ws.contains(#[trigger] dedupe(ws)[k]) by {
            if k < d.len() {
                assert(dedupe(ws)[k] == d[k]);
                let t = choose|t: int| 0 <= t < ws.drop_last().len() && ws.drop_last()[t] == d[k];
                assert(ws[t] == d[k]);
            } else {
                assert(dedupe(ws)[k] == ws.last());
                assert(ws[ws.len() - 1] == ws.last());
            }
        }
    }
}

proof fn lemma_nearest_eligible(words: Seq<WordView>, used: Seq<bool>, w: WordView, tol: int, same_text: bool, k: int)
    ensures
        nearest_upto(words, used, w, tol, same_text, k) matches Some(j) ==> 0 <= j < k && eligible(
            words,
            used,
            w,
            tol,
            same_text,
            j,
        ),
    decreases k,
{
    if k > 0 {
        lemma_nearest_eligible(words, used, w, tol, same_text, k - 1);
    }
}

proof fn lemma_first_same_reads(words: Seq<WordView>, used: Seq<bool>, text: Seq<char>, k: int)
    ensures
        first_same_text(words, used, text, k) matches Some(j) ==> 0 <= j < k && words[j].0 == text,
    decreases k,
{
    if k > 0 {
        lemma_first_same_reads(words, used, text, k - 1);
    }
}

proof fn lemma_backed_push(before: Seq<WordView>, after: Seq<WordView>, s: Seq<ChangeView>, c: ChangeView)
    requires
        all_backed(before, after, s),
        backed_by(before, after, c),
    ensures
        all_backed(before, after, s.push(c)),
{
    assert forall|k: int| 0 <= k < s.push(c).len() implies backed_by(before, after, #[trigger] s.push(c)[k]) by {
        if k < s.len() {
            assert(s.push(c)[k] == s[k]);
        }
    }
}

proof fn lemma_place_backed(bef: Seq<WordView>, aft: Seq<WordView>, i: int)
    requires
        0 <= i <= bef.len(),
    ensures
        all_backed(bef, aft, pass_place(bef, aft, i).2),
        pass_place(bef, aft, i).1.len() == bef.len(),
    decreases i,
{
    if i == 0 {
        lemma_pass_same_counts(bef, aft, bef.len() as int);
    } else {
        lemma_place_backed(bef, aft, i - 1);
        let (u, m, out) = pass_place(bef, aft, i - 1);
        if !m[i - 1] {
            lemma_nearest_eligible(aft, u, bef[i - 1], SAME_PLACE as int, false, aft.len() as int);
            match nearest_upto(aft, u, bef[i - 1], SAME_PLACE as int, false, aft.len() as int) {
                Some(j) => {
                    let c = (TextChangeKind::Changed, bef[i - 1].0, aft[j].0, bef[i - 1].1);
                    assert(bef[i - 1] == (c.1, c.3));
                    assert(bef.contains((c.1, c.3)));
                    assert(backed_by(bef, aft, c));
                    lemma_backed_push(bef, aft, out, c);
                },
                None => {},
            }
        }
    }
}

proof fn lemma_moved_backed(bef: Seq<WordView>, aft: Seq<WordView>, i: int)
    requires
        0 <= i <= bef.len(),
    ensures
        all_backed(bef, aft, pass_moved(bef, aft, i).2),
        pass_moved(bef, aft, i).1.len() == bef.len(),
    decreases i,
{
    if i == 0 {
        lemma_place_backed(bef, aft, bef.len() as int);
    } else {
        lemma_moved_backed(bef, aft, i - 1);
        let (u, m, out) = pass_moved(bef, aft, i - 1);
        if !m[i - 1] {
            lemma_first_same_reads(aft, u, bef[i - 1].0, aft.len() as int);
            match first_same_text(aft, u, bef[i - 1].0, aft.len() as int) {
                Some(j) => {
                    let c = (TextChangeKind::Moved, bef[i - 1].0, bef[i - 1].0, bef[i - 1].1);
                    assert(bef[i - 1] == (c.1, c.3));
                    assert(bef.contains((c.1, c.3)));
                    assert(backed_by(bef, aft, c));
                    lemma_backed_push(bef, aft, out, c);
                },
                None => {},
            }
        }
    }
}

proof fn lemma_removals_backed(bef: Seq<WordView>, aft: Seq<WordView>, m: Seq<bool>, i: int)
    requires
        0 <= i <= bef.len(),
    ensures
        all_backed(bef, aft, removals(bef, m, i)),
    decreases i,
{
    if i > 0 {
        lemma_removals_backed(bef, aft, m, i - 1);
        if !m[i - 1] {
            let c = (TextChangeKind::Removed, bef[i - 1].0, Seq::<char>::empty(), bef[i - 1].1);
            assert(bef[i - 1] == (c.1, c.3));
            lemma_backed_push(bef, aft, removals(bef, m, i - 1), c);
        }
    }
}

proof fn lemma_additions_backed(bef: Seq<WordView>, aft: Seq<WordView>, u: Seq<bool>, j: int)
    requires
        0 <= j <= aft.len(),
    ensures
        all_backed(bef, aft, additions(aft, u, j)),
    decreases j,
{
    if j > 0 {
        lemma_additions_backed(bef, aft, u, j - 1);
        if !u[j - 1] {
            let c = (TextChangeKind::Added, Seq::<char>::empty(), aft[j - 1].0, aft[j - 1].1);
            assert(aft[j - 1] == (c.2, c.3));
            lemma_backed_push(bef, aft, additions(aft, u, j - 1), c);
        }
    }
}

proof fn lemma_reading_order_members(s: Seq<ChangeView>)
    ensures
        reading_order(s).len() == s.len(),
        forall|k: int| 0 <= k < reading_order(s).len() ==> s.contains(#[trigger] reading_order(s)[k]),
    decreases s.len(),
{
    if s.len() > 0 {
        let d = s.drop_last();
        lemma_reading_order_members(d);
        let r = reading_order(d);
        lemma_insert_pos_range(r, s.last(), r.len() as int);
        let p = insert_pos(r, s.last(), r.len() as int);
        let ro = r.insert(p, s.last());
        assert forall|k: int| 0 <= k < ro.len() implies s.contains(#[trigger] ro[k]) by {
            if k < p {
                assert(ro[k] == r[k]);
                let t = choose|t: int| 0 <= t < d.len() && d[t] == r[k];
                assert(s[t] == d[t]);
            } else if k == p {
                assert(ro[k] == s.last());
                assert(s[s.len() - 1] == s.last());
            } else {
                assert(ro[k] == r[k - 1]);
                let t = choose|t: int| 0 <= t < d.len() && d[t] == r[k - 1];
                assert(s[t] == d[t]);
            }
        }
    }
}

proof fn lemma_backed_wider(b1: Seq<WordView>, a1: Seq<WordView>, b2: Seq<WordView>, a2: Seq<WordView>, c: ChangeView)
    requires
        backed_by(b1, a1, c),
        forall|k: int| 0 <= k < b1.len() ==> b2.contains(#[trigger] b1[k]),
        forall|k: int| 0 <= k < a1.len() ==> a2.contains(#[trigger] a1[k]),
    ensures
        backed_by(b2, a2, c),
{
    if b1.contains((c.1, c.3)) {
        let t = choose|t: int| 0 <= t < b1.len() && b1[t] == (c.1, c.3);
        assert(b2.contains(b1[t]));
    }
    if a1.contains((c.2, c.3)) {
        let t = choose|t: int| 0 <= t < a1.len() && a1[t] == (c.2, c.3);
        assert(a2.contains(a1[t]));
    }
    match c.0 {
        TextChangeKind::Changed => {
            let j = choose|j: int|
                0 <= j < a1.len() && (#[trigger] a1[j]).0 == c.2 && abs_int(a1[j].1.x - c.3.x) <= SAME_PLACE
                    && abs_int(a1[j].1.y - c.3.y) <= SAME_PLACE;
            assert(a2.contains(a1[j]));
            let t = choose|t: int| 0 <= t < a2.len() && a2[t] == a1[j];
            assert((a2[t]).0 == c.2);
        },
        TextChangeKind::Moved => {
            let j = choose|j: int| 0 <= j < a1.len() && (#[trigger] a1[j]).0 == c.1;
            assert(a2.contains(a1[j]));
            let t = choose|t: int| 0 <= t < a2.len() && a2[t] == a1[j];
            assert((a2[t]).0 == c.1);
        },
        _ => {},
    }
}

/// Nothing is made up: every addition is a word of the later sheet and every
/// removal a word of the earlier one, in its place; every change is an earlier
/// word with a later word of other text within `SAME_PLACE` of it on each
/// axis; every move is an earlier word whose text the later sheet also has.
pub proof fn law_every_change_is_backed_by_the_words(before: Seq<WordView>, after: Seq<WordView>)
    ensures
        all_backed(before, after, spec_diff_words(before, after)),
{
    let bef = dedupe(before);
    let aft = dedupe(after);
    lemma_moved_backed(bef, aft, bef.len() as int);
    let (u, m, out) = pass_moved(bef, aft, bef.len() as int);
    lemma_pass_moved_counts(bef, aft, bef.len() as int);
    let rem = removals(bef, m, bef.len() as int);
    let add = additions(aft, u, aft.len() as int);
    lemma_removals_backed(bef, aft, m, bef.len() as int);
    lemma_additions_backed(bef, aft, u, aft.len() as int);
    let all = unsorted_changes(bef, aft);
    assert(all == out + rem + add);
    assert(all_backed(bef, aft, all)) by {
        assert forall|k: int| 0 <= k < all.len() implies backed_by(bef, aft, #[trigger] all[k]) by {
            if k < out.len() {
                assert(all[k] == out[k]);
            } else if k < out.len() + rem.len() {
                assert(all[k] == rem[k - out.len()]);
            } else {
                assert(all[k] == add[k - out.len() - rem.len()]);
            }
        }
    }
    lemma_reading_order_members(all);
    lemma_dedupe_from(before);
    lemma_dedupe_from(after);
    let res = reading_order(all);
    assert forall|k: int| 0 <= k < res.len() implies backed_by(before, after, #[trigger] res[k]) by {
        let t = choose|t: int| 0 <= t < all.len() && all[t] == res[k];
        assert(backed_by(bef, aft, all[t]));
        lemma_backed_wider(bef, aft, before, after, res[k]);
    }
}

} // verus!
