use vstd::prelude::*;

use crate::geom::PageRect;
use crate::matching::{match_sheets, walk};
use crate::options::{Options, ViewMode};
use crate::pairing::{build_fits, spec_at, spec_build, Pair, Pairing};
use crate::signature::{token_set, Signature};
use crate::words::{change_views, diff_words, spec_diff_words, word_views, TextChange, Word};

verus! {

/// One open comparison: which two documents, how their sheets pair up, and
/// everything the reader has set about how they are compared. The documents
/// themselves are held by whoever renders them; this is the model they answer
/// to.
pub struct Session {
    path_a: String,
    path_b: String,
    n_a: i32,
    n_b: i32,
    page_delta: i32,
    /// A pairing worked out from the documents' content, in place of the
    /// offset, once `auto_match` has run.
    matched: Option<Vec<Pair>>,
    options: Options,
    view_mode: ViewMode,
    ignore_rects: Vec<PageRect>,
}

/// The virtual sheets of a content pairing.
pub open spec fn matched_pair(ps: Seq<Pair>, page_no: int) -> Pair {
    if 1 <= page_no <= ps.len() {
        ps[page_no - 1]
    } else {
        Pair { page_a: 0, page_b: 0 }
    }
}

impl Session {
    #[verifier::type_invariant]
    spec fn inv(self) -> bool {
        &&& self.n_a >= 0
        &&& self.n_b >= 0
        &&& build_fits(self.n_a as int, self.n_b as int, self.page_delta as int)
        &&& self.matched matches Some(v) ==> v@.len() <= i32::MAX
    }

    /// The first document's path.
    pub closed spec fn spec_path_a(self) -> Seq<char> {
        self.path_a@
    }

    /// The second document's path.
    pub closed spec fn spec_path_b(self) -> Seq<char> {
        self.path_b@
    }

    /// How many sheets the first document has.
    pub closed spec fn spec_n_a(self) -> int {
        self.n_a as int
    }

    /// How many sheets the second document has.
    pub closed spec fn spec_n_b(self) -> int {
        self.n_b as int
    }

    /// The offset between the documents' sheets, where pairing is by position.
    pub closed spec fn spec_page_delta(self) -> int {
        self.page_delta as int
    }

    /// The pairing worked out from content, if there is one.
    pub closed spec fn spec_matched(self) -> Option<Seq<Pair>> {
        match self.matched {
            Some(v) => Some(v@),
            None => None,
        }
    }

    pub closed spec fn spec_options(self) -> Options {
        self.options
    }

    pub closed spec fn spec_view_mode(self) -> ViewMode {
        self.view_mode
    }

    /// The regions of every sheet the reader has excluded, in page space.
    pub closed spec fn spec_ignore_rects(self) -> Seq<PageRect> {
        self.ignore_rects@
    }

    /// Which sheet of each document virtual page `page_no` stands for.
    pub open spec fn spec_pair(self, page_no: int) -> Pair {
        match self.spec_matched() {
            Some(ps) => matched_pair(ps, page_no),
            None => spec_at(spec_build(self.spec_n_a(), self.spec_n_b(), self.spec_page_delta()), page_no),
        }
    }

    /// How many virtual sheets there are.
    pub open spec fn spec_page_count(self) -> int {
        match self.spec_matched() {
            Some(ps) => ps.len() as int,
            None => spec_build(self.spec_n_a(), self.spec_n_b(), self.spec_page_delta()).page_count as int,
        }
    }

    /// The state a comparison opens in: sheets paired by position, default
    /// options, the overlay view and nothing excluded.
    pub fn new(path_a: &str, path_b: &str, n_a: i32, n_b: i32) -> (s: Self)
        requires
            n_a >= 0,
            n_b >= 0,
        ensures
            s.spec_path_a() == path_a@,
            s.spec_path_b() == path_b@,
            s.spec_n_a() == n_a,
            s.spec_n_b() == n_b,
            s.spec_page_delta() == 0,
            s.spec_matched() is None,
            s.spec_options() == Options::spec_default(),
            s.spec_view_mode() == ViewMode::Overlay,
            s.spec_ignore_rects() == Seq::<PageRect>::empty(),
    {
        let s = Session {
            path_a: crate::text::string_of(path_a),
            path_b: crate::text::string_of(path_b),
            n_a,
            n_b,
            page_delta: 0,
            matched: None,
            options: Options::default(),
            view_mode: ViewMode::Overlay,
            ignore_rects: Vec::new(),
        };
        proof {
            assert(s.ignore_rects@ =~= Seq::<PageRect>::empty());
        }
        s
    }

    pub fn path_a(&self) -> (p: &str)
        ensures
            p@ == self.spec_path_a(),
    {
        self.path_a.as_str()
    }

    pub fn path_b(&self) -> (p: &str)
        ensures
            p@ == self.spec_path_b(),
    {
        self.path_b.as_str()
    }

    /// Which sheet of each document virtual page `page_no` stands for; no
    /// sheet on either side for a page outside the range.
    pub fn pair(&self, page_no: i32) -> (p: Pair)
        ensures
            p == self.spec_pair(page_no as int),
    {
        proof {
            use_type_invariant(self);
        }
        match &self.matched {
            Some(ps) => {
                if page_no >= 1 && (page_no as usize) <= ps.len() {
                    ps[(page_no - 1) as usize]
                } else {
                    Pair { page_a: 0, page_b: 0 }
                }
            },
            None => Pairing::build(self.n_a, self.n_b, self.page_delta).at(page_no),
        }
    }

    /// How many virtual sheets the comparison has.
    pub fn page_count(&self) -> (n: i32)
        ensures
            n == self.spec_page_count(),
    {
        proof {
            use_type_invariant(self);
        }
        match &self.matched {
            Some(ps) => ps.len() as i32,
            None => Pairing::build(self.n_a, self.n_b, self.page_delta).page_count,
        }
    }

    pub fn page_delta(&self) -> (d: i32)
        ensures
            d == self.spec_page_delta(),
    {
        self.page_delta
    }

    /// Pairs the sheets by position again, sheet *n* of the first document with
    /// sheet *n + delta* of the second, replacing any pairing by content.
    pub fn set_page_delta(&mut self, delta: i32)
        requires
            build_fits(old(self).spec_n_a(), old(self).spec_n_b(), delta as int),
        ensures
            final(self).spec_page_delta() == delta,
            final(self).spec_matched() is None,
            final(self).spec_n_a() == old(self).spec_n_a(),
            final(self).spec_n_b() == old(self).spec_n_b(),
            final(self).spec_path_a() == old(self).spec_path_a(),
            final(self).spec_path_b() == old(self).spec_path_b(),
            final(self).spec_options() == old(self).spec_options(),
            final(self).spec_view_mode() == old(self).spec_view_mode(),
            final(self).spec_ignore_rects() == old(self).spec_ignore_rects(),
    {
        proof {
            use_type_invariant(&*self);
        }
        self.page_delta = delta;
        self.matched = None;
    }

    pub fn options(&self) -> (o: Options)
        ensures
            o == self.spec_options(),
    {
        self.options
    }

    pub fn set_options(&mut self, o: Options)
        ensures
            final(self).spec_options() == o,
            final(self).spec_page_delta() == old(self).spec_page_delta(),
            final(self).spec_matched() == old(self).spec_matched(),
            final(self).spec_n_a() == old(self).spec_n_a(),
            final(self).spec_n_b() == old(self).spec_n_b(),
            final(self).spec_path_a() == old(self).spec_path_a(),
            final(self).spec_path_b() == old(self).spec_path_b(),
            final(self).spec_view_mode() == old(self).spec_view_mode(),
            final(self).spec_ignore_rects() == old(self).spec_ignore_rects(),
    {
        proof {
            use_type_invariant(&*self);
        }
        self.options = o;
    }

    pub fn view_mode(&self) -> (m: ViewMode)
        ensures
            m == self.spec_view_mode(),
    {
        self.view_mode
    }

    pub fn set_view_mode(&mut self, m: ViewMode)
        ensures
            final(self).spec_view_mode() == m,
            final(self).spec_options() == old(self).spec_options(),
            final(self).spec_page_delta() == old(self).spec_page_delta(),
            final(self).spec_matched() == old(self).spec_matched(),
            final(self).spec_n_a() == old(self).spec_n_a(),
            final(self).spec_n_b() == old(self).spec_n_b(),
            final(self).spec_path_a() == old(self).spec_path_a(),
            final(self).spec_path_b() == old(self).spec_path_b(),
            final(self).spec_ignore_rects() == old(self).spec_ignore_rects(),
    {
        proof {
            use_type_invariant(&*self);
        }
        self.view_mode = m;
    }

    /// The excluded regions, in the order they were added.
    pub fn ignore_rects(&self) -> (r: &[PageRect])
        ensures
            r@ == self.spec_ignore_rects(),
    {
        self.ignore_rects.as_slice()
    }

    /// Excludes a region of every sheet from the comparison.
    pub fn add_ignore_rect(&mut self, r: PageRect)
        ensures
            final(self).spec_ignore_rects() == old(self).spec_ignore_rects().push(r),
            final(self).spec_options() == old(self).spec_options(),
            final(self).spec_view_mode() == old(self).spec_view_mode(),
            final(self).spec_page_delta() == old(self).spec_page_delta(),
            final(self).spec_matched() == old(self).spec_matched(),
            final(self).spec_n_a() == old(self).spec_n_a(),
            final(self).spec_n_b() == old(self).spec_n_b(),
            final(self).spec_path_a() == old(self).spec_path_a(),
            final(self).spec_path_b() == old(self).spec_path_b(),
    {
        proof {
            use_type_invariant(&*self);
        }
        let mut rects: Vec<PageRect> = Vec::new();
        std::mem::swap(&mut rects, &mut self.ignore_rects);
        rects.push(r);
        self.ignore_rects = rects;
    }

    /// Compares every region again.
    pub fn clear_ignore_rects(&mut self)
        ensures
            final(self).spec_ignore_rects() == Seq::<PageRect>::empty(),
            final(self).spec_options() == old(self).spec_options(),
            final(self).spec_view_mode() == old(self).spec_view_mode(),
            final(self).spec_page_delta() == old(self).spec_page_delta(),
            final(self).spec_matched() == old(self).spec_matched(),
            final(self).spec_n_a() == old(self).spec_n_a(),
            final(self).spec_n_b() == old(self).spec_n_b(),
            final(self).spec_path_a() == old(self).spec_path_a(),
            final(self).spec_path_b() == old(self).spec_path_b(),
    {
        proof {
            use_type_invariant(&*self);
        }
        self.ignore_rects = Vec::new();
        proof {
            assert(self.ignore_rects@ =~= Seq::<PageRect>::empty());
        }
    }

    /// True when the pairing came from the documents rather than from an offset.
    pub fn pairing_is_automatic(&self) -> (b: bool)
        ensures
            b == (self.spec_matched() is Some),
    {
        self.matched.is_some()
    }

    /// Works out which sheet of the second document each sheet of the first
    /// corresponds to, from what is written on them (`text_a` and `text_b`
    /// hold each sheet's extracted text, in order), and installs that as the
    /// pairing.
    ///
    /// For a set that simply gained a sheet at the front, nudging the delta by
    /// hand does the same job and is more predictable. This is for the case an
    /// offset cannot express: sheets reordered, or inserted in the middle.
    pub fn auto_match(&mut self, text_a: &[String], text_b: &[String])
        requires
            text_a@.len() == old(self).spec_n_a(),
            text_b@.len() == old(self).spec_n_b(),
            old(self).spec_n_a() + old(self).spec_n_b() < i32::MAX,
        ensures
            final(self).spec_matched() == Some(
                walk(text_sets(text_a@), text_sets(text_b@), 0, 0),
            ),
            final(self).spec_page_delta() == old(self).spec_page_delta(),
            final(self).spec_n_a() == old(self).spec_n_a(),
            final(self).spec_n_b() == old(self).spec_n_b(),
            final(self).spec_path_a() == old(self).spec_path_a(),
            final(self).spec_path_b() == old(self).spec_path_b(),
            final(self).spec_options() == old(self).spec_options(),
            final(self).spec_view_mode() == old(self).spec_view_mode(),
            final(self).spec_ignore_rects() == old(self).spec_ignore_rects(),
    {
        proof {
            use_type_invariant(&*self);
        }
        let sig_a = signatures(text_a);
        let sig_b = signatures(text_b);
        let pairs = match_sheets(sig_a.as_slice(), sig_b.as_slice());
        proof {
            crate::matching::law_matching_covers_every_sheet_once(sig_a@, sig_b@);
            crate::matching::lemma_pair_count(
                crate::matching::spec_match_sheets(sig_a@, sig_b@),
            );
            assert(crate::matching::page_run(0, sig_a@.len() as int).len() == sig_a@.len());
            assert(crate::matching::page_run(0, sig_b@.len() as int).len() == sig_b@.len());
        }
        self.matched = Some(pairs);
    }

    /// What the two revisions of virtual sheet `page_no` say differently, given
    /// the words of the first document's sheet and of the second's.
    ///
    /// A sheet with no counterpart is entirely added or entirely removed: the
    /// side that has no sheet counts as empty, whatever was passed for it.
    pub fn page_text_changes(&self, page_no: i32, words_a: &[Word], words_b: &[Word]) -> (out: Vec<
        TextChange,
    >)
        ensures
            change_views(out@) == spec_diff_words(
                word_views(
                    if self.spec_pair(page_no as int).page_a != 0 {
                        words_a@
                    } else {
                        Seq::empty()
                    },
                ),
                word_views(
                    if self.spec_pair(page_no as int).page_b != 0 {
                        words_b@
                    } else {
                        Seq::empty()
                    },
                ),
            ),
    {
        let pair = self.pair(page_no);
        let none: Vec<Word> = Vec::new();
        let wa: &[Word] = if pair.page_a != 0 {
            words_a
        } else {
            none.as_slice()
        };
        let wb: &[Word] = if pair.page_b != 0 {
            words_b
        } else {
            none.as_slice()
        };
        proof {
            assert(none@ =~= Seq::<Word>::empty());
        }
        diff_words(wa, wb)
    }
}

/// The token sets of sheets with these texts.
pub open spec fn text_sets(texts: Seq<String>) -> Seq<Set<Seq<char>>> {
    texts.map_values(|t: String| token_set(t@))
}

/// One signature per sheet text.
fn signatures(texts: &[String]) -> (sigs: Vec<Signature>)
    ensures
        sigs@.len() == texts@.len(),
        crate::matching::sheet_sets(sigs@) == text_sets(texts@),
{
    let mut sigs: Vec<Signature> = Vec::new();
    let mut i: usize = 0;
    while i < texts.len()
        invariant
            i <= texts@.len(),
            sigs@.len() == i,
            forall|k: int| 0 <= k < i ==> (#[trigger] sigs@[k]).tokens() == token_set(texts@[k]@),
        decreases texts@.len() - i,
    {
        let s = Signature::from_text(texts[i].as_str());
        sigs.push(s);
        i = i + 1;
    }
    proof {
        assert(crate::matching::sheet_sets(sigs@) =~= text_sets(texts@));
    }
    sigs
}

} // verus!
