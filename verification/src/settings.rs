//! What is remembered between sessions.
//!
//! The excluded regions are the reason this exists. Working out that a set's
//! title block changes on every sheet, and where it is, is a minute of a
//! reader's attention; losing it every time the window closes makes the
//! feature not worth using. The file is deliberately readable: colours are
//! written `#rrggbb`, so someone who has worked out the excluded regions for
//! one drawing set can copy them to the next one with a text editor.

use vstd::prelude::*;

use crate::geom::{PageRect, Rgb};
use crate::options::{clamp_i32, Options, MAX_TOLERANCE, SHARED_INK_FULL};
use crate::text::{chars_of, push_char, same_str, string_of};

verus! {

// ---------------------------------------------------------------------------
// Colours as text

/// The lowercase hexadecimal digit for `n` (0 to 15).
pub open spec fn hex_digit(n: int) -> char {
    if n < 10 {
        crate::text::digit_char(n)
    } else if n == 10 {
        'a'
    } else if n == 11 {
        'b'
    } else if n == 12 {
        'c'
    } else if n == 13 {
        'd'
    } else if n == 14 {
        'e'
    } else {
        'f'
    }
}

/// A colour as `#rrggbb`, lowercase.
pub open spec fn spec_hex(c: Rgb) -> Seq<char> {
    seq![
        '#',
        hex_digit(c.r as int / 16),
        hex_digit(c.r as int % 16),
        hex_digit(c.g as int / 16),
        hex_digit(c.g as int % 16),
        hex_digit(c.b as int / 16),
        hex_digit(c.b as int % 16),
    ]
}

/// The value of a hexadecimal digit, either case.
pub open spec fn hex_value(c: char) -> Option<int> {
    if '0' <= c <= '9' {
        Some(c as int - '0' as int)
    } else if 'a' <= c <= 'f' {
        Some(c as int - 'a' as int + 10)
    } else if 'A' <= c <= 'F' {
        Some(c as int - 'A' as int + 10)
    } else {
        None
    }
}

/// Two characters read as a hexadecimal byte; a leading `+` is allowed in
/// place of the first digit, as the standard library's reading of numbers
/// allows one.
pub open spec fn hex_pair(c0: char, c1: char) -> Option<u8> {
    if c0 == '+' {
        match hex_value(c1) {
            Some(v) => Some(v as u8),
            None => None,
        }
    } else {
        match (hex_value(c0), hex_value(c1)) {
            (Some(h), Some(l)) => Some((16 * h + l) as u8),
            _ => None,
        }
    }
}

/// `s` without any leading `#`.
pub open spec fn strip_hashes(s: Seq<char>) -> Seq<char>
    decreases s.len(),
{
    if s.len() > 0 && s[0] == '#' {
        strip_hashes(s.drop_first())
    } else {
        s
    }
}

/// The colour a `#rrggbb` string names, or `fallback` for anything else.
pub open spec fn spec_unhex(s: Seq<char>, fallback: Rgb) -> Rgb {
    let t = strip_hashes(s);
    if t.len() != 6 {
        fallback
    } else {
        match (hex_pair(t[0], t[1]), hex_pair(t[2], t[3]), hex_pair(t[4], t[5])) {
            (Some(r), Some(g), Some(b)) => Rgb { r, g, b },
            _ => fallback,
        }
    }
}

/// How many bytes UTF-8 spends on `c`.
pub open spec fn utf8_len(c: char) -> int {
    if (c as u32) < 0x80 {
        1
    } else if (c as u32) < 0x800 {
        2
    } else if (c as u32) < 0x10000 {
        3
    } else {
        4
    }
}

/// How many bytes UTF-8 spends on `s`.
pub open spec fn byte_len(s: Seq<char>) -> int
    decreases s.len(),
{
    if s.len() == 0 {
        0
    } else {
        byte_len(s.drop_last()) + utf8_len(s.last())
    }
}

/// Byte `k` of `s` starts a character (or is its end).
pub open spec fn is_char_boundary(s: Seq<char>, k: int) -> bool {
    exists|i: int| 0 <= i <= s.len() && #[trigger] byte_len(s.subrange(0, i)) == k
}

/// Reading a six-byte colour two bytes at a time would cut a character in two:
/// the one kind of text a colour cannot be read from at all.
pub open spec fn unhex_cuts_a_char(s: Seq<char>) -> bool {
    let t = strip_hashes(s);
    byte_len(t) == 6 && (!is_char_boundary(t, 2) || !is_char_boundary(t, 4))
}

fn hex_char(n: u8) -> (c: char)
    requires
        n < 16,
    ensures
        c == hex_digit(n as int),
{
    if n < 10 {
        if n == 0 {
            '0'
        } else if n == 1 {
            '1'
        } else if n == 2 {
            '2'
        } else if n == 3 {
            '3'
        } else if n == 4 {
            '4'
        } else if n == 5 {
            '5'
        } else if n == 6 {
            '6'
        } else if n == 7 {
            '7'
        } else if n == 8 {
            '8'
        } else {
            '9'
        }
    } else if n == 10 {
        'a'
    } else if n == 11 {
        'b'
    } else if n == 12 {
        'c'
    } else if n == 13 {
        'd'
    } else if n == 14 {
        'e'
    } else {
        'f'
    }
}

/// A colour as `#rrggbb`, lowercase.
pub fn hex(c: Rgb) -> (s: String)
    ensures
        s@ == spec_hex(c),
{
    let mut s = String::new();
    push_char(&mut s, '#');
    push_char(&mut s, hex_char(c.r / 16));
    push_char(&mut s, hex_char(c.r % 16));
    push_char(&mut s, hex_char(c.g / 16));
    push_char(&mut s, hex_char(c.g % 16));
    push_char(&mut s, hex_char(c.b / 16));
    push_char(&mut s, hex_char(c.b % 16));
    proof {
        assert(s@ =~= spec_hex(c));
    }
    s
}

fn hex_value_exec(c: char) -> (v: Option<u8>)
    ensures
        v matches Some(x) ==> hex_value(c) == Some(x as int),
        v is None ==> hex_value(c) is None,
{
    if '0' <= c && c <= '9' {
        Some((c as u32 - '0' as u32) as u8)
    } else if 'a' <= c && c <= 'f' {
        Some((c as u32 - 'a' as u32 + 10) as u8)
    } else if 'A' <= c && c <= 'F' {
        Some((c as u32 - 'A' as u32 + 10) as u8)
    } else {
        None
    }
}

fn hex_pair_exec(c0: char, c1: char) -> (v: Option<u8>)
    ensures
        v == hex_pair(c0, c1),
{
    if c0 == '+' {
        return hex_value_exec(c1);
    }
    match (hex_value_exec(c0), hex_value_exec(c1)) {
        (Some(h), Some(l)) => Some(16 * h + l),
        _ => None,
    }
}

/// The colour a `#rrggbb` string names, or `fallback` for anything else: the
/// wrong length, or something that is not hexadecimal. Any number of leading
/// `#` are skipped.
pub fn unhex(s: &str, fallback: Rgb) -> (c: Rgb)
    requires
        !unhex_cuts_a_char(s@),
    ensures
        c == spec_unhex(s@, fallback),
{
    let v = chars_of(s);
    let mut start: usize = 0;
    proof {
        assert(v@.subrange(0, v@.len() as int) =~= v@);
    }
    while start < v.len() && v[start] == '#'
        invariant
            v@ == s@,
            start <= v@.len(),
            strip_hashes(s@) == strip_hashes(v@.subrange(start as int, v@.len() as int)),
        decreases v@.len() - start,
    {
        proof {
            let rest = v@.subrange(start as int, v@.len() as int);
            assert(rest.drop_first() =~= v@.subrange(start + 1, v@.len() as int));
        }
        start = start + 1;
    }
    let ghost t = v@.subrange(start as int, v@.len() as int);
    proof {
        assert(strip_hashes(t) == t);
    }
    if v.len() - start != 6 {
        return fallback;
    }
    proof {
        assert(t[0] == v@[start as int]);
        assert(t[5] == v@[start + 5]);
    }
    let r = hex_pair_exec(v[start], v[start + 1]);
    let g = hex_pair_exec(v[start + 2], v[start + 3]);
    let b = hex_pair_exec(v[start + 4], v[start + 5]);
    proof {
        assert(t[1] == v@[start + 1]);
        assert(t[2] == v@[start + 2]);
        assert(t[3] == v@[start + 3]);
        assert(t[4] == v@[start + 4]);
    }
    match (r, g, b) {
        (Some(r), Some(g), Some(b)) => Rgb::new(r, g, b),
        _ => fallback,
    }
}

proof fn lemma_hex_digit_value(n: int)
    requires
        0 <= n < 16,
    ensures
        hex_value(hex_digit(n)) == Some(n),
        hex_digit(n) != '+',
        hex_digit(n) != '#',
        (hex_digit(n) as u32) < 0x80,
{
}

/// A colour written out reads back as itself, whatever the fallback: what
/// the settings file says is what the reader set.
pub proof fn law_colour_round_trip(c: Rgb, fallback: Rgb)
    ensures
        !unhex_cuts_a_char(spec_hex(c)),
        spec_unhex(spec_hex(c), fallback) == c,
{
    let h = spec_hex(c);
    lemma_hex_digit_value(c.r as int / 16);
    lemma_hex_digit_value(c.r as int % 16);
    lemma_hex_digit_value(c.g as int / 16);
    lemma_hex_digit_value(c.g as int % 16);
    lemma_hex_digit_value(c.b as int / 16);
    lemma_hex_digit_value(c.b as int % 16);
    let t = h.drop_first();
    assert(strip_hashes(h) == strip_hashes(t));
    assert(strip_hashes(t) == t);
    assert(t.subrange(0, 2).drop_last() =~= t.subrange(0, 1));
    assert(t.subrange(0, 1).drop_last() =~= t.subrange(0, 0));
    assert(t.subrange(0, 4).drop_last() =~= t.subrange(0, 3));
    assert(t.subrange(0, 3).drop_last() =~= t.subrange(0, 2));
    assert(byte_len(t.subrange(0, 0)) == 0);
    assert(t.subrange(0, 1).last() == t[0]);
    assert(byte_len(t.subrange(0, 1)) == 1);
    assert(t.subrange(0, 2).last() == t[1]);
    assert(byte_len(t.subrange(0, 2)) == 2);
    assert(t.subrange(0, 3).last() == t[2]);
    assert(byte_len(t.subrange(0, 3)) == 3);
    assert(t.subrange(0, 4).last() == t[3]);
    assert(byte_len(t.subrange(0, 4)) == 4);
    assert(is_char_boundary(t, 2));
    assert(is_char_boundary(t, 4));
    assert(16 * (c.r / 16) + c.r % 16 == c.r);
    assert(16 * (c.g / 16) + c.g % 16 == c.g);
    assert(16 * (c.b / 16) + c.b % 16 == c.b);
}

// ---------------------------------------------------------------------------
// The stored settings

/// Bumped when the shape changes in a way an older file cannot be read as. A
/// file from the future is left alone rather than overwritten: the person
/// running two versions should not silently lose the newer one's settings.
pub const VERSION: u32 = 1;

/// How many document pairs to remember. Past this the oldest goes; the file is
/// a convenience, not an archive.
pub const MAX_PAIRS: usize = 50;

/// The regions excluded for one pair of documents, named by their paths.
#[derive(Debug)]
pub struct StoredPair {
    pub a: String,
    pub b: String,
    pub ignore: Vec<PageRect>,
}

/// A stored pair as the settings see it: both paths and the regions.
pub type PairView = (Seq<char>, Seq<char>, Seq<PageRect>);

impl View for StoredPair {
    type V = PairView;

    open spec fn view(&self) -> PairView {
        (self.a@, self.b@, self.ignore@)
    }
}

/// Everything the settings file holds.
#[derive(Debug)]
pub struct SettingsData {
    pub version: u32,
    pub tolerance: i32,
    pub shared_ink: i32,
    pub only_a: String,
    pub only_b: String,
    /// The pair opened most recently, for offering to reopen it.
    pub last_pair: Option<(String, String)>,
    /// Most recently used last, so trimming drops the oldest.
    pub pairs: Vec<StoredPair>,
}

/// The stored pairs as the settings see them.
pub open spec fn pair_views(ps: Seq<StoredPair>) -> Seq<PairView> {
    ps.map_values(|p: StoredPair| p@)
}

/// The entry is for documents `a` and `b`, in that order.
pub open spec fn is_pair(p: PairView, a: Seq<char>, b: Seq<char>) -> bool {
    p.0 == a && p.1 == b
}

/// The regions stored for `a` and `b`: those of the first entry for them, or
/// none.
pub open spec fn find_ignore(ps: Seq<PairView>, a: Seq<char>, b: Seq<char>) -> Seq<PageRect>
    decreases ps.len(),
{
    if ps.len() == 0 {
        Seq::empty()
    } else if is_pair(ps[0], a, b) {
        ps[0].2
    } else {
        find_ignore(ps.drop_first(), a, b)
    }
}

/// The entries that are not for `a` and `b`.
pub open spec fn without(ps: Seq<PairView>, a: Seq<char>, b: Seq<char>) -> Seq<PairView> {
    ps.filter(|p: PairView| !is_pair(p, a, b))
}

/// The entries after storing `rects` for `a` and `b`: any earlier entry for
/// them goes, theirs goes last, and only the newest `MAX_PAIRS` are kept.
pub open spec fn stored_after(ps: Seq<PairView>, a: Seq<char>, b: Seq<char>, rects: Seq<PageRect>) -> Seq<PairView> {
    let q = without(ps, a, b).push((a, b, rects));
    if q.len() > MAX_PAIRS {
        q.subrange(q.len() - MAX_PAIRS, q.len() as int)
    } else {
        q
    }
}

/// The options the settings give: the colours where they read as colours
/// (the defaults where not), and the numbers clamped to what they can mean.
pub open spec fn spec_options_of(
    only_a: Seq<char>,
    only_b: Seq<char>,
    tolerance: i32,
    shared_ink: i32,
) -> Options {
    let d = Options::spec_default();
    Options {
        only_a: spec_unhex(only_a, d.only_a),
        only_b: spec_unhex(only_b, d.only_b),
        tolerance: if tolerance < 0 {
            0
        } else if tolerance > MAX_TOLERANCE {
            MAX_TOLERANCE
        } else {
            tolerance
        },
        shared_ink: if shared_ink < 0 {
            0
        } else if shared_ink > SHARED_INK_FULL {
            SHARED_INK_FULL
        } else {
            shared_ink
        },
    }
}

/// Settings as they start out: this version, the default options, and no
/// pairs remembered.
pub open spec fn is_fresh(d: SettingsData) -> bool {
    &&& d.version == VERSION
    &&& d.tolerance == Options::spec_default().tolerance
    &&& d.shared_ink == Options::spec_default().shared_ink
    &&& d.only_a@ == spec_hex(Options::spec_default().only_a)
    &&& d.only_b@ == spec_hex(Options::spec_default().only_b)
    &&& d.last_pair is None
    &&& d.pairs@.len() == 0
}

impl Default for SettingsData {
    fn default() -> (d: Self)
        ensures
            is_fresh(d),
    {
        let o = Options::default();
        SettingsData {
            version: VERSION,
            tolerance: o.tolerance,
            shared_ink: o.shared_ink,
            only_a: hex(o.only_a),
            only_b: hex(o.only_b),
            last_pair: None,
            pairs: Vec::new(),
        }
    }
}

impl SettingsData {
    /// What was read from the file, or the defaults when nothing could be read
    /// or the file is from a newer version.
    ///
    /// Never fails. A missing file is the normal first run, and an unreadable
    /// or malformed one is not worth refusing to start over: the worst case is
    /// a reader redoing a minute of work.
    pub fn from_read(read: Option<SettingsData>) -> (d: Self)
        ensures
            match read {
                Some(r) => if r.version <= VERSION {
                    d == r
                } else {
                    is_fresh(d)
                },
                None => is_fresh(d),
            },
    {
        match read {
            Some(r) => {
                if r.version <= VERSION {
                    r
                } else {
                    SettingsData::default()
                }
            },
            None => SettingsData::default(),
        }
    }

    /// The compare options the settings give.
    pub fn options(&self) -> (o: Options)
        requires
            !unhex_cuts_a_char(self.only_a@),
            !unhex_cuts_a_char(self.only_b@),
        ensures
            o == spec_options_of(self.only_a@, self.only_b@, self.tolerance, self.shared_ink),
    {
        let d = Options::default();
        Options {
            only_a: unhex(self.only_a.as_str(), d.only_a),
            only_b: unhex(self.only_b.as_str(), d.only_b),
            tolerance: clamp_i32(self.tolerance, 0, MAX_TOLERANCE),
            shared_ink: clamp_i32(self.shared_ink, 0, SHARED_INK_FULL),
        }
    }

    /// Remembers the compare options.
    pub fn set_options(&mut self, o: Options)
        ensures
            final(self).tolerance == o.tolerance,
            final(self).shared_ink == o.shared_ink,
            final(self).only_a@ == spec_hex(o.only_a),
            final(self).only_b@ == spec_hex(o.only_b),
            final(self).version == old(self).version,
            final(self).last_pair == old(self).last_pair,
            pair_views(final(self).pairs@) == pair_views(old(self).pairs@),
    {
        self.tolerance = o.tolerance;
        self.shared_ink = o.shared_ink;
        self.only_a = hex(o.only_a);
        self.only_b = hex(o.only_b);
    }

    /// The regions excluded for this document pair, if it has been seen before.
    pub fn ignore_rects(&self, a: &str, b: &str) -> (r: Vec<PageRect>)
        ensures
            r@ == find_ignore(pair_views(self.pairs@), a@, b@),
    {
        let ghost ps = pair_views(self.pairs@);
        let mut i: usize = 0;
        proof {
            assert(ps.subrange(0, ps.len() as int) =~= ps);
        }
        while i < self.pairs.len()
            invariant
                ps == pair_views(self.pairs@),
                i <= ps.len(),
                find_ignore(ps, a@, b@) == find_ignore(ps.subrange(i as int, ps.len() as int), a@, b@),
            decreases ps.len() - i,
        {
            let p = &self.pairs[i];
            proof {
                let rest = ps.subrange(i as int, ps.len() as int);
                assert(rest[0] == p@);
                assert(rest.drop_first() =~= ps.subrange(i + 1, ps.len() as int));
            }
            if same_str(p.a.as_str(), a) && same_str(p.b.as_str(), b) {
                return copy_rects(&p.ignore);
            }
            i = i + 1;
        }
        proof {
            assert(ps.subrange(i as int, ps.len() as int) =~= Seq::<PairView>::empty());
        }
        Vec::new()
    }

    /// Remembers the regions excluded for a document pair, replacing whatever
    /// was stored for it, as the most recently used; forgets the oldest pairs
    /// past `MAX_PAIRS`; and notes the pair as the last one opened.
    pub fn set_ignore_rects(&mut self, a: &str, b: &str, rects: &[PageRect])
        ensures
            pair_views(final(self).pairs@) == stored_after(pair_views(old(self).pairs@), a@, b@, rects@),
            final(self).last_pair matches Some(lp) && lp.0@ == a@ && lp.1@ == b@,
            final(self).version == old(self).version,
            final(self).tolerance == old(self).tolerance,
            final(self).shared_ink == old(self).shared_ink,
            final(self).only_a == old(self).only_a,
            final(self).only_b == old(self).only_b,
    {
        let ghost ps = pair_views(self.pairs@);
        let mut old_pairs: Vec<StoredPair> = Vec::new();
        std::mem::swap(&mut old_pairs, &mut self.pairs);
        let mut kept: Vec<StoredPair> = Vec::new();
        let n = old_pairs.len();
        let mut i: usize = 0;
        proof {
            assert(ps.subrange(0, 0).filter(|p: PairView| !is_pair(p, a@, b@)) =~= Seq::<PairView>::empty());
            assert(pair_views(kept@) =~= Seq::<PairView>::empty());
        }
        while i < n
            invariant
                ps == pair_views(old_pairs@),
                n == old_pairs@.len(),
                i <= n,
                pair_views(kept@) == ps.subrange(0, i as int).filter(|p: PairView| !is_pair(p, a@, b@)),
            decreases n - i,
        {
            let keep = !(same_str(old_pairs[i].a.as_str(), a) && same_str(old_pairs[i].b.as_str(), b));
            if keep {
                let p = take_pair(&old_pairs[i]);
                kept.push(p);
            }
            proof {
                let pre = ps.subrange(0, i as int);
                assert(ps.subrange(0, i + 1) =~= pre.push(ps[i as int]));
                pre.lemma_filter_push(ps[i as int], |p: PairView| !is_pair(p, a@, b@));
                assert(pair_views(kept@) =~= ps.subrange(0, i + 1).filter(|p: PairView| !is_pair(p, a@, b@)));
            }
            i = i + 1;
        }
        proof {
            assert(ps.subrange(0, n as int) =~= ps);
        }
        kept.push(StoredPair { a: string_of(a), b: string_of(b), ignore: copy_slice(rects) });
        let ghost q = without(ps, a@, b@).push((a@, b@, rects@));
        proof {
            assert(pair_views(kept@) =~= q);
        }
        if kept.len() > MAX_PAIRS {
            let excess = kept.len() - MAX_PAIRS;
            let tail = kept.split_off(excess);
            kept = tail;
            proof {
                assert(pair_views(kept@) =~= q.subrange(q.len() - MAX_PAIRS, q.len() as int));
            }
        }
        self.pairs = kept;
        self.last_pair = Some((string_of(a), string_of(b)));
    }

    /// The pair opened most recently, for offering to reopen it.
    pub fn last_pair(&self) -> (p: Option<(&str, &str)>)
        ensures
            match self.last_pair {
                Some(lp) => p matches Some(q) && q.0@ == lp.0@ && q.1@ == lp.1@,
                None => p is None,
            },
    {
        match &self.last_pair {
            Some(lp) => Some((lp.0.as_str(), lp.1.as_str())),
            None => None,
        }
    }
}

/// A copy of a stored pair.
fn take_pair(p: &StoredPair) -> (q: StoredPair)
    ensures
        q@ == p@,
{
    StoredPair { a: p.a.clone(), b: p.b.clone(), ignore: copy_rects(&p.ignore) }
}

fn copy_rects(v: &Vec<PageRect>) -> (r: Vec<PageRect>)
    ensures
        r@ == v@,
{
    copy_slice(v.as_slice())
}

fn copy_slice(v: &[PageRect]) -> (r: Vec<PageRect>)
    ensures
        r@ == v@,
{
    let mut r: Vec<PageRect> = Vec::new();
    let mut i: usize = 0;
    while i < v.len()
        invariant
            i <= v@.len(),
            r@ == v@.subrange(0, i as int),
        decreases v@.len() - i,
    {
        r.push(v[i]);
        proof {
            assert(r@ =~= v@.subrange(0, i + 1));
        }
        i = i + 1;
    }
    proof {
        assert(v@.subrange(0, v@.len() as int) =~= v@);
    }
    r
}

// ---------------------------------------------------------------------------
// What the store promises

/// How many entries are for `a` and `b`.
pub open spec fn entries_for(ps: Seq<PairView>, a: Seq<char>, b: Seq<char>) -> int
    decreases ps.len(),
{
    if ps.len() == 0 {
        0
    } else {
        (if is_pair(ps[0], a, b) {
            1int
        } else {
            0int
        }) + entries_for(ps.drop_first(), a, b)
    }
}

/// A list whose only entry for `a` and `b` is its last one.
proof fn lemma_last_is_only(s: Seq<PairView>, a: Seq<char>, b: Seq<char>)
    requires
        s.len() > 0,
        is_pair(s.last(), a, b),
        forall|i: int| 0 <= i < s.len() - 1 ==> !is_pair(#[trigger] s[i], a, b),
    ensures
        find_ignore(s, a, b) == s.last().2,
        entries_for(s, a, b) == 1,
    decreases s.len(),
{
    if s.len() > 1 {
        let t = s.drop_first();
        assert forall|i: int| 0 <= i < t.len() - 1 implies !is_pair(#[trigger] t[i], a, b) by {
            assert(t[i] == s[i + 1]);
        }
        assert(!is_pair(s[0], a, b));
        assert(t.last() == s.last());
        lemma_last_is_only(t, a, b);
    } else {
        assert(s[0] == s.last());
        assert(s.drop_first().len() == 0);
        assert(entries_for(s.drop_first(), a, b) == 0);
    }
}

/// Dropping the entries for one pair leaves what is stored for any other.
proof fn lemma_without_keeps_others(ps: Seq<PairView>, a: Seq<char>, b: Seq<char>, c: Seq<char>, d: Seq<char>)
    requires
        !(a == c && b == d),
    ensures
        find_ignore(without(ps, a, b), c, d) == find_ignore(ps, c, d),
    decreases ps.len(),
{
    let f = |p: PairView| !is_pair(p, a, b);
    if ps.len() > 0 {
        let rest = ps.drop_first();
        lemma_without_keeps_others(rest, a, b, c, d);
        assert(ps =~= seq![ps[0]] + rest);
        rest.lemma_filter_prepend(ps[0], f);
        if f(ps[0]) {
            assert((seq![ps[0]] + rest.filter(f)).drop_first() =~= rest.filter(f));
        } else {
            assert(Seq::<PairView>::empty() + rest.filter(f) =~= rest.filter(f));
        }
    } else {
        assert(ps.filter(f) =~= Seq::<PairView>::empty());
    }
}

/// What nothing stored for `c` and `d` reads as.
proof fn lemma_absent_then_last(s: Seq<PairView>, x: PairView, c: Seq<char>, d: Seq<char>)
    requires
        !is_pair(x, c, d),
    ensures
        find_ignore(s.push(x), c, d) == find_ignore(s, c, d),
    decreases s.len(),
{
    if s.len() > 0 {
        lemma_absent_then_last(s.drop_first(), x, c, d);
        assert(s.push(x)[0] == s[0]);
        assert(s.push(x).drop_first() =~= s.drop_first().push(x));
    } else {
        assert(s.push(x)[0] == x);
        assert(s.push(x).drop_first() =~= Seq::<PairView>::empty());
        assert(find_ignore(s.push(x).drop_first(), c, d) == Seq::<PageRect>::empty());
    }
}

/// The regions stored for a pair read back as stored, and the pair then has
/// exactly one entry however often it was stored; the store never holds more
/// than `MAX_PAIRS` pairs; and while it is not full, what is stored for every
/// other pair is left as it was.
pub proof fn law_regions_read_back_as_stored(
    ps: Seq<PairView>,
    a: Seq<char>,
    b: Seq<char>,
    rects: Seq<PageRect>,
    c: Seq<char>,
    d: Seq<char>,
)
    ensures
        find_ignore(stored_after(ps, a, b, rects), a, b) == rects,
        entries_for(stored_after(ps, a, b, rects), a, b) == 1,
        stored_after(ps, a, b, rects).len() <= MAX_PAIRS,
        without(ps, a, b).len() < MAX_PAIRS && !(a == c && b == d) ==> find_ignore(
            stored_after(ps, a, b, rects),
            c,
            d,
        ) == find_ignore(ps, c, d),
{
    let f = |p: PairView| !is_pair(p, a, b);
    let w = without(ps, a, b);
    let q = w.push((a, b, rects));
    assert forall|i: int| 0 <= i < q.len() - 1 implies !is_pair(#[trigger] q[i], a, b) by {
        assert(q[i] == w[i]);
        ps.lemma_filter_pred(f, i);
    }
    lemma_last_is_only(q, a, b);
    if q.len() > MAX_PAIRS {
        let t = q.subrange(q.len() - MAX_PAIRS, q.len() as int);
        assert forall|i: int| 0 <= i < t.len() - 1 implies !is_pair(#[trigger] t[i], a, b) by {
            assert(t[i] == q[i + q.len() - MAX_PAIRS]);
        }
        assert(t.last() == q.last());
        lemma_last_is_only(t, a, b);
    }
    if w.len() < MAX_PAIRS && !(a == c && b == d) {
        lemma_absent_then_last(w, (a, b, rects), c, d);
        lemma_without_keeps_others(ps, a, b, c, d);
    }
}

/// The store after each of `list`'s entries is stored in turn, starting from
/// an empty one.
pub open spec fn store_all(list: Seq<PairView>) -> Seq<PairView>
    decreases list.len(),
{
    if list.len() == 0 {
        Seq::empty()
    } else {
        let e = list.last();
        stored_after(store_all(list.drop_last()), e.0, e.1, e.2)
    }
}

/// No two entries of `list` are for the same pair.
pub open spec fn distinct_pairs(list: Seq<PairView>) -> bool {
    forall|i: int, j: int| 0 <= i < j < list.len() ==> !is_pair(#[trigger] list[i], #[trigger] list[j].0, list[j].1)
}

/// The newest `MAX_PAIRS` entries of `list`, oldest first.
pub open spec fn newest(list: Seq<PairView>) -> Seq<PairView> {
    if list.len() > MAX_PAIRS {
        list.subrange(list.len() - MAX_PAIRS, list.len() as int)
    } else {
        list
    }
}

/// Dropping the entries for a pair that has none changes nothing.
proof fn lemma_without_absent(ps: Seq<PairView>, a: Seq<char>, b: Seq<char>)
    requires
        forall|i: int| 0 <= i < ps.len() ==> !is_pair(#[trigger] ps[i], a, b),
    ensures
        without(ps, a, b) == ps,
    decreases ps.len(),
{
    let f = |p: PairView| !is_pair(p, a, b);
    if ps.len() > 0 {
        let rest = ps.drop_first();
        assert forall|i: int| 0 <= i < rest.len() implies !is_pair(#[trigger] rest[i], a, b) by {
            assert(rest[i] == ps[i + 1]);
        }
        lemma_without_absent(rest, a, b);
        assert(ps =~= seq![ps[0]] + rest);
        rest.lemma_filter_prepend(ps[0], f);
        assert(f(ps[0]));
        assert(seq![ps[0]] + rest.filter(f) =~= ps);
    } else {
        assert(ps.filter(f) =~= ps);
    }
}

/// Storing pairs that are all different one after another keeps exactly the
/// newest `MAX_PAIRS` of them, oldest first.
proof fn lemma_store_all_newest(list: Seq<PairView>)
    requires
        distinct_pairs(list),
    ensures
        store_all(list) == newest(list),
    decreases list.len(),
{
    if list.len() > 0 {
        let l0 = list.drop_last();
        let e = list.last();
        assert forall|i: int, j: int| 0 <= i < j < l0.len() implies !is_pair(#[trigger] l0[i], #[trigger] l0[j].0, l0[j].1) by {
            assert(l0[i] == list[i] && l0[j] == list[j]);
        }
        lemma_store_all_newest(l0);
        let st = newest(l0);
        assert forall|i: int| 0 <= i < st.len() implies !is_pair(#[trigger] st[i], e.0, e.1) by {
            let k = if l0.len() > MAX_PAIRS { i + l0.len() - MAX_PAIRS } else { i };
            assert(st[i] == list[k]);
            assert(list[list.len() - 1] == e);
            assert(!is_pair(list[k], list[list.len() - 1].0, list[list.len() - 1].1));
        }
        lemma_without_absent(st, e.0, e.1);
        let q = st.push(e);
        if l0.len() > MAX_PAIRS {
            assert(q.subrange(q.len() - MAX_PAIRS, q.len() as int) =~= newest(list));
        } else if l0.len() == MAX_PAIRS {
            assert(q.subrange(q.len() - MAX_PAIRS, q.len() as int) =~= newest(list));
        } else {
            assert(q =~= list);
        }
    }
}

/// In a list with one entry per pair, a pair reads back its own entry's
/// regions, and a pair with no entry reads back none.
proof fn lemma_find_distinct(s: Seq<PairView>, c: Seq<char>, d: Seq<char>)
    requires
        distinct_pairs(s),
    ensures
        forall|k: int| 0 <= k < s.len() && is_pair(#[trigger] s[k], c, d) ==> find_ignore(s, c, d) == s[k].2,
        (forall|k: int| 0 <= k < s.len() ==> !is_pair(#[trigger] s[k], c, d)) ==> find_ignore(s, c, d)
            == Seq::<PageRect>::empty(),
    decreases s.len(),
{
    if s.len() > 0 {
        let t = s.drop_first();
        assert forall|i: int, j: int| 0 <= i < j < t.len() implies !is_pair(#[trigger] t[i], #[trigger] t[j].0, t[j].1) by {
            assert(t[i] == s[i + 1] && t[j] == s[j + 1]);
        }
        lemma_find_distinct(t, c, d);
        assert forall|k: int| 0 <= k < s.len() && is_pair(#[trigger] s[k], c, d) implies find_ignore(s, c, d) == s[k].2 by {
            if k > 0 {
                assert(s[k] == t[k - 1]);
                if is_pair(s[0], c, d) {
                    assert(!is_pair(s[0], s[k].0, s[k].1));
                }
            }
        }
        if forall|k: int| 0 <= k < s.len() ==> !is_pair(#[trigger] s[k], c, d) {
            assert(!is_pair(s[0], c, d));
            assert forall|k: int| 0 <= k < t.len() implies !is_pair(#[trigger] t[k], c, d) by {
                assert(t[k] == s[k + 1]);
            }
        }
    }
}

/// Only the newest pairs are remembered: when regions are stored for one
/// pair after another, all of them different, each of the newest `MAX_PAIRS`
/// reads back its own regions and every older one reads back none.
pub proof fn law_the_newest_pairs_are_remembered(list: Seq<PairView>, k: int)
    requires
        distinct_pairs(list),
        0 <= k < list.len(),
    ensures
        find_ignore(store_all(list), list[k].0, list[k].1) == (if k >= list.len() - MAX_PAIRS {
            list[k].2
        } else {
            Seq::<PageRect>::empty()
        }),
{
    lemma_store_all_newest(list);
    let n = newest(list);
    let off = if list.len() > MAX_PAIRS { list.len() - MAX_PAIRS } else { 0 };
    assert forall|i: int, j: int| 0 <= i < j < n.len() implies !is_pair(#[trigger] n[i], #[trigger] n[j].0, n[j].1) by {
        assert(n[i] == list[i + off] && n[j] == list[j + off]);
    }
    lemma_find_distinct(n, list[k].0, list[k].1);
    if k >= list.len() - MAX_PAIRS {
        assert(n[k - off] == list[k]);
    } else {
        assert forall|i: int| 0 <= i < n.len() implies !is_pair(#[trigger] n[i], list[k].0, list[k].1) by {
            assert(n[i] == list[i + off]);
            assert(k < i + off);
        }
    }
}

/// The compare options read back as they were remembered, where they are
/// options the settings can hold: a tolerance from none to `MAX_TOLERANCE`
/// and a shared-ink strength from none to `SHARED_INK_FULL`.
pub proof fn law_options_round_trip(o: Options)
    requires
        0 <= o.tolerance <= MAX_TOLERANCE,
        0 <= o.shared_ink <= SHARED_INK_FULL,
    ensures
        !unhex_cuts_a_char(spec_hex(o.only_a)),
        !unhex_cuts_a_char(spec_hex(o.only_b)),
        spec_options_of(spec_hex(o.only_a), spec_hex(o.only_b), o.tolerance, o.shared_ink) == o,
{
    let d = Options::spec_default();
    law_colour_round_trip(o.only_a, d.only_a);
    law_colour_round_trip(o.only_b, d.only_b);
}

} // verus!
