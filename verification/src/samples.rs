//! Finding the real drawing sets, without naming them.
//!
//! The sets this project was built against are customer drawings; they are not
//! shipped, and neither are their names. A small hand-written manifest says
//! which file plays which part and what each check should find. This reads it:
//! deliberately a small reader rather than a JSON parser, since the file is
//! written by hand and only four kinds of field are ever looked up.

use vstd::prelude::*;

use crate::report::{char_is_whitespace, is_whitespace};
use crate::text::{chars_of, push_char};

verus! {

/// `needle` occurs in `hay` at `i`.
pub open spec fn occurs_at(hay: Seq<char>, needle: Seq<char>, i: int) -> bool {
    0 <= i && i + needle.len() <= hay.len() && hay.subrange(i, i + needle.len()) == needle
}

/// The first place at or after `i` where `needle` occurs in `hay`.
pub open spec fn find_from(hay: Seq<char>, needle: Seq<char>, i: int) -> Option<int>
    decreases hay.len() + 1 - i,
{
    if i < 0 || i + needle.len() > hay.len() {
        None
    } else if occurs_at(hay, needle, i) {
        Some(i)
    } else {
        find_from(hay, needle, i + 1)
    }
}

/// Where a search finds something, it is there.
proof fn lemma_find_from_some(hay: Seq<char>, needle: Seq<char>, i: int)
    requires
        find_from(hay, needle, i) is Some,
    ensures
        occurs_at(hay, needle, find_from(hay, needle, i).unwrap()),
        i <= find_from(hay, needle, i).unwrap(),
    decreases hay.len() + 1 - i,
{
    if !(i < 0 || i + needle.len() > hay.len()) && !occurs_at(hay, needle, i) {
        lemma_find_from_some(hay, needle, i + 1);
    }
}

/// The first place where `needle` occurs in `hay`.
pub open spec fn spec_find(hay: Seq<char>, needle: Seq<char>) -> Option<int> {
    find_from(hay, needle, 0)
}

/// The first character of `s` from `i` on that ends a value: a comma, a line
/// break or a closing brace; the end of `s` when there is none.
pub open spec fn value_end(s: Seq<char>, i: int) -> int
    decreases s.len() - i,
{
    if i >= s.len() {
        s.len() as int
    } else if s[i] == ',' || s[i] == '\n' || s[i] == '}' {
        i
    } else {
        value_end(s, i + 1)
    }
}

/// `s` without leading characters that satisfy `f`.
pub open spec fn trim_start_by(s: Seq<char>, f: spec_fn(char) -> bool) -> Seq<char>
    decreases s.len(),
{
    if s.len() > 0 && f(s[0]) {
        trim_start_by(s.drop_first(), f)
    } else {
        s
    }
}

/// `s` without trailing characters that satisfy `f`.
pub open spec fn trim_end_by(s: Seq<char>, f: spec_fn(char) -> bool) -> Seq<char>
    decreases s.len(),
{
    if s.len() > 0 && f(s.last()) {
        trim_end_by(s.drop_last(), f)
    } else {
        s
    }
}

/// `s` without whitespace at either end.
pub open spec fn trim(s: Seq<char>) -> Seq<char> {
    trim_end_by(trim_start_by(s, |c: char| char_is_whitespace(c)), |c: char| char_is_whitespace(c))
}

/// `s` without quotes at either end.
pub open spec fn unquote(s: Seq<char>) -> Seq<char> {
    trim_end_by(trim_start_by(s, |c: char| c == '"'), |c: char| c == '"')
}

/// `key` in quotes.
pub open spec fn quoted(key: Seq<char>) -> Seq<char> {
    seq!['"'] + key + seq!['"']
}

/// The value following `"key":` in `text`, up to the next comma, line break
/// or closing brace, with the whitespace around it gone; nothing when the key
/// or its colon is missing or the value is empty.
pub open spec fn spec_scan(text: Seq<char>, key: Seq<char>) -> Option<Seq<char>> {
    match spec_find(text, quoted(key)) {
        None => None,
        Some(at) => {
            let after = text.subrange(at + key.len() + 2, text.len() as int);
            match spec_find(after, seq![':']) {
                None => None,
                Some(c) => {
                    let value = after.subrange(c + 1, after.len() as int);
                    let v = trim(value.subrange(0, value_end(value, 0)));
                    if v.len() == 0 {
                        None
                    } else {
                        Some(v)
                    }
                },
            }
        },
    }
}

/// The part of the manifest that belongs to pair `set`: from its name up to
/// the next entry at the same depth (`"` two spaces in on a new line), or the
/// end.
pub open spec fn set_block(json: Seq<char>, set: Seq<char>) -> Option<Seq<char>> {
    match spec_find(json, quoted(set)) {
        None => None,
        Some(at) => {
            let rest = json.subrange(at, json.len() as int);
            let end = match spec_find(rest.drop_first(), seq!['\n', ' ', ' ', '"']) {
                Some(e) => e + 1,
                None => rest.len() as int,
            };
            Some(rest.subrange(0, end))
        },
    }
}

/// The value of `key` within pair `set`.
pub open spec fn spec_field(json: Seq<char>, set: Seq<char>, key: Seq<char>) -> Option<Seq<char>> {
    match set_block(json, set) {
        None => None,
        Some(block) => spec_scan(block, key),
    }
}

/// The value of a decimal digit.
pub open spec fn digit_value(c: char) -> int {
    c as int - '0' as int
}

/// `s` is nothing but decimal digits, at least one.
pub open spec fn all_digits(s: Seq<char>) -> bool {
    s.len() > 0 && forall|i: int| 0 <= i < s.len() ==> '0' <= #[trigger] s[i] <= '9'
}

/// The number the digits of `s` write.
pub open spec fn digits_value(s: Seq<char>) -> int
    decreases s.len(),
{
    if s.len() == 0 {
        0
    } else {
        digits_value(s.drop_last()) * 10 + digit_value(s.last())
    }
}

/// A 32-bit integer written in decimal with an optional sign, as the standard
/// library reads one: nothing for anything else or a value out of range.
pub open spec fn parse_i32(s: Seq<char>) -> Option<i32> {
    let (neg, body) = if s.len() > 0 && s[0] == '-' {
        (true, s.drop_first())
    } else if s.len() > 0 && s[0] == '+' {
        (false, s.drop_first())
    } else {
        (false, s)
    };
    if !all_digits(body) {
        None
    } else {
        let v = if neg {
            -digits_value(body)
        } else {
            digits_value(body)
        };
        if i32::MIN <= v <= i32::MAX {
            Some(v as i32)
        } else {
            None
        }
    }
}

/// The manifest of the sample sets.
pub struct Samples {
    json: String,
}

/// Where `needle` first occurs in `hay` at or after `from`.
fn find_in(hay: &Vec<char>, needle: &Vec<char>, from: usize) -> (r: Option<usize>)
    requires
        from <= hay@.len(),
    ensures
        match find_from(hay@, needle@, from as int) {
            Some(i) => r == Some(i as usize),
            None => r is None,
        },
        r matches Some(x) ==> occurs_at(hay@, needle@, x as int) && from <= x,
{
    let n = needle.len();
    if n > hay.len() {
        return None;
    }
    let last = hay.len() - n;
    let mut i = from;
    while i <= last
        invariant
            from <= i,
            hay@.len() <= usize::MAX,
            last == hay@.len() - n,
            n == needle@.len(),
            n <= hay@.len(),
            find_from(hay@, needle@, from as int) == find_from(hay@, needle@, i as int),
        decreases last + 1 - i,
    {
        let mut k: usize = 0;
        let mut same = true;
        while k < n
            invariant
                i <= last,
                hay@.len() <= usize::MAX,
                last == hay@.len() - n,
                n == needle@.len(),
                k <= n,
                same == forall|j: int| 0 <= j < k ==> hay@[i + j] == needle@[j],
            decreases n - k,
        {
            if hay[i + k] != needle[k] {
                same = false;
            }
            k = k + 1;
        }
        if same {
            proof {
                assert(hay@.subrange(i as int, i + n) =~= needle@);
            }
            return Some(i);
        }
        proof {
            if occurs_at(hay@, needle@, i as int) {
                let j = choose|j: int| 0 <= j < n && hay@[i + j] != needle@[j];
                assert(hay@.subrange(i as int, i + n)[j] == hay@[i + j]);
            }
            assert(n > 0);
        }
        i = i + 1;
    }
    None
}

/// The characters of `s` from `a` to `b`.
fn slice_chars(s: &Vec<char>, a: usize, b: usize) -> (r: Vec<char>)
    requires
        a <= b <= s@.len(),
    ensures
        r@ == s@.subrange(a as int, b as int),
{
    let mut r: Vec<char> = Vec::new();
    let mut i = a;
    while i < b
        invariant
            a <= i <= b,
            b <= s@.len(),
            r@ == s@.subrange(a as int, i as int),
        decreases b - i,
    {
        r.push(s[i]);
        proof {
            assert(r@ =~= s@.subrange(a as int, i + 1));
        }
        i = i + 1;
    }
    r
}

fn trim_vec(s: &Vec<char>) -> (r: Vec<char>)
    ensures
        r@ == trim(s@),
{
    let mut a: usize = 0;
    let ghost ws = |c: char| char_is_whitespace(c);
    proof {
        assert(s@.subrange(0, s@.len() as int) =~= s@);
    }
    while a < s.len() && is_whitespace(s[a])
        invariant
            ws == (|c: char| char_is_whitespace(c)),
            a <= s@.len(),
            trim_start_by(s@, ws) == trim_start_by(s@.subrange(a as int, s@.len() as int), ws),
        decreases s@.len() - a,
    {
        proof {
            assert(s@.subrange(a as int, s@.len() as int)[0] == s@[a as int]);
            assert(s@.subrange(a as int, s@.len() as int).drop_first() =~= s@.subrange(a + 1, s@.len() as int));
        }
        a = a + 1;
    }
    let mut b: usize = s.len();
    proof {
        assert(trim_start_by(s@.subrange(a as int, s@.len() as int), ws) == s@.subrange(a as int, s@.len() as int));
    }
    while b > a && is_whitespace(s[b - 1])
        invariant
            ws == (|c: char| char_is_whitespace(c)),
            a <= b <= s@.len(),
            trim(s@) == trim_end_by(s@.subrange(a as int, b as int), ws),
        decreases b - a,
    {
        proof {
            assert(s@.subrange(a as int, b as int).last() == s@[b - 1]);
            assert(s@.subrange(a as int, b as int).drop_last() =~= s@.subrange(a as int, b - 1));
        }
        b = b - 1;
    }
    slice_chars(s, a, b)
}

fn unquote_vec(s: &Vec<char>) -> (r: Vec<char>)
    ensures
        r@ == unquote(s@),
{
    let ghost q = |c: char| c == '"';
    let mut a: usize = 0;
    proof {
        assert(s@.subrange(0, s@.len() as int) =~= s@);
    }
    while a < s.len() && s[a] == '"'
        invariant
            q == (|c: char| c == '"'),
            a <= s@.len(),
            trim_start_by(s@, q) == trim_start_by(s@.subrange(a as int, s@.len() as int), q),
        decreases s@.len() - a,
    {
        proof {
            assert(s@.subrange(a as int, s@.len() as int)[0] == s@[a as int]);
            assert(s@.subrange(a as int, s@.len() as int).drop_first() =~= s@.subrange(a + 1, s@.len() as int));
        }
        a = a + 1;
    }
    let mut b: usize = s.len();
    while b > a && s[b - 1] == '"'
        invariant
            q == (|c: char| c == '"'),
            a <= b <= s@.len(),
            unquote(s@) == trim_end_by(s@.subrange(a as int, b as int), q),
        decreases b - a,
    {
        proof {
            assert(s@.subrange(a as int, b as int).last() == s@[b - 1]);
            assert(s@.subrange(a as int, b as int).drop_last() =~= s@.subrange(a as int, b - 1));
        }
        b = b - 1;
    }
    slice_chars(s, a, b)
}

fn string_from(v: &Vec<char>) -> (s: String)
    ensures
        s@ == v@,
{
    let mut s = String::new();
    let mut i: usize = 0;
    while i < v.len()
        invariant
            i <= v@.len(),
            s@ == v@.subrange(0, i as int),
        decreases v@.len() - i,
    {
        push_char(&mut s, v[i]);
        proof {
            assert(s@ =~= v@.subrange(0, i + 1));
        }
        i = i + 1;
    }
    proof {
        assert(v@.subrange(0, v@.len() as int) =~= v@);
    }
    s
}

fn quote_vec(key: &str) -> (r: Vec<char>)
    ensures
        r@ == quoted(key@),
{
    let k = chars_of(key);
    let mut r: Vec<char> = Vec::new();
    r.push('"');
    let mut i: usize = 0;
    while i < k.len()
        invariant
            k@ == key@,
            i <= k@.len(),
            r@ == seq!['"'] + k@.subrange(0, i as int),
        decreases k@.len() - i,
    {
        r.push(k[i]);
        proof {
            assert(r@ =~= seq!['"'] + k@.subrange(0, i + 1));
        }
        i = i + 1;
    }
    r.push('"');
    proof {
        assert(r@ =~= quoted(key@));
    }
    r
}

/// The value following `"key":` in `text`.
fn scan_vec(text: &Vec<char>, key: &str) -> (r: Option<Vec<char>>)
    ensures
        match spec_scan(text@, key@) {
            Some(v) => r matches Some(x) && x@ == v,
            None => r is None,
        },
{
    let pat = quote_vec(key);
    let tl = text.len();
    let at = match find_in(text, &pat, 0) {
        Some(at) => at,
        None => return None,
    };
    proof {
        assert(key@.len() + 2 == pat@.len());
        lemma_find_from_some(text@, pat@, 0);
    }
    let after = slice_chars(text, at + pat.len(), tl);
    let colon_pat: Vec<char> = vec![':'];
    proof {
        assert(colon_pat@ =~= seq![':']);
    }
    let c = match find_in(&after, &colon_pat, 0) {
        Some(c) => c,
        None => return None,
    };
    proof {
        lemma_find_from_some(after@, colon_pat@, 0);
    }
    let value = slice_chars(&after, c + 1, after.len());
    let mut end: usize = 0;
    while end < value.len() && !(value[end] == ',' || value[end] == '\n' || value[end] == '}')
        invariant
            end <= value@.len(),
            value_end(value@, 0) == value_end(value@, end as int),
        decreases value@.len() - end,
    {
        end = end + 1;
    }
    let head = slice_chars(&value, 0, end);
    let v = trim_vec(&head);
    if v.len() == 0 {
        None
    } else {
        Some(v)
    }
}

impl Samples {
    /// The manifest, from its text.
    pub fn new(json: &str) -> (s: Self)
        ensures
            s.spec_json() == json@,
    {
        Samples { json: crate::text::string_of(json) }
    }

    /// The manifest's text.
    pub closed spec fn spec_json(self) -> Seq<char> {
        self.json@
    }

    fn field(&self, set: &str, key: &str) -> (r: Option<Vec<char>>)
        ensures
            match spec_field(self.spec_json(), set@, key@) {
                Some(v) => r matches Some(x) && x@ == v,
                None => r is None,
            },
    {
        let json = chars_of(self.json.as_str());
        let pat = quote_vec(set);
        let at = match find_in(&json, &pat, 0) {
            Some(at) => at,
            None => return None,
        };
        proof {
            lemma_find_from_some(json@, pat@, 0);
        }
        let rest = slice_chars(&json, at, json.len());
        let ghost rs = rest@;
        let nested: Vec<char> = vec!['\n', ' ', ' ', '"'];
        proof {
            assert(nested@ =~= seq!['\n', ' ', ' ', '"']);
        }
        let end = if rest.len() == 0 {
            0
        } else {
            let tail = slice_chars(&rest, 1, rest.len());
            proof {
                assert(tail@ =~= rs.drop_first());
            }
            match find_in(&tail, &nested, 0) {
                Some(e) => {
                    proof {
                        lemma_find_from_some(tail@, nested@, 0);
                    }
                    e + 1
                },
                None => rest.len(),
            }
        };
        proof {
            if rs.len() == 0 {
                assert(false);
            }
        }
        let block = slice_chars(&rest, 0, end);
        scan_vec(&block, key)
    }

    /// The file the manifest names for one side of a pair, e.g.
    /// `("large", "a")`, without its quotes; where it lives on disk, and
    /// whether it is there at all, is the caller's business.
    pub fn path(&self, set: &str, side: &str) -> (r: Option<String>)
        ensures
            match spec_field(self.spec_json(), set@, side@) {
                Some(v) => r matches Some(x) && x@ == unquote(v),
                None => r is None,
            },
    {
        match self.field(set, side) {
            Some(v) => Some(string_from(&unquote_vec(&v))),
            None => None,
        }
    }

    /// The files of both sides of a pair.
    pub fn both(&self, set: &str) -> (r: Option<(String, String)>)
        ensures
            match (spec_field(self.spec_json(), set@, "a"@), spec_field(self.spec_json(), set@, "b"@)) {
                (Some(a), Some(b)) => r matches Some(x) && x.0@ == unquote(a) && x.1@ == unquote(b),
                _ => r is None,
            },
    {
        let a = match self.path(set, "a") {
            Some(a) => a,
            None => return None,
        };
        let b = match self.path(set, "b") {
            Some(b) => b,
            None => return None,
        };
        Some((a, b))
    }

    /// A number the manifest says a check should find.
    pub fn number(&self, set: &str, key: &str) -> (r: Option<i32>)
        ensures
            match spec_field(self.spec_json(), set@, key@) {
                Some(v) => r == parse_i32(v),
                None => r is None,
            },
    {
        match self.field(set, key) {
            Some(v) => parse_i32_exec(&v),
            None => None,
        }
    }

    /// A string the manifest carries, such as a net label to look for.
    pub fn text(&self, set: &str, key: &str) -> (r: Option<String>)
        ensures
            match spec_field(self.spec_json(), set@, key@) {
                Some(v) => r matches Some(x) && x@ == unquote(v),
                None => r is None,
            },
    {
        self.path(set, key)
    }

    /// A top-level string, for the few things that belong to no pair.
    pub fn top(&self, key: &str) -> (r: Option<String>)
        ensures
            match spec_scan(self.spec_json(), key@) {
                Some(v) => r matches Some(x) && x@ == unquote(v),
                None => r is None,
            },
    {
        let json = chars_of(self.json.as_str());
        match scan_vec(&json, key) {
            Some(v) => Some(string_from(&unquote_vec(&v))),
            None => None,
        }
    }
}

/// Reads a 32-bit integer the way the standard library does.
fn parse_i32_exec(s: &Vec<char>) -> (r: Option<i32>)
    ensures
        r == parse_i32(s@),
{
    let ghost t = s@;
    let mut start: usize = 0;
    let mut neg = false;
    if s.len() > 0 && s[0] == '-' {
        neg = true;
        start = 1;
    } else if s.len() > 0 && s[0] == '+' {
        start = 1;
    }
    let ghost body = s@.subrange(start as int, s@.len() as int);
    proof {
        if start == 1 {
            assert(body =~= t.drop_first());
        } else {
            assert(body =~= t);
        }
    }
    if start == s.len() {
        proof {
            assert(body.len() == 0);
        }
        return None;
    }
    // Accumulated as a magnitude; anything past 2^31 is out of range on both
    // sides.
    let mut v: i64 = 0;
    let mut i = start;
    while i < s.len()
        invariant
            start <= i <= s@.len(),
            start < s@.len(),
            start <= 1,
            (start == 1) == (s@.len() > 0 && (s@[0] == '-' || s@[0] == '+')),
            neg == (s@.len() > 0 && s@[0] == '-'),
            start == 1 ==> body =~= s@.drop_first(),
            start == 0 ==> body =~= s@,
            body == s@.subrange(start as int, s@.len() as int),
            all_digits(s@.subrange(start as int, i as int)) || i == start,
            i > start ==> v == digits_value(s@.subrange(start as int, i as int)),
            i == start ==> v == 0,
            0 <= v <= 0x8000_0000,
        decreases s@.len() - i,
    {
        let c = s[i];
        if !('0' <= c && c <= '9') {
            proof {
                assert(body[i - start] == c);
                assert(!('0' <= body[i - start] <= '9'));
            }
            return None;
        }
        let d = (c as u32 - '0' as u32) as i64;
        proof {
            let pre = s@.subrange(start as int, i as int);
            let nxt = s@.subrange(start as int, i + 1);
            assert(nxt.drop_last() =~= pre);
            assert(nxt.last() == c);
            if i == start {
                assert(digits_value(pre) == 0);
            }
            assert(forall|j: int| 0 <= j < nxt.len() ==> '0' <= #[trigger] nxt[j] <= '9') by {
                assert forall|j: int| 0 <= j < nxt.len() implies '0' <= #[trigger] nxt[j] <= '9' by {
                    if j < pre.len() {
                        assert(nxt[j] == pre[j]);
                    }
                }
            }
        }
        let next = v * 10 + d;
        if next > 0x8000_0000 {
            proof {
                assert(s@.subrange(start as int, i + 1) =~= body.subrange(0, i - start + 1));
                if all_digits(body) {
                    lemma_digits_grow(body, i - start + 1);
                }
            }
            return None;
        }
        v = next;
        i = i + 1;
    }
    proof {
        assert(s@.subrange(start as int, i as int) =~= body);
    }
    if neg {
        Some((-v) as i32)
    } else if v > 0x7fff_ffff {
        None
    } else {
        Some(v as i32)
    }
}

/// A number only grows as digits are added.
proof fn lemma_digits_grow(s: Seq<char>, k: int)
    requires
        0 < k <= s.len(),
        all_digits(s.subrange(0, k)),
        digits_value(s.subrange(0, k)) > 0x8000_0000,
        all_digits(s),
    ensures
        digits_value(s) > 0x8000_0000,
    decreases s.len() - k,
{
    if k < s.len() {
        let nxt = s.subrange(0, k + 1);
        assert(nxt.drop_last() =~= s.subrange(0, k));
        assert(all_digits(nxt)) by {
            assert forall|j: int| 0 <= j < nxt.len() implies '0' <= #[trigger] nxt[j] <= '9' by {
                assert(nxt[j] == s[j]);
            }
        }
        assert(nxt.last() == s[k]);
        assert('0' <= s[k] <= '9');
        lemma_digits_grow(s, k + 1);
    } else {
        assert(s.subrange(0, k) =~= s);
    }
}

} // verus!
