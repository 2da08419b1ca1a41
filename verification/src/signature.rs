use vstd::prelude::*;

verus! {

/// What `char::is_alphanumeric` answers for `c`: whether it is alphabetic or
/// numeric in Unicode's sense.
pub uninterp spec fn char_is_alphanumeric(c: char) -> bool;

/// Calls `char::is_alphanumeric` from std. Trusted to answer
/// `char_is_alphanumeric(c)`, and, as its documentation's definition
/// (alphabetic or numeric) gives for ASCII, to say yes exactly to the ASCII
/// letters and digits among the ASCII characters.
#[verifier::external_body]
fn is_alphanumeric(c: char) -> (r: bool)
    ensures
        r == char_is_alphanumeric(c),
        (c as u32) < 128 ==> (r <==> (('a' as u32) <= (c as u32) <= ('z' as u32) || ('A' as u32) <= (c as u32)
            <= ('Z' as u32) || ('0' as u32) <= (c as u32) <= ('9' as u32))),
{
    c.is_alphanumeric()
}

/// A character that can be part of a token: alphanumeric, or one of the marks
/// net names are made of (`_ # . [ ]`).
pub open spec fn is_token_char(c: char) -> bool {
    char_is_alphanumeric(c) || c == '_' || c == '#' || c == '.' || c == '[' || c == ']'
}

/// `t[i..j)` is a whole run of token characters: nothing but token characters,
/// and no token character just before or just after it.
pub open spec fn is_run(t: Seq<char>, i: int, j: int) -> bool {
    &&& 0 <= i <= j <= t.len()
    &&& forall|k: int| i <= k < j ==> #[trigger] is_token_char(t[k])
    &&& (i == 0 || !is_token_char(t[i - 1]))
    &&& (j == t.len() || !is_token_char(t[j]))
}

/// The runs of at least three token characters in `t` that end before `k`.
pub open spec fn runs_before(t: Seq<char>, k: int) -> Set<Seq<char>> {
    Set::new(|s: Seq<char>| exists|i: int, j: int| #[trigger] is_run(t, i, j) && j < k && j - i >= 3 && s == t.subrange(i, j))
}

/// The tokens of a text: every run of token characters at least three long.
pub open spec fn token_set(t: Seq<char>) -> Set<Seq<char>> {
    runs_before(t, t.len() + 1 as int)
}

/// A character of plain ASCII text that can be part of a token: an ASCII
/// letter or digit, or one of the marks net names are made of.
pub open spec fn is_ascii_token_char(c: char) -> bool {
    ||| ('a' as u32) <= (c as u32) <= ('z' as u32)
    ||| ('A' as u32) <= (c as u32) <= ('Z' as u32)
    ||| ('0' as u32) <= (c as u32) <= ('9' as u32)
    ||| c == '_' || c == '#' || c == '.' || c == '[' || c == ']'
}

/// `t[i..j)` is a whole run of ASCII token characters.
pub open spec fn is_ascii_run(t: Seq<char>, i: int, j: int) -> bool {
    &&& 0 <= i <= j <= t.len()
    &&& forall|k: int| i <= k < j ==> #[trigger] is_ascii_token_char(t[k])
    &&& (i == 0 || !is_ascii_token_char(t[i - 1]))
    &&& (j == t.len() || !is_ascii_token_char(t[j]))
}

/// The tokens of a plain ASCII text: every run of ASCII letters, digits and
/// net-name marks at least three long.
pub open spec fn ascii_token_set(t: Seq<char>) -> Set<Seq<char>> {
    Set::new(|s: Seq<char>| exists|i: int, j: int| #[trigger] is_ascii_run(t, i, j) && j - i >= 3 && s == t.subrange(i, j))
}

/// Every character of `t` is ASCII.
pub open spec fn is_ascii_text(t: Seq<char>) -> bool {
    forall|k: int| 0 <= k < t.len() ==> (#[trigger] t[k] as u32) < 128
}

/// Where the two readings of a token character agree on every character of a
/// text, so do its tokens.
proof fn lemma_ascii_tokens(t: Seq<char>)
    requires
        forall|k: int| 0 <= k < t.len() ==> #[trigger] is_token_char(t[k]) == is_ascii_token_char(t[k]),
    ensures
        token_set(t) == ascii_token_set(t),
{
    assert forall|i: int, j: int| #[trigger] is_run(t, i, j) == is_ascii_run(t, i, j) by {
        if 0 <= i <= j <= t.len() {
            if i > 0 {
                assert(is_token_char(t[i - 1]) == is_ascii_token_char(t[i - 1]));
            }
            if j < t.len() {
                assert(is_token_char(t[j]) == is_ascii_token_char(t[j]));
            }
            assert((forall|k: int| i <= k < j ==> #[trigger] is_token_char(t[k])) == (forall|k: int|
                i <= k < j ==> #[trigger] is_ascii_token_char(t[k]))) by {
                assert forall|k: int| i <= k < j implies is_token_char(t[k]) == is_ascii_token_char(t[k]) by {}
            }
        }
    }
    assert forall|x: Seq<char>| token_set(t).contains(x) <==> ascii_token_set(t).contains(x) by {
        if token_set(t).contains(x) {
            let (i, j) = choose|i: int, j: int| #[trigger] is_run(t, i, j) && j < t.len() + 1 && j - i >= 3 && x == t.subrange(i, j);
            assert(is_ascii_run(t, i, j));
        }
        if ascii_token_set(t).contains(x) {
            let (i, j) = choose|i: int, j: int| #[trigger] is_ascii_run(t, i, j) && j - i >= 3 && x == t.subrange(i, j);
            assert(is_run(t, i, j));
        }
    }
    assert(token_set(t) =~= ascii_token_set(t));
}

/// Similarity is counted in millionths: a score of `SIMILARITY_SCALE` is two
/// sheets that say exactly the same things.
pub const SIMILARITY_SCALE: u32 = 1_000_000;

/// Jaccard similarity in millionths, rounded down: how much of everything either
/// sheet says do they both say. Zero where either sheet says nothing.
pub open spec fn jaccard(a: Set<Seq<char>>, b: Set<Seq<char>>) -> int {
    if a.len() == 0 || b.len() == 0 {
        0
    } else {
        (a.intersect(b).len() * SIMILARITY_SCALE) as int / (a.union(b).len() as int)
    }
}

/// What one sheet looks like to the matcher: the set of its tokens.
#[derive(Debug)]
pub struct Signature {
    tokens: Vec<Vec<char>>,
}

pub open spec fn token_views(tokens: Seq<Vec<char>>) -> Seq<Seq<char>> {
    tokens.map_values(|t: Vec<char>| t@)
}

impl Default for Signature {
    /// A sheet that says nothing.
    fn default() -> (s: Self)
        ensures
            s.tokens() == Set::<Seq<char>>::empty(),
    {
        let s = Signature { tokens: Vec::new() };
        proof {
            assert(token_views(s.tokens@).to_set() =~= Set::<Seq<char>>::empty());
        }
        s
    }
}

impl Signature {
    #[verifier::type_invariant]
    spec fn inv(self) -> bool {
        token_views(self.tokens@).no_duplicates()
    }

    /// The sheet's tokens.
    pub closed spec fn tokens(self) -> Set<Seq<char>> {
        token_views(self.tokens@).to_set()
    }

    /// Builds a signature from a sheet's extracted text.
    ///
    /// Tokens of three characters or more, so the column and row letters that
    /// edge every drawing frame do not make every sheet look like every other.
    /// `#`, `_`, `.` and brackets are kept because net names are made of them.
    pub fn from_text(text: &str) -> (sig: Self)
        ensures
            sig.tokens() == token_set(text@),
            is_ascii_text(text@) ==> sig.tokens() == ascii_token_set(text@),
    {
        let ghost t = text@;
        let mut tokens: Vec<Vec<char>> = Vec::new();
        let mut cur: Vec<char> = Vec::new();
        let ghost mut s: int = 0;
        proof {
            assert(token_views(tokens@).to_set() =~= runs_before(t, 0));
        }
        for ch in it: text.chars()
            invariant
                t == text@,
                it.seq() == t,
                0 <= s <= it.index() <= t.len(),
                cur@ == t.subrange(s, it.index() as int),
                forall|k: int| s <= k < it.index() ==> #[trigger] is_token_char(t[k]),
                s == 0 || !is_token_char(t[s - 1]),
                token_views(tokens@).no_duplicates(),
                token_views(tokens@).to_set() == runs_before(t, it.index() as int),
                forall|k: int|
                    0 <= k < it.index() && (t[k] as u32) < 128 ==> #[trigger] is_token_char(t[k])
                        == is_ascii_token_char(t[k]),
        {
            let ghost k = it.index() as int;
            proof {
                assert(ch == t[k]);
            }
            let tok = is_alphanumeric(ch) || ch == '_' || ch == '#' || ch == '.' || ch == '[' || ch == ']';
            if tok {
                proof {
                    lemma_runs_before_token(t, k);
                    assert(cur@.push(ch) =~= t.subrange(s, k + 1));
                }
                cur.push(ch);
            } else {
                proof {
                    lemma_runs_before_close(t, s, k);
                }
                if cur.len() >= 3 {
                    add_token(&mut tokens, cur);
                    cur = Vec::new();
                } else {
                    cur = Vec::new();
                }
                proof {
                    s = k + 1;
                    assert(cur@ =~= t.subrange(s, k + 1));
                }
            }
        }
        proof {
            lemma_runs_before_close(t, s, t.len() as int);
            if is_ascii_text(t) {
                assert forall|k: int| 0 <= k < t.len() implies #[trigger] is_token_char(t[k]) == is_ascii_token_char(t[k]) by {
                    assert((t[k] as u32) < 128);
                }
                lemma_ascii_tokens(t);
            }
        }
        if cur.len() >= 3 {
            add_token(&mut tokens, cur);
        }
        Signature { tokens }
    }

    /// A sheet has finitely many tokens.
    pub proof fn lemma_tokens_finite(self)
        ensures
            self.tokens().finite(),
    {
    }

    /// Whether the sheet has no tokens at all.
    pub fn is_empty(&self) -> (b: bool)
        ensures
            b == (self.tokens().len() == 0),
    {
        proof {
            use_type_invariant(self);
            token_views(self.tokens@).unique_seq_to_set();
        }
        self.tokens.len() == 0
    }

    /// Jaccard similarity in millionths: how much of everything either sheet
    /// says do they both say.
    ///
    /// Two sheets with no text at all are not "identical", they are unknown,
    /// and answering the full score there would confidently pair every blank
    /// sheet in the set with the first one it met.
    pub fn similarity(&self, other: &Signature) -> (r: u32)
        ensures
            r == jaccard(self.tokens(), other.tokens()),
            r <= SIMILARITY_SCALE,
    {
        proof {
            use_type_invariant(self);
            use_type_invariant(other);
        }
        let ghost sa = token_views(self.tokens@);
        let ghost bset = other.tokens();
        if self.tokens.len() == 0 || other.tokens.len() == 0 {
            proof {
                sa.unique_seq_to_set();
                token_views(other.tokens@).unique_seq_to_set();
            }
            return 0;
        }
        let mut shared: usize = 0;
        let mut i: usize = 0;
        proof {
            assert(sa.subrange(0, 0).to_set().intersect(bset) =~= Set::<Seq<char>>::empty());
        }
        while i < self.tokens.len()
            invariant
                i <= self.tokens@.len(),
                sa == token_views(self.tokens@),
                sa.no_duplicates(),
                bset == token_views(other.tokens@).to_set(),
                sa.subrange(0, i as int).to_set().intersect(bset).finite(),
                shared == sa.subrange(0, i as int).to_set().intersect(bset).len(),
                shared <= i,
            decreases self.tokens@.len() - i,
        {
            let ghost before = sa.subrange(0, i as int).to_set().intersect(bset);
            let ghost x = sa[i as int];
            let inb = contains_chars(&other.tokens, &self.tokens[i]);
            proof {
                assert(sa.subrange(0, i + 1) =~= sa.subrange(0, i as int).push(x));
                sa.subrange(0, i as int).lemma_push_to_set_commute(x);
                assert(!sa.subrange(0, i as int).contains(x)) by {
                    if sa.subrange(0, i as int).contains(x) {
                        let k = choose|k: int| 0 <= k < i && sa.subrange(0, i as int)[k] == x;
                        assert(sa[k] == sa[i as int]);
                    }
                }
                if inb {
                    assert(sa.subrange(0, i + 1).to_set().intersect(bset) =~= before.insert(x));
                } else {
                    assert(sa.subrange(0, i + 1).to_set().intersect(bset) =~= before);
                }
            }
            if inb {
                shared = shared + 1;
            }
            i = i + 1;
        }
        let ghost aset = self.tokens();
        proof {
            assert(sa.subrange(0, i as int) =~= sa);
            sa.unique_seq_to_set();
            token_views(other.tokens@).unique_seq_to_set();
            vstd::set_lib::lemma_set_intersect_union_lens(aset, bset);
            vstd::set_lib::lemma_len_intersect(aset, bset);
            vstd::set_lib::lemma_len_intersect(bset, aset);
            assert(aset.intersect(bset) =~= bset.intersect(aset));
            assert(aset + bset == aset.union(bset));
        }
        let total: u128 = (self.tokens.len() as u128 + other.tokens.len() as u128) - shared as u128;
        let r: u128 = (shared as u128 * 1_000_000u128) / total;
        proof {
            assert(shared <= total);
            assert(shared * 1_000_000 <= total * 1_000_000) by (nonlinear_arith)
                requires shared <= total;
            assert(r <= 1_000_000) by (nonlinear_arith)
                requires r == (shared as int * 1_000_000) / (total as int), shared * 1_000_000 <= total * 1_000_000, total > 0;
        }
        r as u32
    }

    /// Whether `token` is one of the sheet's tokens.
    pub fn contains_token(&self, token: &str) -> (b: bool)
        ensures
            b == self.tokens().contains(token@),
    {
        let mut t: Vec<char> = Vec::new();
        for ch in it: token.chars()
            invariant
                it.seq() == token@,
                t@ == it.seq().subrange(0, it.index() as int),
        {
            t.push(ch);
        }
        assert(t@ =~= token@);
        contains_chars(&self.tokens, &t)
    }
}

/// Whether two character sequences are equal.
fn same_chars(a: &Vec<char>, b: &Vec<char>) -> (r: bool)
    ensures
        r == (a@ == b@),
{
    if a.len() != b.len() {
        return false;
    }
    let mut i: usize = 0;
    while i < a.len()
        invariant
            i <= a@.len(),
            a@.len() == b@.len(),
            forall|k: int| 0 <= k < i ==> a@[k] == b@[k],
        decreases a@.len() - i,
    {
        if a[i] != b[i] {
            return false;
        }
        i = i + 1;
    }
    assert(a@ =~= b@);
    true
}

/// Whether `t` is among `tokens`.
fn contains_chars(tokens: &Vec<Vec<char>>, t: &Vec<char>) -> (r: bool)
    ensures
        r == token_views(tokens@).to_set().contains(t@),
{
    let mut i: usize = 0;
    while i < tokens.len()
        invariant
            i <= tokens@.len(),
            forall|k: int| 0 <= k < i ==> token_views(tokens@)[k] != t@,
        decreases tokens@.len() - i,
    {
        if same_chars(&tokens[i], t) {
            assert(token_views(tokens@)[i as int] == t@);
            return true;
        }
        i = i + 1;
    }
    false
}

/// Adds `t` to the tokens unless it is there already.
fn add_token(tokens: &mut Vec<Vec<char>>, t: Vec<char>)
    requires
        token_views(old(tokens)@).no_duplicates(),
    ensures
        token_views(final(tokens)@).no_duplicates(),
        token_views(final(tokens)@).to_set() == token_views(old(tokens)@).to_set().insert(t@),
{
    if contains_chars(tokens, &t) {
        assert(token_views(tokens@).to_set().insert(t@) =~= token_views(tokens@).to_set());
        return;
    }
    let ghost old_v = token_views(tokens@);
    tokens.push(t);
    proof {
        assert(token_views(tokens@) =~= old_v.push(t@));
        old_v.lemma_push_to_set_commute(t@);
    }
}

/// Reading a token character closes no run.
proof fn lemma_runs_before_token(t: Seq<char>, k: int)
    requires
        0 <= k < t.len(),
        is_token_char(t[k]),
    ensures
        runs_before(t, k + 1) == runs_before(t, k),
{
    assert forall|x: Seq<char>| #[trigger] runs_before(t, k + 1).contains(x) implies runs_before(t, k).contains(x) by {
        let (i, j) = choose|i: int, j: int| #[trigger] is_run(t, i, j) && j < k + 1 && j - i >= 3 && x == t.subrange(i, j);
        assert(j != k);
    }
    assert(runs_before(t, k + 1) =~= runs_before(t, k));
}

/// Reaching a character that is not a token character, or the end, closes the
/// run that started at `s`, and no other.
proof fn lemma_runs_before_close(t: Seq<char>, s: int, k: int)
    requires
        0 <= s <= k <= t.len(),
        forall|i: int| s <= i < k ==> #[trigger] is_token_char(t[i]),
        s == 0 || !is_token_char(t[s - 1]),
        k == t.len() || !is_token_char(t[k]),
    ensures
        is_run(t, s, k),
        runs_before(t, k + 1) == (if k - s >= 3 {
            runs_before(t, k).insert(t.subrange(s, k))
        } else {
            runs_before(t, k)
        }),
{
    let rhs = if k - s >= 3 {
        runs_before(t, k).insert(t.subrange(s, k))
    } else {
        runs_before(t, k)
    };
    assert forall|x: Seq<char>| #[trigger] runs_before(t, k + 1).contains(x) implies rhs.contains(x) by {
        let (i, j) = choose|i: int, j: int| #[trigger] is_run(t, i, j) && j < k + 1 && j - i >= 3 && x == t.subrange(i, j);
        if j == k {
            if i < s {
                assert(is_token_char(t[s - 1]));
            } else if i > s {
                assert(is_token_char(t[i - 1]));
            }
        }
    }
    assert forall|x: Seq<char>| rhs.contains(x) implies #[trigger] runs_before(t, k + 1).contains(x) by {
        if runs_before(t, k).contains(x) {
            let (i, j) = choose|i: int, j: int| #[trigger] is_run(t, i, j) && j < k && j - i >= 3 && x == t.subrange(i, j);
            assert(is_run(t, i, j) && j < k + 1);
        } else {
            assert(is_run(t, s, k));
        }
    }
    assert(runs_before(t, k + 1) =~= rhs);
}

/// Similarity does not depend on which sheet is asked first, and a sheet with
/// no text at all is unknown, not identical: it scores nothing against
/// anything, itself included.
pub proof fn law_similarity_symmetric_and_blank_is_unknown(a: Set<Seq<char>>, b: Set<Seq<char>>)
    ensures
        jaccard(a, b) == jaccard(b, a),
        a.len() == 0 ==> jaccard(a, b) == 0 && jaccard(b, a) == 0,
{
    assert(a.intersect(b) =~= b.intersect(a));
    assert(a.union(b) =~= b.union(a));
}

} // verus!
